use minesweeper_render::get_image_data;
use minesweeper_render::minesweeper::base36;
use minesweeper_render::minesweeper::base62;
use minesweeper_render::minesweeper::error::MinesweeperError;
use minesweeper_render::minesweeper::minesweeper_logic::{Board, FieldState};
use minesweeper_render::minesweeper::parsers::parser::{Action, Iparser, Metadata};
use minesweeper_render::minesweeper::parsers::v1::parser::{get_flag_type, ParserV1};
use minesweeper_render::minesweeper::provider::provider::ApiData;
use minesweeper_render::minesweeper::renderer::{Renderer, RenderType};
use minesweeper_render::minesweeper::textures::load_textures;

fn make_atlas() -> Vec<u8> {
    // 13 glyphs of 32x32; glyph k is a solid, distinct colour
    let img = image::RgbaImage::from_fn(13 * 32, 32, |x, _y| {
        let k = (x / 32) as u8;
        image::Rgba([10 * k + 5, 7 * k + 3, 255 - 10 * k, 255])
    });
    let mut cursor = std::io::Cursor::new(Vec::new());
    image::DynamicImage::ImageRgba8(img)
        .write_to(&mut cursor, image::ImageFormat::Png)
        .unwrap();
    cursor.into_inner()
}

fn glyph_color(k: u8) -> [u8; 4] {
    [10 * k + 5, 7 * k + 3, 255 - 10 * k, 255]
}

fn api(game: &str) -> ApiData {
    ApiData {
        game_data: Some(game.to_string()),
        tiepe: None,
        time: 0,
        generator: None,
        uuid: String::new(),
        correct_flags: None,
        incorrect_flags: None,
        won: true,
    }
}

fn still_image(game: &str) -> image::RgbaImage {
    let atlas = make_atlas();
    let bytes = get_image_data(&api(game), false, &atlas, &atlas)
        .unwrap()
        .unwrap();
    image::load_from_memory(&bytes).unwrap().to_rgba8()
}

fn make_board(meta: &str, mines: &str) -> Board {
    let parser = ParserV1;
    let metadata = parser.parse_meta_data(meta).unwrap();
    parser.parse_mine_data(mines, &metadata).unwrap()
}

#[test]
fn base36_decode_values() {
    assert_eq!(base36::decode("0").unwrap(), 0);
    assert_eq!(base36::decode("z").unwrap(), 35);
    assert_eq!(base36::decode("10").unwrap(), 36);
}

#[test]
fn base36_decode_rejects_foreign_characters() {
    assert_eq!(base36::decode("!").unwrap_err(), MinesweeperError::Decode);
    assert_eq!(base36::decode("A").unwrap_err(), MinesweeperError::Decode);
}

#[test]
fn base62_decode_values() {
    assert_eq!(base62::decode("0").unwrap(), 0);
    assert_eq!(base62::decode("9").unwrap(), 9);
    assert_eq!(base62::decode("A").unwrap(), 10);
    assert_eq!(base62::decode("Z").unwrap(), 35);
    assert_eq!(base62::decode("a").unwrap(), 36);
    assert_eq!(base62::decode("z").unwrap(), 61);
    assert_eq!(base62::decode("10").unwrap(), 62);
}

#[test]
fn base62_decode_overflow_is_reported() {
    assert_eq!(
        base62::decode("zzzzzzzzzzzzzzzzzzzzzz").unwrap_err(),
        MinesweeperError::DataParse
    );
}

#[test]
fn board_construction_counts_neighbours() {
    let board = make_board("3x3", "00");
    assert_eq!(board.mine_count, 1);
    assert_eq!(board.total_fields, 9);
    assert_eq!(board.open_fields, 0);
    assert!(board.fields[0][0].mine);
    assert_eq!(board.fields[0][0].value, 0);
    assert_eq!(board.fields[0][1].value, 1);
    assert_eq!(board.fields[1][0].value, 1);
    assert_eq!(board.fields[1][1].value, 1);
    assert_eq!(board.fields[2][2].value, 0);
    for row in &board.fields {
        for f in row {
            assert_eq!(f.field_state, FieldState::Closed);
        }
    }
}

#[test]
fn board_construction_rejects_out_of_bounds_mine() {
    let parser = ParserV1;
    let metadata = parser.parse_meta_data("3x3").unwrap();
    assert_eq!(
        parser.parse_mine_data("55", &metadata).unwrap_err(),
        MinesweeperError::MalformedField
    );
}

#[test]
fn board_construction_rejects_repeated_mine() {
    let parser = ParserV1;
    let metadata = parser.parse_meta_data("3x3").unwrap();
    assert_eq!(
        parser.parse_mine_data("00;00", &metadata).unwrap_err(),
        MinesweeperError::MalformedField
    );
}

#[test]
fn open_field_is_idempotent() {
    let mut board = make_board("3x3", "00");
    board.open_field(2, 2);
    let fields_once = board.fields.clone();
    let marks_once = board.changed_fields.clone();
    let count_once = board.open_fields;
    board.open_field(2, 2);
    assert_eq!(board.fields, fields_once);
    assert_eq!(board.changed_fields, marks_once);
    assert_eq!(board.open_fields, count_once);
}

#[test]
fn flood_fill_opens_region_but_not_mine() {
    let mut board = make_board("3x3", "00");
    board.open_field(2, 2);
    // every cell except the mine is connected through zero cells
    assert_eq!(board.open_fields, 8);
    assert_eq!(board.fields[0][0].field_state, FieldState::Closed);
    for y in 0..3 {
        for x in 0..3 {
            if !(x == 0 && y == 0) {
                assert_eq!(board.fields[y][x].field_state, FieldState::Open);
            }
        }
    }
}

#[test]
fn flood_fill_stops_at_numbered_border() {
    // a mine wall splits a 5x1 board: opening the far end only reaches
    // the bordering numbered cell
    let mut board = make_board("5x1", "20");
    board.open_field(4, 0);
    assert_eq!(board.fields[0][4].field_state, FieldState::Open);
    assert_eq!(board.fields[0][3].field_state, FieldState::Open);
    assert_eq!(board.fields[0][2].field_state, FieldState::Closed);
    assert_eq!(board.fields[0][1].field_state, FieldState::Closed);
    assert_eq!(board.fields[0][0].field_state, FieldState::Closed);
}

#[test]
fn progress_is_monotone_and_completes() {
    let mut board = make_board("2x2", "00");
    let mut last = board.calculate_done_percentage();
    assert_eq!(last, 0);
    for (x, y) in [(1usize, 0usize), (0, 1), (1, 1)] {
        board.open_field(x, y);
        let now = board.calculate_done_percentage();
        assert!(now >= last);
        last = now;
    }
    assert_eq!(last, 100);
}

#[test]
fn timeline_merges_same_time_into_one_tick() {
    let atlas = make_atlas();
    let parser = ParserV1;
    let metadata = parser.parse_meta_data("3x3").unwrap();
    let board = parser.parse_mine_data("", &metadata).unwrap();
    // open at (2,2) after 5 units; flag placed at (0,0) after 5 units
    let opens = parser.parse_open_data("225").unwrap();
    let flags = parser.parse_flag_data("005P").unwrap();
    assert_eq!(opens[0].total_time, 5);
    assert_eq!(flags[0].total_time, 5);
    let renderer = Renderer::new(metadata, board, opens, flags, &atlas).unwrap();
    let ticks = renderer.create_tick_map();
    assert_eq!(ticks.len(), 1);
    assert_eq!(ticks[0].time, 5);
    assert!(ticks[0].open);
    assert!(ticks[0].flag);
}

#[test]
fn cumulative_times_are_per_kind_prefix_sums() {
    let parser = ParserV1;
    let opens = parser.parse_open_data("003;112;224").unwrap();
    assert_eq!(opens[0].total_time, 3);
    assert_eq!(opens[1].total_time, 5);
    assert_eq!(opens[2].total_time, 9);
    let flags = parser.parse_flag_data("007P;018R").unwrap();
    assert_eq!(flags[0].total_time, 7);
    assert_eq!(flags[1].total_time, 15);
    assert_eq!(flags[1].action, Action::Remove);
}

#[test]
fn explicit_items_parse_like_compact_ones() {
    let parser = ParserV1;
    let a = parser.parse_open_data("2|2:5").unwrap();
    let b = parser.parse_open_data("225").unwrap();
    assert_eq!(a[0].x, b[0].x);
    assert_eq!(a[0].y, b[0].y);
    assert_eq!(a[0].time, b[0].time);
    let mines = parser.parse_mine_locations("10|3").unwrap();
    assert_eq!(mines, vec![(62, 3)]);
}

#[test]
fn toggle_is_unsupported_in_version_one() {
    let parser = ParserV1;
    assert_eq!(
        parser.parse_flag_data("005T").unwrap_err(),
        MinesweeperError::UnsupportedAction
    );
    assert_eq!(
        get_flag_type('T').unwrap_err(),
        MinesweeperError::UnsupportedAction
    );
    assert_eq!(get_flag_type('P').unwrap(), Action::Place);
    assert_eq!(get_flag_type('R').unwrap(), Action::Remove);
    assert_eq!(
        get_flag_type('X').unwrap_err(),
        MinesweeperError::MalformedField
    );
}

#[test]
fn unsupported_version_is_refused() {
    let atlas = make_atlas();
    assert_eq!(
        get_image_data(&api("2=3x3+++"), false, &atlas, &atlas).unwrap_err(),
        MinesweeperError::UnsupportedVersion
    );
}

#[test]
fn missing_version_delimiter_is_malformed() {
    let atlas = make_atlas();
    assert_eq!(
        get_image_data(&api("13x3"), false, &atlas, &atlas).unwrap_err(),
        MinesweeperError::MalformedField
    );
}

#[test]
fn decode_error_surfaces_from_mine_field() {
    let atlas = make_atlas();
    assert_eq!(
        get_image_data(&api("1=3x3+0|!+ +"), false, &atlas, &atlas).unwrap_err(),
        MinesweeperError::Decode
    );
}

#[test]
fn overflowing_time_literal_is_reported() {
    let parser = ParserV1;
    assert_eq!(
        parser
            .parse_open_data("00999999999999999999999999999")
            .unwrap_err(),
        MinesweeperError::DataParse
    );
}

#[test]
fn missing_game_data_yields_no_image() {
    let atlas = make_atlas();
    let mut data = api("x");
    data.game_data = None;
    assert_eq!(get_image_data(&data, false, &atlas, &atlas).unwrap(), None);
}

#[test]
fn still_image_of_untouched_board_shows_closed_cells() {
    // version 1, 3x3 board, no mines, no events: nine closed cells and
    // an empty progress strip
    let img = still_image("1=3x3+++");
    assert_eq!(img.dimensions(), (96, 100));
    let closed = glyph_color(10);
    for cy in 0..3 {
        for cx in 0..3 {
            let p = img.get_pixel(cx * 32 + 16, cy * 32 + 16).0;
            assert_eq!(p, closed);
        }
    }
    // progress 0: no strip column is coloured
    assert_eq!(img.get_pixel(0, 97).0, [0, 0, 0, 255]);
    assert_eq!(img.get_pixel(50, 97).0, [0, 0, 0, 255]);
}

#[test]
fn still_image_after_flood_fill_shows_revealed_region() {
    // one corner mine, one open at the opposite corner: the flood
    // reveals all eight mine-free cells and progress reaches 100
    let img = still_image("1=3x3+00+227+");
    let closed = glyph_color(10);
    let zero = glyph_color(0);
    let one = glyph_color(1);
    assert_eq!(img.get_pixel(16, 16).0, closed);
    assert_eq!(img.get_pixel(2 * 32 + 16, 2 * 32 + 16).0, zero);
    assert_eq!(img.get_pixel(32 + 16, 16).0, one);
    assert_eq!(img.get_pixel(32 + 16, 32 + 16).0, one);
    // 8 of 8 mine-free cells open: the whole strip is coloured
    assert_eq!(img.get_pixel(0, 97).0, [103, 149, 60, 255]);
    assert_eq!(img.get_pixel(95, 97).0, [103, 149, 60, 255]);
}

#[test]
fn still_output_is_png_and_deterministic() {
    let atlas = make_atlas();
    let a = get_image_data(&api("1=3x3+00+227+005P"), false, &atlas, &atlas)
        .unwrap()
        .unwrap();
    let b = get_image_data(&api("1=3x3+00+227+005P"), false, &atlas, &atlas)
        .unwrap()
        .unwrap();
    assert_eq!(a, b);
    assert_eq!(&a[0..4], &[0x89, b'P', b'N', b'G']);
}

#[test]
fn animated_output_is_gif_and_deterministic() {
    let atlas = make_atlas();
    let a = get_image_data(&api("1=3x3+00+227+005P"), true, &atlas, &atlas)
        .unwrap()
        .unwrap();
    let b = get_image_data(&api("1=3x3+00+227+005P"), true, &atlas, &atlas)
        .unwrap()
        .unwrap();
    assert_eq!(a, b);
    assert_eq!(&a[0..6], b"GIF89a");
}

#[test]
fn large_boards_fall_back_to_still_output() {
    let atlas = make_atlas();
    let out = get_image_data(&api("1=33x3+++"), true, &atlas, &atlas)
        .unwrap()
        .unwrap();
    assert_eq!(&out[0..4], &[0x89, b'P', b'N', b'G']);
}

#[test]
fn flag_actions_set_and_clear_markers() {
    let atlas = make_atlas();
    // place a flag at (0,0), mark (1,0) unsure is not possible in v1;
    // place then remove at (1,1)
    let img = still_image("1=3x3+++005P;115P");
    let flag = glyph_color(11);
    assert_eq!(img.get_pixel(16, 16).0, flag);
    assert_eq!(img.get_pixel(32 + 16, 32 + 16).0, flag);
    let img2 = still_image("1=3x3+++005P;113R");
    let closed = glyph_color(10);
    assert_eq!(img2.get_pixel(16, 16).0, flag);
    assert_eq!(img2.get_pixel(32 + 16, 32 + 16).0, closed);
    drop(atlas);
}

#[test]
fn render_type_parses_names_case_insensitively() {
    assert_eq!(RenderType::from_str("image").unwrap(), RenderType::Image);
    assert_eq!(RenderType::from_str("GIF").unwrap(), RenderType::Gif);
    assert_eq!(RenderType::from_str("  Image\t").unwrap(), RenderType::Image);
    assert_eq!(RenderType::from_str(" gif \n").unwrap(), RenderType::Gif);
    assert_eq!(
        RenderType::from_str("webp").unwrap_err(),
        MinesweeperError::DataParseError
    );
}

#[test]
fn load_textures_picks_the_requested_skin() {
    let full = vec![1u8, 2, 3];
    let gifskin = vec![9u8, 8];
    assert_eq!(load_textures(&false, &full, &gifskin), full);
    assert_eq!(load_textures(&true, &full, &gifskin), gifskin);
}

#[test]
fn metadata_parses_dimensions_and_time_unit() {
    let parser = ParserV1;
    let m = parser.parse_meta_data("12x7").unwrap();
    assert_eq!(
        m,
        Metadata {
            x_size: 12,
            y_size: 7,
            timeunits: 50
        }
    );
    assert_eq!(
        parser.parse_meta_data("0x7").unwrap_err(),
        MinesweeperError::MalformedField
    );
    assert_eq!(
        parser.parse_meta_data("12").unwrap_err(),
        MinesweeperError::MalformedField
    );
}
