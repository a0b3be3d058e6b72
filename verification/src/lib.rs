pub mod minesweeper;

use vstd::prelude::*;
use vstd::string::StringSliceAdditionalSpecFns;

use crate::minesweeper::error::MinesweeperError;
use crate::minesweeper::minesweeper_logic::{
    done_percentage, full_marks, mine_in_bounds, start_grid,
};
use crate::minesweeper::parsers::parser::{Iparser, Metadata, OpenAction, FlagAction};
use crate::minesweeper::parsers::v1::parser::{
    find_byte, find_in, lemma_split_head, lemma_split_nonempty, spec_parse_flags,
    spec_parse_meta, spec_parse_mines, spec_parse_opens, spec_split, ParserV1,
};
use crate::minesweeper::renderer::{
    cleared_marks, flags_in_bounds, flat_of, fold_flags, fold_opens, gif_bytes_of, gif_fold_atlas,
    lemma_gif_fold_atlas, lemma_painted_atlas, opens_in_bounds, painted_canvas_atlas,
    png_encoding_of, render_gif_output, rgba_of, ticks_for, zero_canvas, Renderer, Tick,
};
use crate::minesweeper::provider::provider::ApiData;
use crate::minesweeper::textures::load_textures;

verus! {

/// Splits a string at a byte position that starts a character: the
/// position of an ASCII byte, or the end of the string.
fn split_ascii(s: &str, i: usize) -> (r: (&str, &str))
    requires
        i as int <= s.spec_bytes().len(),
        i as int == s.spec_bytes().len() || s.spec_bytes()[i as int] < 128,
    ensures
        r.0.spec_bytes() == s.spec_bytes().subrange(0, i as int),
        r.1.spec_bytes() == s.spec_bytes().subrange(i as int, s.spec_bytes().len() as int),
{
    proof {
        broadcast use vstd::utf8::encode_utf8_valid_utf8;
        broadcast use vstd::utf8::is_char_boundary_start_end_of_seq;
        broadcast use vstd::utf8::is_char_boundary_iff_not_is_continuation_byte;

        assert(vstd::utf8::valid_utf8(s.spec_bytes()));
        if i as int == s.spec_bytes().len() {
            assert(vstd::utf8::is_char_boundary(s.spec_bytes(), s.spec_bytes().len() as int));
        } else {
            assert(!vstd::utf8::is_continuation_byte(s.spec_bytes()[i as int]));
            assert(vstd::utf8::is_char_boundary(s.spec_bytes(), i as int));
        }
    }
    s.split_at(i)
}

/// Drops one leading ASCII byte from a string.
fn drop_one_ascii(s: &str) -> (r: &str)
    requires
        s.spec_bytes().len() >= 1,
        s.spec_bytes()[0] < 128,
    ensures
        r.spec_bytes() == s.spec_bytes().subrange(1, s.spec_bytes().len() as int),
{
    proof {
        broadcast use vstd::utf8::encode_utf8_valid_utf8;
        broadcast use vstd::utf8::is_char_boundary_start_end_of_seq;
        broadcast use vstd::utf8::is_char_boundary_iff_not_is_continuation_byte;

        let bs = s.spec_bytes();
        assert(vstd::utf8::valid_utf8(bs));
        assert(vstd::utf8::valid_first_scalar(bs) && vstd::utf8::valid_utf8(
            vstd::utf8::pop_first_scalar(bs),
        ));
        assert(vstd::utf8::length_of_first_scalar(bs) == 1);
        assert(vstd::utf8::is_char_boundary(vstd::utf8::pop_first_scalar(bs), 0));
        assert(vstd::utf8::is_char_boundary(bs, 1int));
    }
    let (_, rest) = s.split_at(1);
    rest
}

/// The version tag of a replay string: the text before the first `=`.
pub open spec fn replay_version(b: Seq<u8>) -> Seq<u8> {
    b.subrange(0, find_byte(b, 61))
}

/// The `+`-separated fields after the version tag.
pub open spec fn replay_fields(b: Seq<u8>) -> Seq<Seq<u8>> {
    spec_split(b.subrange(find_byte(b, 61) + 1, b.len() as int), 43)
}

/// A usable mine list: every mine on the board and none repeated.
pub open spec fn mines_ok(md: Metadata, ms: Seq<(i32, i32)>) -> bool {
    (forall|k: int| 0 <= k < ms.len() ==> mine_in_bounds(md, #[trigger] ms[k])) && (forall|
        k1: int,
        k2: int,
    |
        0 <= k1 < k2 < ms.len() ==> #[trigger] ms[k1] != #[trigger] ms[k2])
}

/// A decoded atlas wide and tall enough for the thirteen glyphs.
pub open spec fn atlas_ok(atlas: Seq<u8>) -> bool {
    rgba_of(atlas) matches Some(t) && t.0 >= 416 && t.1 >= 32
}

/// The still image of one replay as bytes: every flag event applied,
/// then every open event, one frame painted from the starting canvas
/// at the final progress percentage, encoded losslessly.
pub open spec fn still_bytes(
    md: Metadata,
    ms: Seq<(i32, i32)>,
    opens: Seq<OpenAction>,
    flags: Seq<FlagAction>,
    atlas: Seq<u8>,
    aw: int,
) -> Seq<u8> {
    let xs = md.x_size as int;
    let ys = md.y_size as int;
    let ff = fold_flags(start_grid(md, ms), full_marks(md), flags, flags.len() as int);
    let so = fold_opens(ff.0, ff.1, 0, opens, opens.len() as int);
    png_encoding_of(
        32 * xs,
        32 * ys + 4,
        flat_of(
            painted_canvas_atlas(
                zero_canvas(xs, ys),
                so.0,
                so.1,
                atlas,
                aw,
                done_percentage(so.2, xs * ys, ms.len() as int),
                xs,
                ys,
            ),
            32 * xs,
            32 * ys + 4,
        ),
    )
}

/// The animated image of one replay as bytes: the all-closed initial
/// frame held one second, then one frame per tick of the timeline.
pub open spec fn animated_bytes(
    md: Metadata,
    ms: Seq<(i32, i32)>,
    opens: Seq<OpenAction>,
    flags: Seq<FlagAction>,
    atlas: Seq<u8>,
    aw: int,
    ticks: Seq<Tick>,
) -> Seq<u8> {
    let xs = md.x_size as int;
    let ys = md.y_size as int;
    let cv1 = painted_canvas_atlas(
        zero_canvas(xs, ys),
        start_grid(md, ms),
        full_marks(md),
        atlas,
        aw,
        0,
        xs,
        ys,
    );
    gif_bytes_of(
        32 * xs,
        32 * ys + 4,
        seq![(flat_of(cv1, 32 * xs, 32 * ys + 4), 100u16)] + gif_fold_atlas(
            start_grid(md, ms),
            cleared_marks(xs, ys),
            cv1,
            0,
            ticks,
            opens,
            flags,
            atlas,
            aw,
            xs,
            ys,
            md.timeunits as int,
            ticks.len() as int,
        ).4,
    )
}

/// What the pipeline owes once the version tag is accepted and the
/// fields are cut: each parse error propagated exactly, out-of-board
/// events and bad atlases refused, and on the good path the exact
/// still or animated bytes of the replay.
pub open spec fn pipeline_post(
    r: Result<Option<Vec<u8>>, MinesweeperError>,
    fs: Seq<Seq<u8>>,
    gif: bool,
    skin_full: Seq<u8>,
    skin_gif: Seq<u8>,
) -> bool {
    &&& (fs.len() < 4 ==> r == Err::<Option<Vec<u8>>, _>(MinesweeperError::MalformedField))
    &&& (fs.len() >= 4 ==> match spec_parse_meta(fs[0]) {
        Err(e) => r == Err::<Option<Vec<u8>>, _>(e),
        Ok(md) => match spec_parse_mines(fs[1]) {
            Err(e) => r == Err::<Option<Vec<u8>>, _>(e),
            Ok(ms) => {
                &&& (!mines_ok(md, ms) ==> r == Err::<Option<Vec<u8>>, _>(
                    MinesweeperError::MalformedField,
                ))
                &&& (mines_ok(md, ms) ==> match spec_parse_opens(fs[2]) {
                    Err(e) => r == Err::<Option<Vec<u8>>, _>(e),
                    Ok(opens) => match spec_parse_flags(fs[3]) {
                        Err(e) => r == Err::<Option<Vec<u8>>, _>(e),
                        Ok(flags) => ({
                            let eff = gif && md.x_size <= 32 && md.y_size <= 32;
                            let atlas = if eff {
                                skin_gif
                            } else {
                                skin_full
                            };
                            &&& (!(opens_in_bounds(opens, md) && flags_in_bounds(flags, md)) ==> r
                                == Err::<Option<Vec<u8>>, _>(MinesweeperError::MalformedField))
                            &&& (opens_in_bounds(opens, md) && flags_in_bounds(flags, md)
                                && !atlas_ok(atlas) ==> r == Err::<Option<Vec<u8>>, _>(
                                MinesweeperError::ImageRender,
                            ))
                            &&& (opens_in_bounds(opens, md) && flags_in_bounds(flags, md)
                                && atlas_ok(atlas) ==> (r matches Ok(ov) && ov matches Some(v) && (
                            rgba_of(atlas) matches Some(t) && (if eff {
                                exists|ticks: Seq<Tick>|
                                    #[trigger] ticks_for(ticks, opens, flags) && v@
                                        == animated_bytes(md, ms, opens, flags, t.2, t.0, ticks)
                            } else {
                                v@ == still_bytes(md, ms, opens, flags, t.2, t.0)
                            }))))
                        }),
                    },
                })
            },
        },
    })
}

/// The animated bytes do not depend on which timeline witness is
/// chosen: any two timelines of the same event lists are equal, so the
/// whole pipeline is a function of the input string, the requested
/// mode and the atlases alone.
pub proof fn lemma_animated_bytes_unique(
    md: Metadata,
    ms: Seq<(i32, i32)>,
    opens: Seq<OpenAction>,
    flags: Seq<FlagAction>,
    atlas: Seq<u8>,
    aw: int,
    t1: Seq<Tick>,
    t2: Seq<Tick>,
)
    requires
        ticks_for(t1, opens, flags),
        ticks_for(t2, opens, flags),
    ensures
        animated_bytes(md, ms, opens, flags, atlas, aw, t1) == animated_bytes(
            md,
            ms,
            opens,
            flags,
            atlas,
            aw,
            t2,
        ),
{
    crate::minesweeper::renderer::lemma_ticks_unique(t1, t2);
    assert(t1 == t2);
}

/// Renders one fetched replay: parse the encoded string, then produce
/// either the still image or, when requested and the board is at most
/// 32 cells wide and tall, the animated image. A reply without game
/// data yields no image; a version tag no parser declares is refused,
/// and parse or render failures propagate as their own errors.
#[verifier::rlimit(100)]
#[verifier::spinoff_prover]
pub fn get_image_data(api_data: &ApiData, gif: bool, skin_full: &[u8], skin_gif: &[u8]) -> (r:
    Result<Option<Vec<u8>>, MinesweeperError>)
    ensures
        api_data.game_data is None ==> r == Ok::<Option<Vec<u8>>, MinesweeperError>(
            None::<Vec<u8>>,
        ),
        r matches Ok(v) && v is Some ==> api_data.game_data is Some,
        api_data.game_data matches Some(gd) ==> ({
            let b = vstd::utf8::encode_utf8(gd@);
            &&& (find_byte(b, 61) < 0 ==> r == Err::<Option<Vec<u8>>, _>(
                MinesweeperError::MalformedField,
            ))
            &&& (find_byte(b, 61) >= 0 && replay_version(b) != seq![49u8] ==> r == Err::<
                Option<Vec<u8>>,
                _,
            >(MinesweeperError::UnsupportedVersion))
            &&& (find_byte(b, 61) >= 0 && replay_version(b) == seq![49u8]
                ==> pipeline_post(r, replay_fields(b), gif, skin_full@, skin_gif@))
        }),
{
    let game_data: &String = match &api_data.game_data {
        Some(g) => g,
        None => {
            return Ok(None);
        },
    };
    let s: &str = game_data.as_str();
    let ghost b = s.spec_bytes();
    proof {
        assert(b == vstd::utf8::encode_utf8(game_data@));
    }
    let bytes = s.as_bytes();
    let eq_pos = match find_in(bytes, 61) {
        Some(i) => i,
        None => {
            return Err(MinesweeperError::MalformedField);
        },
    };
    let (version, rest_eq) = split_ascii(s, eq_pos);
    proof {
        assert(rest_eq.spec_bytes().len() >= 1);
        assert(rest_eq.spec_bytes()[0] == 61);
    }
    let rest = drop_one_ascii(rest_eq);
    let ghost payload = rest.spec_bytes();
    let ghost fs = replay_fields(b);
    proof {
        assert(payload =~= b.subrange(find_byte(b, 61) + 1, b.len() as int));
        assert(fs == spec_split(payload, 43));
        assert(version.spec_bytes() == replay_version(b));
    }
    // dispatch on the version tag: the v1 parser accepts exactly "1",
    // the sole entry of its supported-version set
    let parser = ParserV1;
    let vb = version.as_bytes();
    let supported = vb.len() == 1 && vb[0] == 49;
    if !supported {
        proof {
            if replay_version(b) == seq![49u8] {
                assert(version.spec_bytes()[0] == 49);
            }
        }
        return Err(MinesweeperError::UnsupportedVersion);
    }
    proof {
        assert(replay_version(b) =~= seq![49u8]);
    }
    // the four '+'-separated fields; text past a fourth separator is
    // ignored, and a missing separator is malformed
    let rb = rest.as_bytes();
    let i0 = match find_in(rb, 43) {
        Some(i) => i,
        None => {
            proof {
                lemma_split_head(payload, 43);
                assert(fs.len() == 1);
            }
            return Err(MinesweeperError::MalformedField);
        },
    };
    let (f0, r0e) = split_ascii(rest, i0);
    let r0 = drop_one_ascii(r0e);
    proof {
        lemma_split_head(payload, 43);
        assert(r0.spec_bytes() =~= payload.subrange(i0 + 1, payload.len() as int));
        assert(fs =~~= seq![payload.subrange(0, i0 as int)] + spec_split(r0.spec_bytes(), 43));
        lemma_split_nonempty(r0.spec_bytes(), 43);
    }
    let r0b = r0.as_bytes();
    let i1 = match find_in(r0b, 43) {
        Some(i) => i,
        None => {
            proof {
                lemma_split_head(r0.spec_bytes(), 43);
                assert(fs.len() == 2);
            }
            return Err(MinesweeperError::MalformedField);
        },
    };
    let (f1, r1e) = split_ascii(r0, i1);
    let r1 = drop_one_ascii(r1e);
    proof {
        lemma_split_head(r0.spec_bytes(), 43);
        assert(r1.spec_bytes() =~= r0.spec_bytes().subrange(i1 + 1, r0.spec_bytes().len() as int));
        assert(spec_split(r0.spec_bytes(), 43) =~~= seq![
            r0.spec_bytes().subrange(0, i1 as int),
        ] + spec_split(r1.spec_bytes(), 43));
        lemma_split_nonempty(r1.spec_bytes(), 43);
    }
    let r1b = r1.as_bytes();
    let i2 = match find_in(r1b, 43) {
        Some(i) => i,
        None => {
            proof {
                lemma_split_head(r1.spec_bytes(), 43);
                assert(fs.len() == 3);
            }
            return Err(MinesweeperError::MalformedField);
        },
    };
    let (f2, r2e) = split_ascii(r1, i2);
    let r2 = drop_one_ascii(r2e);
    proof {
        lemma_split_head(r1.spec_bytes(), 43);
        assert(r2.spec_bytes() =~= r1.spec_bytes().subrange(i2 + 1, r1.spec_bytes().len() as int));
        assert(spec_split(r1.spec_bytes(), 43) =~~= seq![
            r1.spec_bytes().subrange(0, i2 as int),
        ] + spec_split(r2.spec_bytes(), 43));
        lemma_split_nonempty(r2.spec_bytes(), 43);
    }
    let r2b = r2.as_bytes();
    let f3 = match find_in(r2b, 43) {
        Some(i) => split_ascii(r2, i).0,
        None => r2,
    };
    proof {
        lemma_split_head(r2.spec_bytes(), 43);
        assert(f3.spec_bytes() == spec_split(r2.spec_bytes(), 43)[0]);
        assert(fs.len() >= 4);
        assert(fs[0] == f0.spec_bytes());
        assert(fs[1] == f1.spec_bytes());
        assert(fs[2] == f2.spec_bytes());
        assert(fs[3] == f3.spec_bytes());
    }
    let metadata = match parser.parse_meta_data(f0) {
        Ok(m) => m,
        Err(e) => {
            return Err(e);
        },
    };
    let game_board = match parser.parse_mine_data(f1, &metadata) {
        Ok(b2) => b2,
        Err(e) => {
            return Err(e);
        },
    };
    let ghost ms = spec_parse_mines(f1.spec_bytes())->Ok_0;
    let open_data = match parser.parse_open_data(f2) {
        Ok(o) => o,
        Err(e) => {
            return Err(e);
        },
    };
    let flag_data = match parser.parse_flag_data(f3) {
        Ok(f) => f,
        Err(e) => {
            return Err(e);
        },
    };
    // caller policy: a board wider or taller than 32 cells is always
    // rendered as a still image
    let effective_gif = gif && metadata.x_size <= 32 && metadata.y_size <= 32;
    let sprite = load_textures(&effective_gif, skin_full, skin_gif);
    let ghost opens = open_data@;
    let ghost flags = flag_data@;
    let ghost atlas = if effective_gif { skin_gif@ } else { skin_full@ };
    proof {
        assert(sprite@ == atlas);
    }
    let mut renderer = match Renderer::new(
        metadata,
        game_board,
        open_data,
        flag_data,
        sprite.as_slice(),
    ) {
        Ok(rr) => rr,
        Err(e) => {
            return Err(e);
        },
    };
    let ghost tt = choose|tt: (int, int, Seq<u8>)| rgba_of(atlas) == Some(tt);
    let ghost rsnap = renderer;
    let ghost xs = metadata.x_size as int;
    let ghost ys = metadata.y_size as int;
    let data = if effective_gif {
        match renderer.render_gif() {
            Ok(d) => {
                proof {
                    let tks = choose|tks: Seq<Tick>|
                        #[trigger] render_gif_output(
                            rsnap,
                            renderer.game_board.grid(),
                            renderer.game_board.open_fields as int,
                            d@,
                            tks,
                        );
                    let cv1 = crate::minesweeper::renderer::painted_canvas(
                        rsnap.canvas_view(),
                        rsnap.game_board.grid(),
                        rsnap.game_board.marks(),
                        rsnap.image_data,
                        0,
                        xs,
                        ys,
                    );
                    lemma_painted_atlas(
                        rsnap.canvas_view(),
                        rsnap.game_board.grid(),
                        rsnap.game_board.marks(),
                        rsnap.image_data,
                        tt.2,
                        tt.0,
                        0,
                        xs,
                        ys,
                    );
                    lemma_gif_fold_atlas(
                        rsnap.game_board.grid(),
                        cleared_marks(xs, ys),
                        cv1,
                        rsnap.game_board.open_fields as int,
                        tks,
                        rsnap.opens(),
                        rsnap.flags(),
                        rsnap.image_data,
                        tt.2,
                        tt.0,
                        xs,
                        ys,
                        rsnap.metadata.timeunits as int,
                        tks.len() as int,
                    );
                    assert(ticks_for(tks, opens, flags) && d@ == animated_bytes(
                        metadata,
                        ms,
                        opens,
                        flags,
                        tt.2,
                        tt.0,
                        tks,
                    ));
                }
                d
            },
            Err(e) => {
                return Err(e);
            },
        }
    } else {
        match renderer.render_jpeg() {
            Ok(d) => {
                proof {
                    let ff = fold_flags(start_grid(metadata, ms), full_marks(metadata), flags, flags.len() as int);
                    let so = fold_opens(ff.0, ff.1, 0, opens, opens.len() as int);
                    lemma_painted_atlas(
                        zero_canvas(xs, ys),
                        so.0,
                        so.1,
                        rsnap.image_data,
                        tt.2,
                        tt.0,
                        done_percentage(so.2, xs * ys, ms.len() as int),
                        xs,
                        ys,
                    );
                    assert(d@ == still_bytes(metadata, ms, opens, flags, tt.2, tt.0));
                }
                d
            },
            Err(e) => {
                return Err(e);
            },
        }
    };
    Ok(Some(data))
}

} // verus!