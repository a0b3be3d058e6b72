use vstd::prelude::*;
use vstd::string::StringSliceAdditionalSpecFns;

use crate::minesweeper::error::MinesweeperError;
use crate::minesweeper::minesweeper_logic;
use crate::minesweeper::minesweeper_logic::{Board, Field, FieldState, reachable, sat_add_u32, grid_open_count, open_transform};
use crate::minesweeper::parsers::parser::{ActionType, FlagAction, Metadata, OpenAction};

verus! {

/// One RGBA pixel of the canvas.
#[derive(Clone, Copy, Debug, PartialEq, Eq, Structural)]
pub struct Pixel {
    pub r: u8,
    pub g: u8,
    pub b: u8,
    pub a: u8,
}

/// The two fixed colours of the progress strip.
pub open spec fn progress_color() -> Pixel {
    Pixel { r: 103, g: 149, b: 60, a: 255 }
}

pub open spec fn strip_background() -> Pixel {
    Pixel { r: 0, g: 0, b: 0, a: 255 }
}

pub open spec fn pix_dims_ok(g: Seq<Seq<Pixel>>, w: int, h: int) -> bool {
    g.len() == h && (forall|y: int| 0 <= y < h ==> (#[trigger] g[y]).len() == w)
}

/// The pixel rows of a canvas or glyph.
pub open spec fn pgrid(v: Seq<Vec<Pixel>>) -> Seq<Seq<Pixel>> {
    v.map_values(|r: Vec<Pixel>| r@)
}

/// What the sprite decoder returns for given bytes: the width, height
/// and RGBA contents of the decoded image, or nothing when the bytes
/// are not a decodable image. The result depends on the bytes alone.
pub uninterp spec fn rgba_of(data: Seq<u8>) -> Option<(int, int, Seq<u8>)>;

/// Relies on image::load_from_memory and ImageBuffer::into_raw: a
/// decoded w x h image yields exactly 4*w*h RGBA bytes, and decoding
/// depends on the input bytes alone.
#[verifier::external_body]
fn decode_sprite_rgba(data: &[u8]) -> (r: Option<(u32, u32, Vec<u8>)>)
    ensures
        r matches Some(t) ==> rgba_of(data@) == Some((t.0 as int, t.1 as int, t.2@)) && t.2@.len()
            == 4 * (t.0 as int) * (t.1 as int),
        r is None ==> rgba_of(data@) is None,
{
    match image::load_from_memory(data) {
        Ok(img) => {
            let rgba = img.to_rgba8();
            let (w, h) = rgba.dimensions();
            Some((w, h, rgba.into_raw()))
        },
        Err(_) => None,
    }
}

/// What the still-image encoder produces for a w x h RGBA raster. The
/// bytes depend on the dimensions and contents alone.
pub uninterp spec fn png_encoding_of(w: int, h: int, rgba: Seq<u8>) -> Seq<u8>;

/// Relies on image::ImageBuffer::from_raw and DynamicImage::write_to
/// with the lossless PNG format: encoding a full raster into fresh
/// bytes, deterministically in the raster. The call succeeds: the
/// buffer has the exact length `from_raw` accepts, and the PNG writer
/// only fails on I/O, which a Vec-backed cursor never reports.
#[verifier::external_body]
fn encode_png(w: u32, h: u32, rgba: Vec<u8>) -> (r: Result<Vec<u8>, MinesweeperError>)
    requires
        rgba@.len() == 4 * w * h,
        w >= 1,
        h >= 1,
    ensures
        r is Ok,
        r matches Ok(v) ==> v@ == png_encoding_of(w as int, h as int, rgba@),
        r matches Err(e) ==> e == MinesweeperError::ImageRender,
{
    let buf = match image::ImageBuffer::<image::Rgba<u8>, Vec<u8>>::from_raw(w, h, rgba) {
        Some(b) => b,
        None => return Err(MinesweeperError::ImageRender),
    };
    let mut cursor = std::io::Cursor::new(Vec::new());
    match image::DynamicImage::ImageRgba8(buf).write_to(&mut cursor, image::ImageFormat::Png) {
        Ok(()) => Ok(cursor.into_inner()),
        Err(_) => Err(MinesweeperError::ImageRender),
    }
}

/// An in-progress animated-image stream, held opaquely.
#[verifier::external_body]
pub struct GifSink {
    inner: Option<gif::Encoder<std::io::Cursor<Vec<u8>>>>,
}

/// The frames written to the sink so far: each frame's RGBA bytes and
/// its display delay in 10 ms units.
pub uninterp spec fn gif_frames_of(s: &GifSink) -> Seq<(Seq<u8>, u16)>;

/// The screen size the sink was created with.
pub uninterp spec fn gif_dims_of(s: &GifSink) -> (int, int);

/// What the animated encoder produces for a w x h screen, infinite
/// looping, and the given frames (each a full raster with Keep
/// disposal). The bytes depend on these alone.
pub uninterp spec fn gif_bytes_of(w: int, h: int, frames: Seq<(Seq<u8>, u16)>) -> Seq<u8>;

/// Relies on gif::Encoder::new and Encoder::set_repeat: a fresh
/// encoder for a w x h screen with no global palette, set to loop
/// forever, with no frames written yet. Both calls only write header
/// bytes, failing solely on I/O, which a Vec-backed cursor never
/// reports, so the call succeeds.
#[verifier::external_body]
fn gif_sink_new(w: u16, h: u16) -> (r: Result<GifSink, MinesweeperError>)
    ensures
        r is Ok,
        r matches Ok(s) ==> gif_frames_of(&s) == Seq::<(Seq<u8>, u16)>::empty() && gif_dims_of(&s)
            == (w as int, h as int),
        r matches Err(e) ==> e == MinesweeperError::GifEncoding,
{
    let cursor = std::io::Cursor::new(Vec::new());
    let mut enc = match gif::Encoder::new(cursor, w, h, &[]) {
        Ok(e) => e,
        Err(_) => return Err(MinesweeperError::GifEncoding),
    };
    match enc.set_repeat(gif::Repeat::Infinite) {
        Ok(()) => Ok(GifSink { inner: Some(enc) }),
        Err(_) => Err(MinesweeperError::GifEncoding),
    }
}

/// Relies on gif::Frame::from_rgba_speed (which requires exactly
/// 4*w*h bytes and quantizes deterministically) and
/// Encoder::write_frame: appends one full-raster frame with the given
/// delay in 10 ms units and the Keep disposal method. The call
/// succeeds: from_rgba_speed hands write_frame a frame of the screen's
/// own extents with an indexed buffer of exactly w*h bytes and a
/// palette of at most 256 colours, so none of write_frame's format
/// checks fires, and its writes into a Vec-backed cursor never report
/// I/O errors.
#[verifier::external_body]
fn gif_sink_write(s: &mut GifSink, w: u16, h: u16, rgba: &mut Vec<u8>, delay: u16) -> (r: Result<
    (),
    MinesweeperError,
>)
    requires
        gif_dims_of(&*old(s)) == (w as int, h as int),
        old(rgba)@.len() == 4 * w * h,
    ensures
        r is Ok,
        r matches Ok(u) ==> gif_frames_of(&*final(s)) == gif_frames_of(&*old(s)).push(
            (old(rgba)@, delay),
        ) && gif_dims_of(&*final(s)) == gif_dims_of(&*old(s)),
        r matches Err(e) ==> e == MinesweeperError::GifEncoding,
{
    let mut frame = gif::Frame::from_rgba_speed(w, h, rgba.as_mut_slice(), 1);
    frame.delay = delay;
    frame.dispose = gif::DisposalMethod::Keep;
    match s.inner.as_mut() {
        Some(enc) => match enc.write_frame(&frame) {
            Ok(()) => Ok(()),
            Err(_) => Err(MinesweeperError::GifEncoding),
        },
        None => Err(MinesweeperError::GifEncoding),
    }
}

/// Relies on gif::Encoder::into_inner: closing the stream writes the
/// trailer and hands back the accumulated bytes of the animated
/// image. It fails only on I/O, which a Vec-backed cursor never
/// reports, so the call succeeds.
#[verifier::external_body]
fn gif_sink_finish(s: GifSink) -> (r: Result<Vec<u8>, MinesweeperError>)
    ensures
        r is Ok,
        r matches Ok(v) ==> v@ == gif_bytes_of(
            gif_dims_of(&s).0,
            gif_dims_of(&s).1,
            gif_frames_of(&s),
        ),
        r matches Err(e) ==> e == MinesweeperError::GifEncoding,
{
    let enc = match s.inner {
        Some(e) => e,
        None => return Err(MinesweeperError::GifEncoding),
    };
    match enc.into_inner() {
        Ok(cursor) => Ok(cursor.into_inner()),
        Err(_) => Err(MinesweeperError::GifEncoding),
    }
}

/// The pixel of the decoded sprite atlas at column `ax`, row `ay`,
/// when the atlas is `aw` pixels wide with RGBA bytes `atlas`.
pub open spec fn atlas_px(atlas: Seq<u8>, aw: int, ax: int, ay: int) -> Pixel {
    Pixel {
        r: atlas[4 * (ay * aw + ax)],
        g: atlas[4 * (ay * aw + ax) + 1],
        b: atlas[4 * (ay * aw + ax) + 2],
        a: atlas[4 * (ay * aw + ax) + 3],
    }
}

/// Glyph `k` of the atlas: the 32 x 32 tile starting at column 32*k.
pub open spec fn glyph_ok(g: Seq<Seq<Pixel>>, atlas: Seq<u8>, aw: int, k: int) -> bool {
    &&& pix_dims_ok(g, 32, 32)
    &&& forall|dx: int, dy: int|
        0 <= dx < 32 && 0 <= dy < 32 ==> #[trigger] g[dy][dx] == atlas_px(
            atlas,
            aw,
            32 * k + dx,
            dy,
        )
}

/// Copies one 32 x 32 glyph out of the atlas buffer.
fn extract_glyph(buf: &Vec<u8>, aw: u32, ah: u32, k: usize) -> (r: Vec<Vec<Pixel>>)
    requires
        buf@.len() == 4 * aw * ah,
        32 * (k as int) + 32 <= aw,
        32 <= ah,
    ensures
        glyph_ok(pgrid(r@), buf@, aw as int, k as int),
{
    let mut rows: Vec<Vec<Pixel>> = Vec::new();
    for dy in 0..32usize
        invariant
            buf@.len() == 4 * aw * ah,
            32 * (k as int) + 32 <= aw,
            32 <= ah,
            rows@.len() == dy,
            forall|y: int| 0 <= y < dy ==> (#[trigger] rows@[y])@.len() == 32,
            forall|dx: int, y: int|
                0 <= dx < 32 && 0 <= y < dy ==> (#[trigger] rows@[y]@[dx]) == atlas_px(
                    buf@,
                    aw as int,
                    32 * (k as int) + dx,
                    y,
                ),
    {
        let mut row: Vec<Pixel> = Vec::new();
        for dx in 0..32usize
            invariant
                buf@.len() == 4 * aw * ah,
                32 * (k as int) + 32 <= aw,
                32 <= ah,
                dy < 32,
                row@.len() == dx,
                forall|x: int|
                    0 <= x < dx ==> (#[trigger] row@[x]) == atlas_px(
                        buf@,
                        aw as int,
                        32 * (k as int) + x,
                        dy as int,
                    ),
        {
            let blen = buf.len();
            let ax = 32 * k + dx;
            proof {
                assert((dy as int) * (aw as int) + (32 * (k as int) + dx as int) + 1 <= (
                ah as int) * (aw as int)) by (nonlinear_arith)
                    requires
                        0 <= dy < 32,
                        32 <= ah,
                        0 <= dx < 32,
                        32 * (k as int) + 32 <= aw,
                ;
                assert(4 * ((dy as int) * (aw as int) + (32 * (k as int) + dx as int)) + 3 < 4 * (
                aw as int) * (ah as int)) by (nonlinear_arith)
                    requires
                        (dy as int) * (aw as int) + (32 * (k as int) + dx as int) + 1 <= (
                        ah as int) * (aw as int),
                ;
                assert(4 * ((dy as int) * (aw as int) + (ax as int)) + 3 < blen);
            }
            let base = 4 * ((dy * (aw as usize)) + ax);
            row.push(
                Pixel { r: buf[base], g: buf[base + 1], b: buf[base + 2], a: buf[base + 3] },
            );
        }
        rows.push(row);
    }
    rows
}

/// The thirteen glyphs of the sprite atlas, in its fixed layout: the
/// revealed counts 0 to 8, the revealed mine, the closed tile, the
/// flag, and the unsure flag.
pub struct Imagedata {
    pub zero: Vec<Vec<Pixel>>,
    pub one: Vec<Vec<Pixel>>,
    pub two: Vec<Vec<Pixel>>,
    pub three: Vec<Vec<Pixel>>,
    pub four: Vec<Vec<Pixel>>,
    pub five: Vec<Vec<Pixel>>,
    pub six: Vec<Vec<Pixel>>,
    pub seven: Vec<Vec<Pixel>>,
    pub eight: Vec<Vec<Pixel>>,
    pub tnt: Vec<Vec<Pixel>>,
    pub empty: Vec<Vec<Pixel>>,
    pub flag: Vec<Vec<Pixel>>,
    pub unsure_flag: Vec<Vec<Pixel>>,
}

impl Imagedata {
    /// All thirteen glyphs cut from one decoded atlas.
    pub open spec fn from_atlas(&self, atlas: Seq<u8>, aw: int) -> bool {
        &&& glyph_ok(pgrid(self.zero@), atlas, aw, 0)
        &&& glyph_ok(pgrid(self.one@), atlas, aw, 1)
        &&& glyph_ok(pgrid(self.two@), atlas, aw, 2)
        &&& glyph_ok(pgrid(self.three@), atlas, aw, 3)
        &&& glyph_ok(pgrid(self.four@), atlas, aw, 4)
        &&& glyph_ok(pgrid(self.five@), atlas, aw, 5)
        &&& glyph_ok(pgrid(self.six@), atlas, aw, 6)
        &&& glyph_ok(pgrid(self.seven@), atlas, aw, 7)
        &&& glyph_ok(pgrid(self.eight@), atlas, aw, 8)
        &&& glyph_ok(pgrid(self.tnt@), atlas, aw, 9)
        &&& glyph_ok(pgrid(self.empty@), atlas, aw, 10)
        &&& glyph_ok(pgrid(self.flag@), atlas, aw, 11)
        &&& glyph_ok(pgrid(self.unsure_flag@), atlas, aw, 12)
    }

    /// Every glyph is a 32 x 32 tile.
    pub open spec fn wf(&self) -> bool {
        &&& pix_dims_ok(pgrid(self.zero@), 32, 32)
        &&& pix_dims_ok(pgrid(self.one@), 32, 32)
        &&& pix_dims_ok(pgrid(self.two@), 32, 32)
        &&& pix_dims_ok(pgrid(self.three@), 32, 32)
        &&& pix_dims_ok(pgrid(self.four@), 32, 32)
        &&& pix_dims_ok(pgrid(self.five@), 32, 32)
        &&& pix_dims_ok(pgrid(self.six@), 32, 32)
        &&& pix_dims_ok(pgrid(self.seven@), 32, 32)
        &&& pix_dims_ok(pgrid(self.eight@), 32, 32)
        &&& pix_dims_ok(pgrid(self.tnt@), 32, 32)
        &&& pix_dims_ok(pgrid(self.empty@), 32, 32)
        &&& pix_dims_ok(pgrid(self.flag@), 32, 32)
        &&& pix_dims_ok(pgrid(self.unsure_flag@), 32, 32)
    }

    /// Slices the sprite atlas into the thirteen fixed glyphs. Fails
    /// with a render error when the bytes do not decode to an image at
    /// least 13 glyphs wide and one glyph high.
    pub fn new(sprite_data: &[u8]) -> (r: Result<Imagedata, MinesweeperError>)
        ensures
            r matches Err(e) ==> e == MinesweeperError::ImageRender,
            r matches Ok(id) ==> id.wf() && (rgba_of(sprite_data@) matches Some(t) && id.from_atlas(
                t.2,
                t.0,
            )),
            rgba_of(sprite_data@) matches Some(t) && t.0 >= 416 && t.1 >= 32 ==> r is Ok,
            r is Ok ==> (rgba_of(sprite_data@) matches Some(t) && t.0 >= 416 && t.1 >= 32),
    {
        let (aw, ah, buf) = match decode_sprite_rgba(sprite_data) {
            Some(t) => t,
            None => {
                return Err(MinesweeperError::ImageRender);
            },
        };
        if aw < 416 || ah < 32 {
            return Err(MinesweeperError::ImageRender);
        }
        Ok(
            Imagedata {
                zero: extract_glyph(&buf, aw, ah, 0),
                one: extract_glyph(&buf, aw, ah, 1),
                two: extract_glyph(&buf, aw, ah, 2),
                three: extract_glyph(&buf, aw, ah, 3),
                four: extract_glyph(&buf, aw, ah, 4),
                five: extract_glyph(&buf, aw, ah, 5),
                six: extract_glyph(&buf, aw, ah, 6),
                seven: extract_glyph(&buf, aw, ah, 7),
                eight: extract_glyph(&buf, aw, ah, 8),
                tnt: extract_glyph(&buf, aw, ah, 9),
                empty: extract_glyph(&buf, aw, ah, 10),
                flag: extract_glyph(&buf, aw, ah, 11),
                unsure_flag: extract_glyph(&buf, aw, ah, 12),
            },
        )
    }

    /// The glyph that depicts one cell: closed, flagged and unsure
    /// cells show their markers; an open cell shows the mine or its
    /// adjacent-mine count.
    pub open spec fn glyph_for(&self, f: Field) -> Seq<Seq<Pixel>> {
        if f.field_state == FieldState::Closed {
            pgrid(self.empty@)
        } else if f.field_state == FieldState::Flagged {
            pgrid(self.flag@)
        } else if f.field_state == FieldState::UnsureFlagged {
            pgrid(self.unsure_flag@)
        } else if f.mine {
            pgrid(self.tnt@)
        } else if f.value == 0 {
            pgrid(self.zero@)
        } else if f.value == 1 {
            pgrid(self.one@)
        } else if f.value == 2 {
            pgrid(self.two@)
        } else if f.value == 3 {
            pgrid(self.three@)
        } else if f.value == 4 {
            pgrid(self.four@)
        } else if f.value == 5 {
            pgrid(self.five@)
        } else if f.value == 6 {
            pgrid(self.six@)
        } else if f.value == 7 {
            pgrid(self.seven@)
        } else {
            pgrid(self.eight@)
        }
    }
}

/// Flattens a canvas into its RGBA byte stream, row-major.
pub fn flatten_canvas(canvas: &Vec<Vec<Pixel>>, w: usize, h: usize) -> (r: Vec<u8>)
    requires
        pix_dims_ok(pgrid(canvas@), w as int, h as int),
        4 * (w as int) * (h as int) <= usize::MAX,
    ensures
        r@.len() == 4 * (w as int) * (h as int),
        forall|px: int, py: int|
            0 <= px < w && 0 <= py < h ==> #[trigger] pgrid(canvas@)[py][px] == (Pixel {
                r: r@[4 * (py * w + px)],
                g: r@[4 * (py * w + px) + 1],
                b: r@[4 * (py * w + px) + 2],
                a: r@[4 * (py * w + px) + 3],
            }),
{
    let mut out: Vec<u8> = Vec::new();
    let mut py: usize = 0;
    proof {
        assert(4 * (0 as int) * (w as int) == 0) by (nonlinear_arith);
    }
    while py < h
        invariant
            pix_dims_ok(pgrid(canvas@), w as int, h as int),
            4 * (w as int) * (h as int) <= usize::MAX,
            py <= h,
            out@.len() == 4 * (py as int) * (w as int),
            forall|px: int, y: int|
                0 <= px < w && 0 <= y < py ==> #[trigger] pgrid(canvas@)[y][px] == (Pixel {
                    r: out@[4 * (y * w + px)],
                    g: out@[4 * (y * w + px) + 1],
                    b: out@[4 * (y * w + px) + 2],
                    a: out@[4 * (y * w + px) + 3],
                }),
        decreases h - py,
    {
        proof {
            assert(pgrid(canvas@)[py as int] == canvas@[py as int]@);
            assert(4 * ((py as int) + 1) * (w as int) <= 4 * (w as int) * (h as int))
                by (nonlinear_arith)
                requires
                    0 <= py < h,
                    0 <= w,
            ;
            assert(4 * ((py as int) + 1) * (w as int) == 4 * (py as int) * (w as int) + 4 * (
            w as int)) by (nonlinear_arith);
        }
        let row = &canvas[py];
        let mut px: usize = 0;
        while px < w
            invariant
                pix_dims_ok(pgrid(canvas@), w as int, h as int),
                4 * (w as int) * (h as int) <= usize::MAX,
                py < h,
                px <= w,
                row@ == pgrid(canvas@)[py as int],
                4 * (py as int) * (w as int) + 4 * (w as int) <= 4 * (w as int) * (h as int),
                out@.len() == 4 * (py as int) * (w as int) + 4 * (px as int),
                forall|x: int, y: int|
                    0 <= x < w && 0 <= y < py ==> #[trigger] pgrid(canvas@)[y][x] == (Pixel {
                        r: out@[4 * (y * w + x)],
                        g: out@[4 * (y * w + x) + 1],
                        b: out@[4 * (y * w + x) + 2],
                        a: out@[4 * (y * w + x) + 3],
                    }),
                forall|x: int|
                    0 <= x < px ==> #[trigger] pgrid(canvas@)[py as int][x] == (Pixel {
                        r: out@[4 * ((py as int) * w + x)],
                        g: out@[4 * ((py as int) * w + x) + 1],
                        b: out@[4 * ((py as int) * w + x) + 2],
                        a: out@[4 * ((py as int) * w + x) + 3],
                    }),
            decreases w - px,
        {
            let p = row[px];
            proof {
                assert(out@.len() == 4 * ((py as int) * (w as int) + px as int))
                    by (nonlinear_arith)
                    requires
                        out@.len() == 4 * (py as int) * (w as int) + 4 * (px as int),
                ;
            }
            out.push(p.r);
            out.push(p.g);
            out.push(p.b);
            out.push(p.a);
            proof {
                assert forall|x: int, y: int| 0 <= x < w && 0 <= y < py implies #[trigger] pgrid(
                    canvas@,
                )[y][x] == (Pixel {
                    r: out@[4 * (y * w + x)],
                    g: out@[4 * (y * w + x) + 1],
                    b: out@[4 * (y * w + x) + 2],
                    a: out@[4 * (y * w + x) + 3],
                }) by {
                    assert(4 * (y * w + x) + 3 < 4 * (py as int) * (w as int)) by (nonlinear_arith)
                        requires 0 <= x < w && 0 <= y <= py - 1 && 0 <= w;
                }
                assert forall|x: int| 0 <= x < px + 1 implies #[trigger] pgrid(
                    canvas@,
                )[py as int][x] == (Pixel {
                    r: out@[4 * ((py as int) * w + x)],
                    g: out@[4 * ((py as int) * w + x) + 1],
                    b: out@[4 * ((py as int) * w + x) + 2],
                    a: out@[4 * ((py as int) * w + x) + 3],
                }) by {
                    if x == px as int {
                        assert(4 * ((py as int) * (w as int) + x) == 4 * (py as int) * (w as int)
                            + 4 * x) by (nonlinear_arith);
                    } else {
                        assert(4 * ((py as int) * (w as int) + x) + 3 < 4 * (py as int) * (
                        w as int) + 4 * (px as int)) by (nonlinear_arith)
                            requires 0 <= x < px;
                    }
                }
            }
            px = px + 1;
        }
        py = py + 1;
        proof {
            assert(out@.len() == 4 * (py as int) * (w as int));
            assert forall|x: int, y: int| 0 <= x < w && 0 <= y < py implies #[trigger] pgrid(
                canvas@,
            )[y][x] == (Pixel {
                r: out@[4 * (y * w + x)],
                g: out@[4 * (y * w + x) + 1],
                b: out@[4 * (y * w + x) + 2],
                a: out@[4 * (y * w + x) + 3],
            }) by {
                if y == py - 1 {
                    assert(pgrid(canvas@)[py - 1][x] == (Pixel {
                        r: out@[4 * ((py - 1) * w + x)],
                        g: out@[4 * ((py - 1) * w + x) + 1],
                        b: out@[4 * ((py - 1) * w + x) + 2],
                        a: out@[4 * ((py - 1) * w + x) + 3],
                    }));
                }
            }
        }
    }
    proof {
        assert(out@.len() == 4 * (h as int) * (w as int));
        assert(4 * (h as int) * (w as int) == 4 * (w as int) * (h as int)) by (nonlinear_arith);
    }
    out
}

/// Replaces the 32 x 32 tile of the canvas whose top-left corner is
/// (x0, y0) by the given glyph, leaving every other pixel unchanged.
fn blit(canvas: &mut Vec<Vec<Pixel>>, glyph: &Vec<Vec<Pixel>>, x0: usize, y0: usize)
    requires
        pix_dims_ok(pgrid(glyph@), 32, 32),
        y0 + 32 <= old(canvas)@.len(),
        forall|y: int|
            0 <= y < old(canvas)@.len() ==> x0 + 32 <= (#[trigger] old(canvas)@[y])@.len(),
    ensures
        final(canvas)@.len() == old(canvas)@.len(),
        forall|y: int|
            0 <= y < old(canvas)@.len() ==> (#[trigger] final(canvas)@[y])@.len()
                == old(canvas)@[y]@.len(),
        forall|dx: int, dy: int|
            0 <= dx < 32 && 0 <= dy < 32 ==> #[trigger] pgrid(final(canvas)@)[y0 + dy][x0 + dx]
                == pgrid(glyph@)[dy][dx],
        forall|px: int, py: int|
            0 <= py < old(canvas)@.len() && 0 <= px < old(canvas)@[py]@.len() && !(x0 <= px < x0
                + 32 && y0 <= py < y0 + 32) ==> #[trigger] pgrid(final(canvas)@)[py][px] == pgrid(
                old(canvas)@,
            )[py][px],
{
    let ch = canvas.len();
    let mut dy: usize = 0;
    while dy < 32
        invariant
            pix_dims_ok(pgrid(glyph@), 32, 32),
            ch == canvas@.len(),
            y0 + 32 <= ch,
            dy <= 32,
            canvas@.len() == old(canvas)@.len(),
            forall|y: int|
                0 <= y < old(canvas)@.len() ==> (#[trigger] canvas@[y])@.len()
                    == old(canvas)@[y]@.len() && x0 + 32 <= canvas@[y]@.len(),
            forall|y: int|
                0 <= y < old(canvas)@.len() && !(y0 <= y < y0 + dy) ==> (#[trigger] canvas@[y])@
                    == old(canvas)@[y]@,
            forall|x: int, y: int|
                0 <= x < 32 && 0 <= y < dy ==> #[trigger] pgrid(canvas@)[y0 + y][x0 + x] == pgrid(
                    glyph@,
                )[y][x],
            forall|x: int, y: int|
                0 <= y < dy && 0 <= x < old(canvas)@[y0 + y]@.len() && !(x0 <= x < x0 + 32)
                    ==> #[trigger] pgrid(canvas@)[y0 + y][x] == pgrid(old(canvas)@)[y0 + y][x],
        decreases 32 - dy,
    {
        let grow = &glyph[dy];
        let cw = canvas[y0 + dy].len();
        let mut nr: Vec<Pixel> = Vec::new();
        let mut px: usize = 0;
        while px < cw
            invariant
                pix_dims_ok(pgrid(glyph@), 32, 32),
                dy < 32,
                ch == canvas@.len(),
                y0 + 32 <= ch,
                cw == canvas@[y0 + dy as int]@.len(),
                x0 + 32 <= cw,
                px <= cw,
                grow@ == pgrid(glyph@)[dy as int],
                nr@.len() == px,
                forall|j: int|
                    0 <= j < px ==> #[trigger] nr@[j] == (if x0 <= j < x0 + 32 {
                        pgrid(glyph@)[dy as int][j - x0]
                    } else {
                        canvas@[y0 + dy as int]@[j]
                    }),
            decreases cw - px,
        {
            if x0 <= px && px < x0 + 32 {
                nr.push(grow[px - x0]);
            } else {
                let q = canvas[y0 + dy][px];
                proof {
                    assert(q == canvas@[y0 + dy as int]@[px as int]);
                }
                nr.push(q);
            }
            px = px + 1;
        }
        let ghost cpre = canvas@;
        let ghost nrv = nr@;
        canvas[y0 + dy] = nr;
        dy = dy + 1;
        proof {
            let ry = y0 + (dy - 1);
            assert(canvas@[ry]@ == nrv);
            assert(nrv.len() == cw);
            assert(forall|y: int| 0 <= y < canvas@.len() && y != ry ==> canvas@[y] == cpre[y]);
            assert(cpre[ry]@ == old(canvas)@[ry]@);
            assert forall|x: int, y: int| 0 <= x < 32 && 0 <= y < dy implies #[trigger] pgrid(
                canvas@,
            )[y0 + y][x0 + x] == pgrid(glyph@)[y][x] by {
                if y == dy - 1 {
                    assert(pgrid(canvas@)[ry] == canvas@[ry]@);
                    assert(nrv[x0 + x] == pgrid(glyph@)[dy - 1][x0 + x - x0]);
                } else {
                    assert(pgrid(cpre)[y0 + y][x0 + x] == pgrid(glyph@)[y][x]);
                    assert(pgrid(canvas@)[y0 + y] == canvas@[y0 + y]@);
                    assert(pgrid(cpre)[y0 + y] == cpre[y0 + y]@);
                    assert(canvas@[y0 + y] == cpre[y0 + y]);
                }
            }
            assert forall|x: int, y: int|
                0 <= y < dy && 0 <= x < old(canvas)@[y0 + y]@.len() && !(x0 <= x < x0
                    + 32) implies #[trigger] pgrid(canvas@)[y0 + y][x] == pgrid(
                old(canvas)@,
            )[y0 + y][x] by {
                if y == dy - 1 {
                    assert(pgrid(canvas@)[ry] == canvas@[ry]@);
                    assert(nrv[x] == cpre[ry]@[x]);
                    assert(pgrid(old(canvas)@)[ry] == old(canvas)@[ry]@);
                } else {
                    assert(pgrid(cpre)[y0 + y][x] == pgrid(old(canvas)@)[y0 + y][x]);
                    assert(pgrid(canvas@)[y0 + y] == canvas@[y0 + y]@);
                    assert(pgrid(cpre)[y0 + y] == cpre[y0 + y]@);
                    assert(canvas@[y0 + y] == cpre[y0 + y]);
                }
            }
        }
    }
    proof {
        assert forall|px: int, py: int|
            0 <= py < old(canvas)@.len() && 0 <= px < old(canvas)@[py]@.len() && !(x0 <= px < x0
                + 32 && y0 <= py < y0 + 32) implies #[trigger] pgrid(canvas@)[py][px] == pgrid(
            old(canvas)@,
        )[py][px] by {
            if y0 <= py < y0 + 32 {
                let y = py - y0;
                assert(pgrid(canvas@)[y0 + y][px] == pgrid(old(canvas)@)[y0 + y][px]);
            } else {
                assert(canvas@[py]@ == old(canvas)@[py]@);
                assert(pgrid(canvas@)[py] == canvas@[py]@);
                assert(pgrid(old(canvas)@)[py] == old(canvas)@[py]@);
            }
        }
    }
}

/// The pixel colour of the progress strip at column `px`: columns
/// strictly left of pct * width / 100 get the progress colour, the
/// rest the strip background.
pub open spec fn strip_px(pct: int, w: int, px: int) -> Pixel {
    if px < pct * w / 100 {
        progress_color()
    } else {
        strip_background()
    }
}

/// Every event of the list lies on the board.
pub open spec fn opens_in_bounds(opens: Seq<OpenAction>, m: Metadata) -> bool {
    forall|k: int|
        0 <= k < opens.len() ==> 0 <= (#[trigger] opens[k]).x < m.x_size && 0 <= opens[k].y
            < m.y_size && 0 <= opens[k].total_time
}

pub open spec fn flags_in_bounds(flags: Seq<FlagAction>, m: Metadata) -> bool {
    forall|k: int|
        0 <= k < flags.len() ==> 0 <= (#[trigger] flags[k]).x < m.x_size && 0 <= flags[k].y
            < m.y_size && 0 <= flags[k].total_time
}

/// Renders one replay: the board, the two event lists, the sprite
/// glyphs and one persistent canvas reused for every frame.
pub struct Renderer {
    pub metadata: Metadata,
    pub game_board: Board,
    pub open_data: Vec<OpenAction>,
    pub flag_data: Vec<FlagAction>,
    pub image_data: Imagedata,
    pub canvas: Vec<Vec<Pixel>>,
}

impl Renderer {
    /// Canvas width in pixels: one glyph per board column.
    pub open spec fn img_w(&self) -> int {
        32 * self.metadata.x_size
    }

    /// Canvas height in pixels: one glyph per board row plus the
    /// fixed-height progress strip.
    pub open spec fn img_h(&self) -> int {
        32 * self.metadata.y_size + 4
    }

    pub open spec fn board(&self) -> Board {
        self.game_board
    }

    pub open spec fn opens(&self) -> Seq<OpenAction> {
        self.open_data@
    }

    pub open spec fn flags(&self) -> Seq<FlagAction> {
        self.flag_data@
    }

    pub open spec fn glyphs(&self) -> Imagedata {
        self.image_data
    }

    pub open spec fn canvas_view(&self) -> Seq<Seq<Pixel>> {
        pgrid(self.canvas@)
    }

    pub open spec fn wf(&self) -> bool {
        &&& self.metadata.wf()
        &&& self.game_board.wf()
        &&& self.game_board.metadata == self.metadata
        &&& opens_in_bounds(self.open_data@, self.metadata)
        &&& flags_in_bounds(self.flag_data@, self.metadata)
        &&& self.image_data.wf()
        &&& pix_dims_ok(pgrid(self.canvas@), self.img_w(), self.img_h())
    }

    /// Builds a renderer for one replay: the board and events from the
    /// parser, and the sprite atlas bytes. Fails with a malformed-field
    /// error when an event lies off the board, and with a render error
    /// when the atlas bytes do not decode to a wide-enough image.
    pub fn new(
        metadata: Metadata,
        game_board: Board,
        open_data: Vec<OpenAction>,
        flag_data: Vec<FlagAction>,
        sprite_data: &[u8],
    ) -> (r: Result<Renderer, MinesweeperError>)
        requires
            metadata.wf(),
            game_board.wf(),
            game_board.metadata == metadata,
        ensures
            !(opens_in_bounds(open_data@, metadata) && flags_in_bounds(flag_data@, metadata)) ==> r
                == Err::<Renderer, _>(MinesweeperError::MalformedField),
            opens_in_bounds(open_data@, metadata) && flags_in_bounds(flag_data@, metadata) && (
            rgba_of(sprite_data@) matches Some(t) && t.0 >= 416 && t.1 >= 32) ==> r is Ok,
            r matches Err(e) ==> e == MinesweeperError::MalformedField || e
                == MinesweeperError::ImageRender,
            r matches Ok(rr) ==> {
                &&& rr.wf()
                &&& rr.metadata == metadata
                &&& rr.board() == game_board
                &&& rr.opens() == open_data@
                &&& rr.flags() == flag_data@
                &&& (rgba_of(sprite_data@) matches Some(t) && rr.glyphs().from_atlas(t.2, t.0))
                &&& rr.canvas_view() == zero_canvas(
                    metadata.x_size as int,
                    metadata.y_size as int,
                )
            },
            opens_in_bounds(open_data@, metadata) && flags_in_bounds(flag_data@, metadata) && !(
            rgba_of(sprite_data@) matches Some(t) && t.0 >= 416 && t.1 >= 32) ==> r == Err::<
                Renderer,
                _,
            >(MinesweeperError::ImageRender),
    {
        let w = metadata.x_size as usize;
        let h = metadata.y_size as usize;
        let n_open = open_data.len();
        for k in 0..n_open
            invariant
                n_open == open_data@.len(),
                w == metadata.x_size as usize,
                h == metadata.y_size as usize,
                forall|j: int|
                    0 <= j < k ==> 0 <= (#[trigger] open_data@[j]).x < metadata.x_size && 0
                        <= open_data@[j].y < metadata.y_size && 0 <= open_data@[j].total_time,
        {
            let a = open_data[k];
            if a.x < 0 || a.x >= metadata.x_size || a.y < 0 || a.y >= metadata.y_size
                || a.total_time < 0 {
                return Err(MinesweeperError::MalformedField);
            }
        }
        let n_flag = flag_data.len();
        for k in 0..n_flag
            invariant
                n_flag == flag_data@.len(),
                w == metadata.x_size as usize,
                h == metadata.y_size as usize,
                opens_in_bounds(open_data@, metadata),
                forall|j: int|
                    0 <= j < k ==> 0 <= (#[trigger] flag_data@[j]).x < metadata.x_size && 0
                        <= flag_data@[j].y < metadata.y_size && 0 <= flag_data@[j].total_time,
        {
            let a = flag_data[k];
            if a.x < 0 || a.x >= metadata.x_size || a.y < 0 || a.y >= metadata.y_size
                || a.total_time < 0 {
                return Err(MinesweeperError::MalformedField);
            }
        }
        let image_data = match Imagedata::new(sprite_data) {
            Ok(id) => id,
            Err(e) => {
                return Err(e);
            },
        };
        let imgx: usize = 32 * w;
        let imgy: usize = 32 * h + 4;
        let mut canvas: Vec<Vec<Pixel>> = Vec::new();
        for py in 0..imgy
            invariant
                imgx == 32 * w,
                canvas@.len() == py,
                forall|y: int| 0 <= y < py ==> (#[trigger] canvas@[y])@.len() == imgx,
                forall|x: int, y: int|
                    0 <= y < py && 0 <= x < imgx ==> (#[trigger] canvas@[y]@[x]) == (Pixel {
                        r: 0u8,
                        g: 0u8,
                        b: 0u8,
                        a: 0u8,
                    }),
        {
            let mut row: Vec<Pixel> = Vec::new();
            for px in 0..imgx
                invariant
                    row@.len() == px,
                    forall|x: int|
                        0 <= x < px ==> (#[trigger] row@[x]) == (Pixel {
                            r: 0u8,
                            g: 0u8,
                            b: 0u8,
                            a: 0u8,
                        }),
            {
                row.push(Pixel { r: 0, g: 0, b: 0, a: 0 });
            }
            canvas.push(row);
        }
        proof {
            assert forall|py: int| 0 <= py < imgy implies pgrid(canvas@)[py] =~= zero_canvas(
                metadata.x_size as int,
                metadata.y_size as int,
            )[py] by {
                assert(pgrid(canvas@)[py] == canvas@[py]@);
            }
            assert(pgrid(canvas@) =~~= zero_canvas(
                metadata.x_size as int,
                metadata.y_size as int,
            ));
        }
        Ok(Renderer { metadata, game_board, open_data, flag_data, image_data, canvas })
    }
}

/// The canvas after one render pass: the progress strip at the
/// bottom, a fresh glyph over every dirty cell, and every other pixel
/// kept from the previous canvas.
pub open spec fn painted_canvas(
    c0: Seq<Seq<Pixel>>,
    g: Seq<Seq<Field>>,
    m: Seq<Seq<bool>>,
    id: Imagedata,
    pct: int,
    xs: int,
    ys: int,
) -> Seq<Seq<Pixel>> {
    Seq::new(
        (32 * ys + 4) as nat,
        |py: int|
            Seq::new(
                (32 * xs) as nat,
                |px: int|
                    if py >= 32 * ys {
                        strip_px(pct, 32 * xs, px)
                    } else if m[py / 32][px / 32] {
                        id.glyph_for(g[py / 32][px / 32])[py % 32][px % 32]
                    } else {
                        c0[py][px]
                    },
            ),
    )
}

/// A dirty grid with every mark cleared.
pub open spec fn cleared_marks(xs: int, ys: int) -> Seq<Seq<bool>> {
    Seq::new(ys as nat, |y: int| Seq::new(xs as nat, |x: int| false))
}

/// The flattened RGBA byte stream of a canvas, row-major.
pub open spec fn flat_of(c: Seq<Seq<Pixel>>, w: int, h: int) -> Seq<u8> {
    Seq::new(
        (4 * w * h) as nat,
        |i: int|
            {
                let p = c[(i / 4) / w][(i / 4) % w];
                if i % 4 == 0 {
                    p.r
                } else if i % 4 == 1 {
                    p.g
                } else if i % 4 == 2 {
                    p.b
                } else {
                    p.a
                }
            },
    )
}

/// Applying one flag action to the cell grid and the dirty grid.
pub open spec fn flag_apply_grid(g: Seq<Seq<Field>>, f: FlagAction) -> Seq<Seq<Field>> {
    g.update(
        f.y as int,
        g[f.y as int].update(
            f.x as int,
            minesweeper_logic::with_state(g[f.y as int][f.x as int], f.target_state()),
        ),
    )
}

pub open spec fn flag_apply_marks(m: Seq<Seq<bool>>, f: FlagAction) -> Seq<Seq<bool>> {
    m.update(f.y as int, m[f.y as int].update(f.x as int, true))
}

/// The board state after the first n flag actions, applied in order.
pub open spec fn fold_flags(
    g: Seq<Seq<Field>>,
    m: Seq<Seq<bool>>,
    flags: Seq<FlagAction>,
    n: int,
) -> (Seq<Seq<Field>>, Seq<Seq<bool>>)
    decreases n,
{
    if n <= 0 {
        (g, m)
    } else {
        let prev = fold_flags(g, m, flags, n - 1);
        (flag_apply_grid(prev.0, flags[n - 1]), flag_apply_marks(prev.1, flags[n - 1]))
    }
}

/// The board state after the first n flag actions whose cumulative
/// time is exactly t, in order; the others are skipped.
pub open spec fn fold_flags_at(
    g: Seq<Seq<Field>>,
    m: Seq<Seq<bool>>,
    flags: Seq<FlagAction>,
    t: i64,
    n: int,
) -> (Seq<Seq<Field>>, Seq<Seq<bool>>)
    decreases n,
{
    if n <= 0 {
        (g, m)
    } else {
        let prev = fold_flags_at(g, m, flags, t, n - 1);
        if flags[n - 1].total_time == t {
            (flag_apply_grid(prev.0, flags[n - 1]), flag_apply_marks(prev.1, flags[n - 1]))
        } else {
            prev
        }
    }
}

/// The dirty grid after one open: every newly reachable cell marked.
pub open spec fn open_apply_marks(
    g: Seq<Seq<Field>>,
    m: Seq<Seq<bool>>,
    x: int,
    y: int,
) -> Seq<Seq<bool>> {
    Seq::new(
        m.len(),
        |cy: int| Seq::new(m[cy].len(), |cx: int| m[cy][cx] || reachable(g, x, y, cx, cy)),
    )
}

/// The board state and open counter after the first n open events,
/// each one flooding from its coordinate.
pub open spec fn fold_opens(
    g: Seq<Seq<Field>>,
    m: Seq<Seq<bool>>,
    c: int,
    opens: Seq<OpenAction>,
    n: int,
) -> (Seq<Seq<Field>>, Seq<Seq<bool>>, int)
    decreases n,
{
    if n <= 0 {
        (g, m, c)
    } else {
        let prev = fold_opens(g, m, c, opens, n - 1);
        let x = opens[n - 1].x as int;
        let y = opens[n - 1].y as int;
        let g2 = open_transform(prev.0, x, y);
        (
            g2,
            open_apply_marks(prev.0, prev.1, x, y),
            sat_add_u32(prev.2, grid_open_count(g2) - grid_open_count(prev.0)),
        )
    }
}

/// As `fold_opens`, restricted to events at cumulative time t.
pub open spec fn fold_opens_at(
    g: Seq<Seq<Field>>,
    m: Seq<Seq<bool>>,
    c: int,
    opens: Seq<OpenAction>,
    t: i64,
    n: int,
) -> (Seq<Seq<Field>>, Seq<Seq<bool>>, int)
    decreases n,
{
    if n <= 0 {
        (g, m, c)
    } else {
        let prev = fold_opens_at(g, m, c, opens, t, n - 1);
        if opens[n - 1].total_time == t {
            let x = opens[n - 1].x as int;
            let y = opens[n - 1].y as int;
            let g2 = open_transform(prev.0, x, y);
            (
                g2,
                open_apply_marks(prev.0, prev.1, x, y),
                sat_add_u32(prev.2, grid_open_count(g2) - grid_open_count(prev.0)),
            )
        } else {
            prev
        }
    }
}

/// One tick of the merged timeline: a cumulative time and the kinds of
/// events that fall on it.
#[derive(Clone, Copy, Debug, PartialEq, Eq, Structural)]
pub struct Tick {
    pub time: i64,
    pub open: bool,
    pub flag: bool,
}

/// Tick lists are strictly ordered by time, and every tick carries at
/// least one kind.
pub open spec fn ticks_wf(ticks: Seq<Tick>) -> bool {
    &&& forall|k1: int, k2: int|
        0 <= k1 < k2 < ticks.len() ==> #[trigger] ticks[k1].time < #[trigger] ticks[k2].time
    &&& forall|k: int| 0 <= k < ticks.len() ==> (#[trigger] ticks[k]).open || ticks[k].flag
}

pub open spec fn tick_has(ticks: Seq<Tick>, t: i64) -> bool {
    exists|k: int| 0 <= k < ticks.len() && (#[trigger] ticks[k]).time == t
}

pub open spec fn tick_has_open(ticks: Seq<Tick>, t: i64) -> bool {
    exists|k: int| 0 <= k < ticks.len() && (#[trigger] ticks[k]).time == t && ticks[k].open
}

pub open spec fn tick_has_flag(ticks: Seq<Tick>, t: i64) -> bool {
    exists|k: int| 0 <= k < ticks.len() && (#[trigger] ticks[k]).time == t && ticks[k].flag
}

/// Merges one event time into the ordered tick list: an existing tick
/// at that time gains the kind, otherwise a new tick is inserted at
/// its ordered place.
pub fn insert_action(tick_map: &mut Vec<Tick>, total_time: i64, action: ActionType)
    requires
        ticks_wf(old(tick_map)@),
    ensures
        ticks_wf(final(tick_map)@),
        forall|t: i64|
            tick_has(final(tick_map)@, t) <==> (tick_has(old(tick_map)@, t) || t == total_time),
        forall|t: i64|
            tick_has_open(final(tick_map)@, t) <==> (tick_has_open(old(tick_map)@, t) || (action
                == ActionType::Open && t == total_time)),
        forall|t: i64|
            tick_has_flag(final(tick_map)@, t) <==> (tick_has_flag(old(tick_map)@, t) || (action
                == ActionType::Flag && t == total_time)),
{
    let n = tick_map.len();
    let mut i: usize = 0;
    while i < n && tick_map[i].time < total_time
        invariant
            n == tick_map@.len(),
            tick_map@ == old(tick_map)@,
            ticks_wf(tick_map@),
            i <= n,
            forall|k: int| 0 <= k < i ==> (#[trigger] tick_map@[k]).time < total_time,
        decreases n - i,
    {
        i = i + 1;
    }
    if i < n && tick_map[i].time == total_time {
        let cur = tick_map[i];
        let nt = Tick {
            time: cur.time,
            open: cur.open || action == ActionType::Open,
            flag: cur.flag || action == ActionType::Flag,
        };
        tick_map[i] = nt;
        proof {
            assert(tick_map@ =~= old(tick_map)@.update(i as int, nt));
            assert forall|t: i64| #[trigger] tick_has(tick_map@, t) implies (tick_has(
                old(tick_map)@,
                t,
            ) || t == total_time) by {
                let k = choose|k: int| 0 <= k < tick_map@.len() && (#[trigger] tick_map@[k]).time
                    == t;
                assert(old(tick_map)@[k].time == t);
            }
            assert forall|t: i64| tick_has(old(tick_map)@, t) implies #[trigger] tick_has(
                tick_map@,
                t,
            ) by {
                let k = choose|k: int|
                    0 <= k < old(tick_map)@.len() && (#[trigger] old(tick_map)@[k]).time == t;
                assert(tick_map@[k].time == t);
            }
            assert forall|t: i64| #[trigger] tick_has_open(tick_map@, t) implies (tick_has_open(
                old(tick_map)@,
                t,
            ) || (action == ActionType::Open && t == total_time)) by {
                let k = choose|k: int|
                    0 <= k < tick_map@.len() && (#[trigger] tick_map@[k]).time == t
                        && tick_map@[k].open;
                if k != i as int {
                    assert(old(tick_map)@[k].time == t && old(tick_map)@[k].open);
                }
            }
            assert forall|t: i64|
                tick_has_open(old(tick_map)@, t) || (action == ActionType::Open && t
                    == total_time) implies #[trigger] tick_has_open(tick_map@, t) by {
                if tick_has_open(old(tick_map)@, t) {
                    let k = choose|k: int|
                        0 <= k < old(tick_map)@.len() && (#[trigger] old(tick_map)@[k]).time == t
                            && old(tick_map)@[k].open;
                    assert(tick_map@[k].time == t && tick_map@[k].open);
                } else {
                    assert(tick_map@[i as int].time == t && tick_map@[i as int].open);
                }
            }
            assert forall|t: i64| #[trigger] tick_has_flag(tick_map@, t) implies (tick_has_flag(
                old(tick_map)@,
                t,
            ) || (action == ActionType::Flag && t == total_time)) by {
                let k = choose|k: int|
                    0 <= k < tick_map@.len() && (#[trigger] tick_map@[k]).time == t
                        && tick_map@[k].flag;
                if k != i as int {
                    assert(old(tick_map)@[k].time == t && old(tick_map)@[k].flag);
                }
            }
            assert forall|t: i64|
                tick_has_flag(old(tick_map)@, t) || (action == ActionType::Flag && t
                    == total_time) implies #[trigger] tick_has_flag(tick_map@, t) by {
                if tick_has_flag(old(tick_map)@, t) {
                    let k = choose|k: int|
                        0 <= k < old(tick_map)@.len() && (#[trigger] old(tick_map)@[k]).time == t
                            && old(tick_map)@[k].flag;
                    assert(tick_map@[k].time == t && tick_map@[k].flag);
                } else {
                    assert(tick_map@[i as int].time == t && tick_map@[i as int].flag);
                }
            }
        }
    } else {
        let nt = Tick {
            time: total_time,
            open: action == ActionType::Open,
            flag: action == ActionType::Flag,
        };
        tick_map.insert(i, nt);
        proof {
            assert(tick_map@ =~= old(tick_map)@.subrange(0, i as int).push(nt) + old(
                tick_map,
            )@.subrange(i as int, n as int));
            assert(forall|k: int| 0 <= k < i ==> tick_map@[k] == old(tick_map)@[k]);
            assert(forall|k: int|
                i < k < tick_map@.len() ==> tick_map@[k] == old(tick_map)@[k - 1]);
            assert(tick_map@[i as int] == nt);
            assert(forall|k: int|
                i as int <= k < n ==> (#[trigger] old(tick_map)@[k]).time > total_time || old(
                    tick_map,
                )@[k].time == total_time);
            assert(forall|k: int|
                i as int <= k < n ==> (#[trigger] old(tick_map)@[k]).time != total_time);
            assert(ticks_wf(tick_map@)) by {
                assert(forall|k: int|
                    i as int <= k < n ==> (#[trigger] old(tick_map)@[k]).time > total_time);
            }
            assert forall|t: i64| #[trigger] tick_has(tick_map@, t) implies (tick_has(
                old(tick_map)@,
                t,
            ) || t == total_time) by {
                let k = choose|k: int| 0 <= k < tick_map@.len() && (#[trigger] tick_map@[k]).time
                    == t;
                if k < i as int {
                    assert(old(tick_map)@[k].time == t);
                } else if k > i as int {
                    assert(old(tick_map)@[k - 1].time == t);
                }
            }
            assert forall|t: i64| tick_has(old(tick_map)@, t) implies #[trigger] tick_has(
                tick_map@,
                t,
            ) by {
                let k = choose|k: int|
                    0 <= k < old(tick_map)@.len() && (#[trigger] old(tick_map)@[k]).time == t;
                if k < i as int {
                    assert(tick_map@[k].time == t);
                } else {
                    assert(tick_map@[k + 1].time == t);
                }
            }
            assert forall|t: i64| #[trigger] tick_has_open(tick_map@, t) implies (tick_has_open(
                old(tick_map)@,
                t,
            ) || (action == ActionType::Open && t == total_time)) by {
                let k = choose|k: int|
                    0 <= k < tick_map@.len() && (#[trigger] tick_map@[k]).time == t
                        && tick_map@[k].open;
                if k < i as int {
                    assert(old(tick_map)@[k].time == t && old(tick_map)@[k].open);
                } else if k > i as int {
                    assert(old(tick_map)@[k - 1].time == t && old(tick_map)@[k - 1].open);
                }
            }
            assert forall|t: i64|
                tick_has_open(old(tick_map)@, t) || (action == ActionType::Open && t
                    == total_time) implies #[trigger] tick_has_open(tick_map@, t) by {
                if tick_has_open(old(tick_map)@, t) {
                    let k = choose|k: int|
                        0 <= k < old(tick_map)@.len() && (#[trigger] old(tick_map)@[k]).time == t
                            && old(tick_map)@[k].open;
                    if k < i as int {
                        assert(tick_map@[k].time == t && tick_map@[k].open);
                    } else {
                        assert(tick_map@[k + 1].time == t && tick_map@[k + 1].open);
                    }
                } else {
                    assert(tick_map@[i as int].time == t && tick_map@[i as int].open);
                }
            }
            assert forall|t: i64| #[trigger] tick_has_flag(tick_map@, t) implies (tick_has_flag(
                old(tick_map)@,
                t,
            ) || (action == ActionType::Flag && t == total_time)) by {
                let k = choose|k: int|
                    0 <= k < tick_map@.len() && (#[trigger] tick_map@[k]).time == t
                        && tick_map@[k].flag;
                if k < i as int {
                    assert(old(tick_map)@[k].time == t && old(tick_map)@[k].flag);
                } else if k > i as int {
                    assert(old(tick_map)@[k - 1].time == t && old(tick_map)@[k - 1].flag);
                }
            }
            assert forall|t: i64|
                tick_has_flag(old(tick_map)@, t) || (action == ActionType::Flag && t
                    == total_time) implies #[trigger] tick_has_flag(tick_map@, t) by {
                if tick_has_flag(old(tick_map)@, t) {
                    let k = choose|k: int|
                        0 <= k < old(tick_map)@.len() && (#[trigger] old(tick_map)@[k]).time == t
                            && old(tick_map)@[k].flag;
                    if k < i as int {
                        assert(tick_map@[k].time == t && tick_map@[k].flag);
                    } else {
                        assert(tick_map@[k + 1].time == t && tick_map@[k + 1].flag);
                    }
                } else {
                    assert(tick_map@[i as int].time == t && tick_map@[i as int].flag);
                }
            }
        }
    }
}

impl Renderer {
    /// Builds the merged timeline: one strictly ascending tick per
    /// distinct cumulative time, carrying the kinds present at that
    /// time. An open and a flag event at the same time share one tick.
    pub fn create_tick_map(&self) -> (r: Vec<Tick>)
        ensures
            ticks_wf(r@),
            forall|t: i64|
                tick_has_open(r@, t) <==> (exists|k: int|
                    0 <= k < self.opens().len() && (#[trigger] self.opens()[k]).total_time == t),
            forall|t: i64|
                tick_has_flag(r@, t) <==> (exists|k: int|
                    0 <= k < self.flags().len() && (#[trigger] self.flags()[k]).total_time == t),
            forall|t: i64|
                tick_has(r@, t) <==> ((exists|k: int|
                    0 <= k < self.opens().len() && (#[trigger] self.opens()[k]).total_time == t)
                    || (exists|k: int|
                    0 <= k < self.flags().len() && (#[trigger] self.flags()[k]).total_time == t)),
    {
        let mut tick_map: Vec<Tick> = Vec::new();
        let n_open = self.open_data.len();
        for i in 0..n_open
            invariant
                n_open == self.opens().len(),
                ticks_wf(tick_map@),
                forall|t: i64|
                    tick_has(tick_map@, t) <==> (exists|k: int|
                        0 <= k < i && (#[trigger] self.opens()[k]).total_time == t),
                forall|t: i64|
                    tick_has_open(tick_map@, t) <==> (exists|k: int|
                        0 <= k < i && (#[trigger] self.opens()[k]).total_time == t),
                forall|t: i64| !tick_has_flag(tick_map@, t),
        {
            insert_action(&mut tick_map, self.open_data[i].total_time, ActionType::Open);
        }
        let n_flag = self.flag_data.len();
        for i in 0..n_flag
            invariant
                n_flag == self.flags().len(),
                ticks_wf(tick_map@),
                forall|t: i64|
                    tick_has_open(tick_map@, t) <==> (exists|k: int|
                        0 <= k < self.opens().len() && (#[trigger] self.opens()[k]).total_time
                            == t),
                forall|t: i64|
                    tick_has_flag(tick_map@, t) <==> (exists|k: int|
                        0 <= k < i && (#[trigger] self.flags()[k]).total_time == t),
                forall|t: i64|
                    tick_has(tick_map@, t) <==> ((exists|k: int|
                        0 <= k < self.opens().len() && (#[trigger] self.opens()[k]).total_time == t)
                        || (exists|k: int|
                        0 <= k < i && (#[trigger] self.flags()[k]).total_time == t)),
        {
            insert_action(&mut tick_map, self.flag_data[i].total_time, ActionType::Flag);
        }
        tick_map
    }
}

/// A canvas meeting the tile-wise and strip-wise clauses of the render
/// pass is the `painted_canvas` of its inputs.
pub proof fn lemma_painted_bridge(
    c1: Seq<Seq<Pixel>>,
    c0: Seq<Seq<Pixel>>,
    g: Seq<Seq<Field>>,
    m: Seq<Seq<bool>>,
    id: Imagedata,
    pct: int,
    xs: int,
    ys: int,
)
    requires
        xs >= 1,
        ys >= 1,
        pix_dims_ok(c1, 32 * xs, 32 * ys + 4),
        forall|cx: int, cy: int, dx: int, dy: int|
            0 <= cx < xs && 0 <= cy < ys && 0 <= dx < 32 && 0 <= dy < 32 && m[cy][cx]
                ==> #[trigger] c1[32 * cy + dy][32 * cx + dx] == id.glyph_for(g[cy][cx])[dy][dx],
        forall|cx: int, cy: int, dx: int, dy: int|
            0 <= cx < xs && 0 <= cy < ys && 0 <= dx < 32 && 0 <= dy < 32 && !m[cy][cx]
                ==> #[trigger] c1[32 * cy + dy][32 * cx + dx] == c0[32 * cy + dy][32 * cx + dx],
        forall|px: int, py: int|
            0 <= px < 32 * xs && 32 * ys <= py < 32 * ys + 4 ==> #[trigger] c1[py][px] == strip_px(
                pct,
                32 * xs,
                px,
            ),
    ensures
        c1 =~~= painted_canvas(c0, g, m, id, pct, xs, ys),
{
    let pc = painted_canvas(c0, g, m, id, pct, xs, ys);
    assert forall|py: int| 0 <= py < 32 * ys + 4 implies c1[py] =~= pc[py] by {
        assert forall|px: int| 0 <= px < 32 * xs implies c1[py][px] == pc[py][px] by {
            if py < 32 * ys {
                let cy = py / 32;
                let dy = py % 32;
                let cx = px / 32;
                let dx = px % 32;
                assert(py == 32 * cy + dy && 0 <= dy < 32 && 0 <= cy < ys);
                assert(px == 32 * cx + dx && 0 <= dx < 32 && 0 <= cx < xs);
                if m[cy][cx] {
                    assert(c1[32 * cy + dy][32 * cx + dx] == id.glyph_for(g[cy][cx])[dy][dx]);
                } else {
                    assert(c1[32 * cy + dy][32 * cx + dx] == c0[32 * cy + dy][32 * cx + dx]);
                }
            }
        }
    }
}

/// A byte stream meeting the pointwise clauses of `flatten_canvas` is
/// the `flat_of` of the canvas.
pub proof fn lemma_flat_bridge(r: Seq<u8>, c: Seq<Seq<Pixel>>, w: int, h: int)
    requires
        w >= 1,
        h >= 1,
        r.len() == 4 * w * h,
        forall|px: int, py: int|
            0 <= px < w && 0 <= py < h ==> #[trigger] c[py][px] == (Pixel {
                r: r[4 * (py * w + px)],
                g: r[4 * (py * w + px) + 1],
                b: r[4 * (py * w + px) + 2],
                a: r[4 * (py * w + px) + 3],
            }),
    ensures
        r =~= flat_of(c, w, h),
{
    assert forall|i: int| 0 <= i < 4 * w * h implies r[i] == flat_of(c, w, h)[i] by {
        let q = i / 4;
        let ch = i % 4;
        let py = q / w;
        let px = q % w;
        vstd::arithmetic::div_mod::lemma_fundamental_div_mod(q, w);
        vstd::arithmetic::div_mod::lemma_mod_bound(q, w);
        assert(q == w * py + px && 0 <= px < w);
        assert(q < w * h) by (nonlinear_arith)
            requires 0 <= i < 4 * w * h && q == i / 4;
        assert(py < h) by (nonlinear_arith)
            requires q == w * py + px && 0 <= px < w && q < w * h && w >= 1;
        assert(py >= 0) by (nonlinear_arith)
            requires q == w * py + px && 0 <= px < w && q >= 0 && w >= 1;
        assert(i == 4 * (py * w + px) + ch) by (nonlinear_arith)
            requires i / 4 == q && i % 4 == ch && q == w * py + px;
        assert(c[py][px] == (Pixel {
            r: r[4 * (py * w + px)],
            g: r[4 * (py * w + px) + 1],
            b: r[4 * (py * w + px) + 2],
            a: r[4 * (py * w + px) + 3],
        }));
    }
}

impl Renderer {
    /// Renders one frame onto the persistent canvas: a fresh glyph
    /// over every dirty cell, the progress strip across the bottom,
    /// then all dirty marks cleared. Returns the full canvas as its
    /// RGBA byte stream.
    #[verifier::rlimit(100)]
    pub fn generate_image(&mut self, percentage: u32) -> (r: Vec<u8>)
        requires
            old(self).wf(),
        ensures
            final(self).wf(),
            final(self).metadata == old(self).metadata,
            final(self).game_board.fields == old(self).game_board.fields,
            final(self).game_board.metadata == old(self).game_board.metadata,
            final(self).game_board.open_fields == old(self).game_board.open_fields,
            final(self).game_board.mine_count == old(self).game_board.mine_count,
            final(self).game_board.total_fields == old(self).game_board.total_fields,
            final(self).game_board.marks() == cleared_marks(
                old(self).metadata.x_size as int,
                old(self).metadata.y_size as int,
            ),
            final(self).open_data == old(self).open_data,
            final(self).flag_data == old(self).flag_data,
            final(self).image_data == old(self).image_data,
            final(self).canvas_view() == painted_canvas(
                old(self).canvas_view(),
                old(self).game_board.grid(),
                old(self).game_board.marks(),
                old(self).image_data,
                percentage as int,
                old(self).metadata.x_size as int,
                old(self).metadata.y_size as int,
            ),
            r@ == flat_of(final(self).canvas_view(), final(self).img_w(), final(self).img_h()),
    {
        let w = self.metadata.x_size as usize;
        let h = self.metadata.y_size as usize;
        let imgx: usize = 32 * w;
        let imgy: usize = 32 * h + 4;
        let ghost c0 = self.canvas_view();
        let ghost g = self.game_board.grid();
        let ghost m0 = self.game_board.marks();
        let ghost id = self.image_data;
        for cy in 0..h
            invariant
                old(self).wf(),
                w == self.metadata.x_size as usize,
                h == self.metadata.y_size as usize,
                imgx == 32 * w,
                imgy == 32 * h + 4,
                self.metadata == old(self).metadata,
                self.game_board == old(self).game_board,
                self.open_data == old(self).open_data,
                self.flag_data == old(self).flag_data,
                self.image_data == old(self).image_data,
                c0 == old(self).canvas_view(),
                g == old(self).game_board.grid(),
                m0 == old(self).game_board.marks(),
                id == old(self).image_data,
                pix_dims_ok(self.canvas_view(), imgx as int, imgy as int),
                forall|cx2: int, cy2: int, dx: int, dy: int|
                    0 <= cx2 < w && 0 <= cy2 < cy && 0 <= dx < 32 && 0 <= dy < 32 && m0[cy2][cx2]
                        ==> #[trigger] self.canvas_view()[32 * cy2 + dy][32 * cx2 + dx]
                        == id.glyph_for(g[cy2][cx2])[dy][dx],
                forall|cx2: int, cy2: int, dx: int, dy: int|
                    0 <= cx2 < w && 0 <= cy2 < h && 0 <= dx < 32 && 0 <= dy < 32 && (cy2 >= cy
                        || !m0[cy2][cx2]) ==> #[trigger] self.canvas_view()[32 * cy2 + dy][32 * cx2
                        + dx] == c0[32 * cy2 + dy][32 * cx2 + dx],
                forall|px: int, py: int|
                    0 <= px < imgx && 32 * h <= py < imgy ==> #[trigger] self.canvas_view()[py][px]
                        == c0[py][px],
        {
            for cx in 0..w
                invariant
                    old(self).wf(),
                    w == self.metadata.x_size as usize,
                    h == self.metadata.y_size as usize,
                    cy < h,
                    imgx == 32 * w,
                    imgy == 32 * h + 4,
                    self.metadata == old(self).metadata,
                    self.game_board == old(self).game_board,
                    self.open_data == old(self).open_data,
                    self.flag_data == old(self).flag_data,
                    self.image_data == old(self).image_data,
                    c0 == old(self).canvas_view(),
                    g == old(self).game_board.grid(),
                    m0 == old(self).game_board.marks(),
                    id == old(self).image_data,
                    pix_dims_ok(self.canvas_view(), imgx as int, imgy as int),
                    forall|cx2: int, cy2: int, dx: int, dy: int|
                        0 <= cx2 < w && 0 <= cy2 < h && 0 <= dx < 32 && 0 <= dy < 32 && ((cy2 < cy
                            || (cy2 == cy && cx2 < cx)) && m0[cy2][cx2])
                            ==> #[trigger] self.canvas_view()[32 * cy2 + dy][32 * cx2 + dx]
                            == id.glyph_for(g[cy2][cx2])[dy][dx],
                    forall|cx2: int, cy2: int, dx: int, dy: int|
                        0 <= cx2 < w && 0 <= cy2 < h && 0 <= dx < 32 && 0 <= dy < 32 && ((cy2 > cy
                            || (cy2 == cy && cx2 >= cx)) || !m0[cy2][cx2])
                            ==> #[trigger] self.canvas_view()[32 * cy2 + dy][32 * cx2 + dx]
                            == c0[32 * cy2 + dy][32 * cx2 + dx],
                    forall|px: int, py: int|
                        0 <= px < imgx && 32 * h <= py < imgy
                            ==> #[trigger] self.canvas_view()[py][px] == c0[py][px],
            {
                proof {
                    assert(self.game_board.marks().len() == h);
                    assert(self.game_board.marks()[cy as int].len() == w);
                    assert(self.game_board.marks()[cy as int]
                        == self.game_board.changed_fields@[cy as int]@);
                }
                let dirty = self.game_board.changed_fields[cy][cx];
                if dirty {
                    let f = self.game_board.fields[cy][cx];
                    proof {
                        assert(f == g[cy as int][cx as int]);
                        assert(m0[cy as int][cx as int]);
                    }
                    let glyph: &Vec<Vec<Pixel>> = if f.field_state == FieldState::Closed {
                        &self.image_data.empty
                    } else if f.field_state == FieldState::Flagged {
                        &self.image_data.flag
                    } else if f.field_state == FieldState::UnsureFlagged {
                        &self.image_data.unsure_flag
                    } else if f.mine {
                        &self.image_data.tnt
                    } else if f.value == 0 {
                        &self.image_data.zero
                    } else if f.value == 1 {
                        &self.image_data.one
                    } else if f.value == 2 {
                        &self.image_data.two
                    } else if f.value == 3 {
                        &self.image_data.three
                    } else if f.value == 4 {
                        &self.image_data.four
                    } else if f.value == 5 {
                        &self.image_data.five
                    } else if f.value == 6 {
                        &self.image_data.six
                    } else if f.value == 7 {
                        &self.image_data.seven
                    } else {
                        &self.image_data.eight
                    };
                    proof {
                        assert(pgrid(glyph@) == id.glyph_for(f));
                        assert(pix_dims_ok(pgrid(glyph@), 32, 32));
                    }
                    let ghost cvpre = self.canvas_view();
                    proof {
                        assert(self.canvas@.len() == imgy);
                        assert forall|y: int| 0 <= y < self.canvas@.len() implies 32 * (cx as int)
                            + 32 <= (#[trigger] self.canvas@[y])@.len() by {
                            assert(self.canvas_view()[y] == self.canvas@[y]@);
                        }
                    }
                    blit(&mut self.canvas, glyph, 32 * cx, 32 * cy);
                    proof {
                        assert forall|y: int| 0 <= y < imgy implies (#[trigger] self.canvas_view()[
                        y]).len() == imgx by {
                            assert(self.canvas_view()[y] == self.canvas@[y]@);
                            assert(cvpre[y].len() == imgx);
                        }
                        assert(pix_dims_ok(self.canvas_view(), imgx as int, imgy as int));
                        assert forall|cx2: int, cy2: int, dx: int, dy: int|
                            0 <= cx2 < w && 0 <= cy2 < h && 0 <= dx < 32 && 0 <= dy < 32 && !(cx2
                                == cx && cy2 == cy) implies #[trigger] self.canvas_view()[32 * cy2
                            + dy][32 * cx2 + dx] == cvpre[32 * cy2 + dy][32 * cx2 + dx] by {
                            assert(!(32 * (cx as int) <= 32 * cx2 + dx < 32 * (cx as int) + 32 && 32
                                * (cy as int) <= 32 * cy2 + dy < 32 * (cy as int) + 32));
                        }
                        assert forall|px: int, py: int|
                            0 <= px < imgx && 32 * h <= py < imgy implies #[trigger] self
                            .canvas_view()[py][px] == cvpre[py][px] by {
                            assert(!(32 * (cy as int) <= py < 32 * (cy as int) + 32));
                        }
                    }
                }
            }
        }
        // the progress strip across the bottom rows
        proof {
            assert((percentage as int) * (imgx as int) <= 0xffff_ffff * 65504) by (nonlinear_arith)
                requires percentage <= 0xffff_ffffu32 && 0 <= imgx <= 65504;
        }
        let coloring_u: u64 = (percentage as u64) * (imgx as u64) / 100;
        let ghost cvcells = self.canvas_view();
        for sy in 0..4usize
            invariant
                old(self).wf(),
                w == self.metadata.x_size as usize,
                h == self.metadata.y_size as usize,
                imgx == 32 * w,
                imgy == 32 * h + 4,
                self.metadata == old(self).metadata,
                self.game_board == old(self).game_board,
                self.open_data == old(self).open_data,
                self.flag_data == old(self).flag_data,
                self.image_data == old(self).image_data,
                coloring_u == (percentage as int) * (imgx as int) / 100,
                pix_dims_ok(self.canvas_view(), imgx as int, imgy as int),
                forall|px: int, py: int|
                    0 <= px < imgx && 0 <= py < 32 * h ==> #[trigger] self.canvas_view()[py][px]
                        == cvcells[py][px],
                forall|px: int, py: int|
                    0 <= px < imgx && 32 * h <= py < 32 * h + sy
                        ==> #[trigger] self.canvas_view()[py][px] == strip_px(
                        percentage as int,
                        imgx as int,
                        px,
                    ),
                forall|px: int, py: int|
                    0 <= px < imgx && 32 * h + sy <= py < imgy
                        ==> #[trigger] self.canvas_view()[py][px] == cvcells[py][px],
        {
            let mut row: Vec<Pixel> = Vec::new();
            for px in 0..imgx
                invariant
                    coloring_u == (percentage as int) * (imgx as int) / 100,
                    row@.len() == px,
                    forall|x: int|
                        0 <= x < px ==> #[trigger] row@[x] == strip_px(
                            percentage as int,
                            imgx as int,
                            x,
                        ),
            {
                if (px as u64) < coloring_u {
                    row.push(Pixel { r: 103, g: 149, b: 60, a: 255 });
                } else {
                    row.push(Pixel { r: 0, g: 0, b: 0, a: 255 });
                }
            }
            let ghost cvpre = self.canvas_view();
            let ghost rowv = row@;
            self.canvas[32 * h + sy] = row;
            proof {
                assert(self.canvas_view()[32 * (h as int) + sy as int] == rowv);
                assert(forall|py: int|
                    0 <= py < imgy && py != 32 * (h as int) + sy as int
                        ==> #[trigger] self.canvas_view()[py] == cvpre[py]);
            }
        }
        // clear the dirty marks now that they are drawn
        let ghost cvfinal = self.canvas_view();
        proof {
            assert(self.game_board.marks().len() == h);
            assert forall|y: int| 0 <= y < h implies (#[trigger] self.game_board.changed_fields@[
            y])@.len() == w by {
                assert(self.game_board.marks()[y] == self.game_board.changed_fields@[y]@);
            }
        }
        for cy in 0..h
            invariant
                old(self).wf(),
                w == self.metadata.x_size as usize,
                h == self.metadata.y_size as usize,
                self.metadata == old(self).metadata,
                self.game_board.fields == old(self).game_board.fields,
                self.game_board.metadata == old(self).game_board.metadata,
                self.game_board.open_fields == old(self).game_board.open_fields,
                self.game_board.mine_count == old(self).game_board.mine_count,
                self.game_board.total_fields == old(self).game_board.total_fields,
                self.open_data == old(self).open_data,
                self.flag_data == old(self).flag_data,
                self.image_data == old(self).image_data,
                self.canvas_view() == cvfinal,
                self.game_board.changed_fields@.len() == h,
                forall|y: int|
                    0 <= y < h ==> (#[trigger] self.game_board.changed_fields@[y])@.len() == w,
                forall|x: int, y: int|
                    0 <= y < cy && 0 <= x < w ==> !(#[trigger] self.game_board.changed_fields@[y]@[
                    x]),
                forall|y: int|
                    cy <= y < h ==> (#[trigger] self.game_board.changed_fields@[y])
                        == old(self).game_board.changed_fields@[y],
        {
            let mut mrow: Vec<bool> = Vec::new();
            for mx in 0..w
                invariant
                    mrow@.len() == mx,
                    forall|x: int| 0 <= x < mx ==> !(#[trigger] mrow@[x]),
            {
                mrow.push(false);
            }
            let ghost mpre = self.game_board.changed_fields@;
            let ghost mrowv = mrow@;
            self.game_board.changed_fields[cy] = mrow;
            proof {
                assert(self.game_board.changed_fields@.len() == h);
                assert(self.game_board.changed_fields@[cy as int]@ == mrowv);
                assert(forall|y: int|
                    0 <= y < h && y != cy ==> (#[trigger] self.game_board.changed_fields@[y])
                        == mpre[y]);
            }
        }
        proof {
            assert forall|y: int| 0 <= y < h implies #[trigger] self.game_board.marks()[y]
                =~= cleared_marks(w as int, h as int)[y] by {
                assert(self.game_board.marks()[y] == self.game_board.changed_fields@[y]@);
            }
        }
        proof {
            assert(self.game_board.marks() =~~= cleared_marks(
                self.metadata.x_size as int,
                self.metadata.y_size as int,
            ));
            lemma_painted_bridge(
                self.canvas_view(),
                c0,
                g,
                m0,
                id,
                percentage as int,
                self.metadata.x_size as int,
                self.metadata.y_size as int,
            );
            assert(4 * (imgx as int) * (imgy as int) <= 0xffff_ffff) by (nonlinear_arith)
                requires imgx <= 32 * 1000 && imgy <= 32 * 1000 + 4;
        }
        let out = flatten_canvas(&self.canvas, imgx, imgy);
        proof {
            lemma_flat_bridge(out@, self.canvas_view(), imgx as int, imgy as int);
        }
        out
    }
}

/// A byte lowered to its ASCII lowercase form.
pub open spec fn ascii_lower(b: u8) -> u8 {
    if 65 <= b <= 90 {
        (b + 32) as u8
    } else {
        b
    }
}

pub open spec fn ascii_lower_seq(s: Seq<u8>) -> Seq<u8> {
    s.map_values(|b: u8| ascii_lower(b))
}

/// ASCII whitespace, as the render-type name ignores it at the ends.
pub open spec fn is_ascii_ws(b: u8) -> bool {
    b == 32 || b == 9 || b == 10 || b == 13
}

pub open spec fn trim_front_ws(s: Seq<u8>) -> Seq<u8>
    decreases s.len(),
{
    if s.len() > 0 && is_ascii_ws(s[0]) {
        trim_front_ws(s.skip(1))
    } else {
        s
    }
}

pub open spec fn trim_back_ws(s: Seq<u8>) -> Seq<u8>
    decreases s.len(),
{
    if s.len() > 0 && is_ascii_ws(s.last()) {
        trim_back_ws(s.drop_last())
    } else {
        s
    }
}

/// The bytes with ASCII whitespace removed from both ends.
pub open spec fn trim_ws(s: Seq<u8>) -> Seq<u8> {
    trim_back_ws(trim_front_ws(s))
}

/// The two output shapes a caller can ask for.
#[derive(Clone, Copy, Debug, PartialEq, Eq, Structural)]
pub enum RenderType {
    Image,
    Gif,
}

impl RenderType {
    /// Reads a render type name, ignoring surrounding ASCII whitespace
    /// and ASCII case: "image" or "gif"; anything else is refused.
    pub fn from_str(s: &str) -> (r: Result<RenderType, MinesweeperError>)
        ensures
            ascii_lower_seq(trim_ws(s.spec_bytes())) == seq![105u8, 109u8, 97u8, 103u8, 101u8]
                ==> r == Ok::<_, MinesweeperError>(RenderType::Image),
            ascii_lower_seq(trim_ws(s.spec_bytes())) == seq![103u8, 105u8, 102u8] ==> r == Ok::<
                _,
                MinesweeperError,
            >(RenderType::Gif),
            ascii_lower_seq(trim_ws(s.spec_bytes())) != seq![105u8, 109u8, 97u8, 103u8, 101u8]
                && ascii_lower_seq(trim_ws(s.spec_bytes())) != seq![103u8, 105u8, 102u8] ==> r
                == Err::<RenderType, _>(MinesweeperError::DataParseError),
    {
        let bytes = s.as_bytes();
        let ghost sb = s.spec_bytes();
        let n = bytes.len();
        proof {
            assert(sb.skip(0) =~= sb);
        }
        let mut a: usize = 0;
        while a < n && (bytes[a] == 32 || bytes[a] == 9 || bytes[a] == 10 || bytes[a] == 13)
            invariant
                n == sb.len(),
                bytes@ == sb,
                a <= n,
                trim_front_ws(sb) == trim_front_ws(sb.skip(a as int)),
            decreases n - a,
        {
            proof {
                assert(sb.skip(a as int)[0] == sb[a as int]);
                assert(sb.skip(a as int).skip(1) =~= sb.skip(a as int + 1));
            }
            a = a + 1;
        }
        proof {
            if a < n {
                assert(sb.skip(a as int)[0] == sb[a as int]);
            }
            assert(trim_front_ws(sb) == sb.skip(a as int));
        }
        let mut e: usize = n;
        while e > a && (bytes[e - 1] == 32 || bytes[e - 1] == 9 || bytes[e - 1] == 10 || bytes[e
            - 1] == 13)
            invariant
                n == sb.len(),
                bytes@ == sb,
                a <= e <= n,
                trim_front_ws(sb) == sb.skip(a as int),
                trim_ws(sb) == trim_back_ws(sb.subrange(a as int, e as int)),
            decreases e,
        {
            proof {
                let cur = sb.subrange(a as int, e as int);
                assert(cur.last() == sb[e - 1]);
                assert(cur.drop_last() =~= sb.subrange(a as int, e - 1));
            }
            e = e - 1;
        }
        let ghost tw = trim_ws(sb);
        proof {
            let cur = sb.subrange(a as int, e as int);
            if e > a {
                assert(cur.last() == sb[e - 1]);
            }
            assert(tw == sb.subrange(a as int, e as int));
        }
        let ghost lw = ascii_lower_seq(tw);
        proof {
            assert(lw.len() == e - a);
        }
        let m = e - a;
        if m == 5 {
            let mut ok = true;
            let pat: [u8; 5] = [105, 109, 97, 103, 101];
            for i in 0..5usize
                invariant
                    bytes@ == sb,
                    n == sb.len(),
                    a + 5 == e <= n,
                    tw == sb.subrange(a as int, e as int),
                    lw == ascii_lower_seq(tw),
                    pat@ == seq![105u8, 109u8, 97u8, 103u8, 101u8],
                    ok <==> (forall|j: int| 0 <= j < i ==> lw[j] == pat@[j]),
            {
                let b = bytes[a + i];
                let lb = if 65 <= b && b <= 90 {
                    b + 32
                } else {
                    b
                };
                proof {
                    assert(tw[i as int] == sb[a + i as int]);
                    assert(lw[i as int] == ascii_lower(tw[i as int]));
                }
                if lb != pat[i] {
                    ok = false;
                }
            }
            if ok {
                proof {
                    assert(lw =~= seq![105u8, 109u8, 97u8, 103u8, 101u8]);
                }
                return Ok(RenderType::Image);
            }
            proof {
                assert(lw != seq![105u8, 109u8, 97u8, 103u8, 101u8]);
                assert(lw.len() != 3);
                assert(lw != seq![103u8, 105u8, 102u8]);
            }
            return Err(MinesweeperError::DataParseError);
        }
        if m == 3 {
            let mut ok = true;
            let pat: [u8; 3] = [103, 105, 102];
            for i in 0..3usize
                invariant
                    bytes@ == sb,
                    n == sb.len(),
                    a + 3 == e <= n,
                    tw == sb.subrange(a as int, e as int),
                    lw == ascii_lower_seq(tw),
                    pat@ == seq![103u8, 105u8, 102u8],
                    ok <==> (forall|j: int| 0 <= j < i ==> lw[j] == pat@[j]),
            {
                let b = bytes[a + i];
                let lb = if 65 <= b && b <= 90 {
                    b + 32
                } else {
                    b
                };
                proof {
                    assert(tw[i as int] == sb[a + i as int]);
                    assert(lw[i as int] == ascii_lower(tw[i as int]));
                }
                if lb != pat[i] {
                    ok = false;
                }
            }
            if ok {
                proof {
                    assert(lw =~= seq![103u8, 105u8, 102u8]);
                }
                return Ok(RenderType::Gif);
            }
            proof {
                assert(lw != seq![103u8, 105u8, 102u8]);
                assert(lw.len() != 5);
            }
            return Err(MinesweeperError::DataParseError);
        }
        proof {
            assert(lw.len() != 5 && lw.len() != 3);
            assert(lw != seq![105u8, 109u8, 97u8, 103u8, 101u8]);
            assert(lw != seq![103u8, 105u8, 102u8]);
        }
        Err(MinesweeperError::DataParseError)
    }
}

/// The declared percentage of tick k among n/// The declared percentage of tick k among n: its ordinal share,
/// forced to exactly 100 on the last tick.
pub open spec fn gif_tick_pct(k: int, n: int) -> int {
    if k == n - 1 {
        100
    } else {
        k * 100 / n
    }
}

/// The display delay of tick k's frame in 10 ms units: the gap to the
/// next tick scaled by the time unit, saturated at the container's
/// millisecond and delay limits; the final frame is held 15 seconds.
pub open spec fn gif_tick_delay(ticks: Seq<Tick>, k: int, tu: int) -> int {
    if k + 1 < ticks.len() {
        let ms0 = (ticks[k + 1].time - ticks[k].time) * tu;
        let ms = if ms0 > u32::MAX {
            u32::MAX as int
        } else {
            ms0
        };
        let u = ms / 10;
        if u > u16::MAX {
            u16::MAX as int
        } else {
            u
        }
    } else {
        1500
    }
}

/// The animated replay after the first k ticks: the board grid, the
/// dirty grid, the canvas, the open counter, and the frames rendered so
/// far. Each tick applies its due flag events then its due open
/// events, paints a frame at the tick's share of progress, and starts
/// the next tick with a clean dirty grid.
pub open spec fn gif_fold(
    g: Seq<Seq<Field>>,
    m: Seq<Seq<bool>>,
    cv: Seq<Seq<Pixel>>,
    c: int,
    ticks: Seq<Tick>,
    opens: Seq<OpenAction>,
    flags: Seq<FlagAction>,
    id: Imagedata,
    xs: int,
    ys: int,
    tu: int,
    k: int,
) -> (Seq<Seq<Field>>, Seq<Seq<bool>>, Seq<Seq<Pixel>>, int, Seq<(Seq<u8>, u16)>)
    decreases k,
{
    if k <= 0 {
        (g, m, cv, c, Seq::<(Seq<u8>, u16)>::empty())
    } else {
        let prev = gif_fold(g, m, cv, c, ticks, opens, flags, id, xs, ys, tu, k - 1);
        let t = ticks[k - 1];
        let s1 = if t.flag {
            fold_flags_at(prev.0, prev.1, flags, t.time, flags.len() as int)
        } else {
            (prev.0, prev.1)
        };
        let s2 = if t.open {
            fold_opens_at(s1.0, s1.1, prev.3, opens, t.time, opens.len() as int)
        } else {
            (s1.0, s1.1, prev.3)
        };
        let cv2 = painted_canvas(prev.2, s2.0, s2.1, id, gif_tick_pct(k - 1, ticks.len() as int), xs, ys);
        (
            s2.0,
            cleared_marks(xs, ys),
            cv2,
            s2.2,
            prev.4.push(
                (
                    flat_of(cv2, 32 * xs, 32 * ys + 4),
                    gif_tick_delay(ticks, k - 1, tu) as u16,
                ),
            ),
        )
    }
}

/// Each tick contributes exactly one frame.
pub proof fn lemma_gif_fold_len(
    g: Seq<Seq<Field>>,
    m: Seq<Seq<bool>>,
    cv: Seq<Seq<Pixel>>,
    c: int,
    ticks: Seq<Tick>,
    opens: Seq<OpenAction>,
    flags: Seq<FlagAction>,
    id: Imagedata,
    xs: int,
    ys: int,
    tu: int,
    k: int,
)
    requires
        k >= 0,
    ensures
        gif_fold(g, m, cv, c, ticks, opens, flags, id, xs, ys, tu, k).4.len() == k,
    decreases k,
{
    if k > 0 {
        lemma_gif_fold_len(g, m, cv, c, ticks, opens, flags, id, xs, ys, tu, k - 1);
    }
}

/// The last animated frame always shows a full progress strip: the
/// final tick's declared percentage is forced to 100, whatever the
/// board's true completion, so every strip pixel of the frame it
/// renders carries the progress colour.
pub proof fn lemma_last_frame_full_progress(
    g: Seq<Seq<Field>>,
    m: Seq<Seq<bool>>,
    cv: Seq<Seq<Pixel>>,
    c: int,
    ticks: Seq<Tick>,
    opens: Seq<OpenAction>,
    flags: Seq<FlagAction>,
    id: Imagedata,
    xs: int,
    ys: int,
    tu: int,
)
    requires
        ticks.len() >= 1,
        xs >= 1,
        ys >= 1,
    ensures
        ({
            let f = gif_fold(
                g,
                m,
                cv,
                c,
                ticks,
                opens,
                flags,
                id,
                xs,
                ys,
                tu,
                ticks.len() as int,
            );
            f.4.len() == ticks.len() && f.4.last().0 == flat_of(f.2, 32 * xs, 32 * ys + 4)
                && (forall|px: int, py: int|
                0 <= px < 32 * xs && 32 * ys <= py < 32 * ys + 4 ==> #[trigger] f.2[py][px]
                    == progress_color())
        }),
{
    let k = ticks.len() as int;
    lemma_gif_fold_len(g, m, cv, c, ticks, opens, flags, id, xs, ys, tu, k);
    lemma_gif_fold_len(g, m, cv, c, ticks, opens, flags, id, xs, ys, tu, k - 1);
    let f = gif_fold(g, m, cv, c, ticks, opens, flags, id, xs, ys, tu, k);
    assert(gif_tick_pct(k - 1, k) == 100);
    vstd::arithmetic::div_mod::lemma_div_multiples_vanish(32 * xs, 100);
    assert(100 * (32 * xs) / 100 == 32 * xs);
    assert forall|px: int, py: int|
        0 <= px < 32 * xs && 32 * ys <= py < 32 * ys + 4 implies #[trigger] f.2[py][px]
        == progress_color() by {
        assert(f.2[py][px] == strip_px(100, 32 * xs, px));
    }
}

/// The glyph slot a cell is drawn from: the marker glyphs for closed,
/// flagged and unsure cells; for an open cell the mine glyph or its
/// count's glyph.
pub open spec fn glyph_index(f: Field) -> int {
    if f.field_state == FieldState::Closed {
        10
    } else if f.field_state == FieldState::Flagged {
        11
    } else if f.field_state == FieldState::UnsureFlagged {
        12
    } else if f.mine {
        9
    } else if f.value >= 8 {
        8
    } else {
        f.value as int
    }
}

/// Glyph `k` of a decoded atlas, as a value.
pub open spec fn glyph_from_atlas(atlas: Seq<u8>, aw: int, k: int) -> Seq<Seq<Pixel>> {
    Seq::new(32, |dy: int| Seq::new(32, |dx: int| atlas_px(atlas, aw, 32 * k + dx, dy)))
}

/// `painted_canvas`, with the glyphs read straight from the decoded
/// atlas bytes: the render pass as a function of the atlas alone.
pub open spec fn painted_canvas_atlas(
    c0: Seq<Seq<Pixel>>,
    g: Seq<Seq<Field>>,
    m: Seq<Seq<bool>>,
    atlas: Seq<u8>,
    aw: int,
    pct: int,
    xs: int,
    ys: int,
) -> Seq<Seq<Pixel>> {
    Seq::new(
        (32 * ys + 4) as nat,
        |py: int|
            Seq::new(
                (32 * xs) as nat,
                |px: int|
                    if py >= 32 * ys {
                        strip_px(pct, 32 * xs, px)
                    } else if m[py / 32][px / 32] {
                        glyph_from_atlas(atlas, aw, glyph_index(g[py / 32][px / 32]))[py % 32][px
                            % 32]
                    } else {
                        c0[py][px]
                    },
            ),
    )
}

/// Glyph sets cut from one atlas paint the same canvas as the atlas
/// itself.
pub proof fn lemma_painted_atlas(
    c0: Seq<Seq<Pixel>>,
    g: Seq<Seq<Field>>,
    m: Seq<Seq<bool>>,
    id: Imagedata,
    atlas: Seq<u8>,
    aw: int,
    pct: int,
    xs: int,
    ys: int,
)
    requires
        id.wf(),
        id.from_atlas(atlas, aw),
    ensures
        painted_canvas(c0, g, m, id, pct, xs, ys) == painted_canvas_atlas(
            c0,
            g,
            m,
            atlas,
            aw,
            pct,
            xs,
            ys,
        ),
{
    let a = painted_canvas(c0, g, m, id, pct, xs, ys);
    let b = painted_canvas_atlas(c0, g, m, atlas, aw, pct, xs, ys);
    assert forall|py: int| 0 <= py < 32 * ys + 4 implies a[py] =~= b[py] by {
        assert forall|px: int| 0 <= px < 32 * xs implies a[py][px] == b[py][px] by {
            if py < 32 * ys && m[py / 32][px / 32] {
                let f = g[py / 32][px / 32];
                let dy = py % 32;
                let dx = px % 32;
                assert(0 <= dy < 32 && 0 <= dx < 32);
                assert(id.glyph_for(f)[dy][dx] == atlas_px(
                    atlas,
                    aw,
                    32 * glyph_index(f) + dx,
                    dy,
                ));
            }
        }
    }
    assert(a =~~= b);
}

/// `gif_fold`, with the glyphs read straight from the decoded atlas.
pub open spec fn gif_fold_atlas(
    g: Seq<Seq<Field>>,
    m: Seq<Seq<bool>>,
    cv: Seq<Seq<Pixel>>,
    c: int,
    ticks: Seq<Tick>,
    opens: Seq<OpenAction>,
    flags: Seq<FlagAction>,
    atlas: Seq<u8>,
    aw: int,
    xs: int,
    ys: int,
    tu: int,
    k: int,
) -> (Seq<Seq<Field>>, Seq<Seq<bool>>, Seq<Seq<Pixel>>, int, Seq<(Seq<u8>, u16)>)
    decreases k,
{
    if k <= 0 {
        (g, m, cv, c, Seq::<(Seq<u8>, u16)>::empty())
    } else {
        let prev = gif_fold_atlas(g, m, cv, c, ticks, opens, flags, atlas, aw, xs, ys, tu, k - 1);
        let t = ticks[k - 1];
        let s1 = if t.flag {
            fold_flags_at(prev.0, prev.1, flags, t.time, flags.len() as int)
        } else {
            (prev.0, prev.1)
        };
        let s2 = if t.open {
            fold_opens_at(s1.0, s1.1, prev.3, opens, t.time, opens.len() as int)
        } else {
            (s1.0, s1.1, prev.3)
        };
        let cv2 = painted_canvas_atlas(
            prev.2,
            s2.0,
            s2.1,
            atlas,
            aw,
            gif_tick_pct(k - 1, ticks.len() as int),
            xs,
            ys,
        );
        (
            s2.0,
            cleared_marks(xs, ys),
            cv2,
            s2.2,
            prev.4.push(
                (
                    flat_of(cv2, 32 * xs, 32 * ys + 4),
                    gif_tick_delay(ticks, k - 1, tu) as u16,
                ),
            ),
        )
    }
}

/// The animated fold over a glyph set equals the fold over its atlas.
pub proof fn lemma_gif_fold_atlas(
    g: Seq<Seq<Field>>,
    m: Seq<Seq<bool>>,
    cv: Seq<Seq<Pixel>>,
    c: int,
    ticks: Seq<Tick>,
    opens: Seq<OpenAction>,
    flags: Seq<FlagAction>,
    id: Imagedata,
    atlas: Seq<u8>,
    aw: int,
    xs: int,
    ys: int,
    tu: int,
    k: int,
)
    requires
        id.wf(),
        id.from_atlas(atlas, aw),
        k >= 0,
    ensures
        gif_fold(g, m, cv, c, ticks, opens, flags, id, xs, ys, tu, k) == gif_fold_atlas(
            g,
            m,
            cv,
            c,
            ticks,
            opens,
            flags,
            atlas,
            aw,
            xs,
            ys,
            tu,
            k,
        ),
    decreases k,
{
    if k > 0 {
        lemma_gif_fold_atlas(g, m, cv, c, ticks, opens, flags, id, atlas, aw, xs, ys, tu, k - 1);
        let prev = gif_fold(g, m, cv, c, ticks, opens, flags, id, xs, ys, tu, k - 1);
        let t = ticks[k - 1];
        let s1 = if t.flag {
            fold_flags_at(prev.0, prev.1, flags, t.time, flags.len() as int)
        } else {
            (prev.0, prev.1)
        };
        let s2 = if t.open {
            fold_opens_at(s1.0, s1.1, prev.3, opens, t.time, opens.len() as int)
        } else {
            (s1.0, s1.1, prev.3)
        };
        lemma_painted_atlas(
            prev.2,
            s2.0,
            s2.1,
            id,
            atlas,
            aw,
            gif_tick_pct(k - 1, ticks.len() as int),
            xs,
            ys,
        );
    }
}

/// The canvas a fresh renderer starts from: fully transparent black.
pub open spec fn zero_canvas(xs: int, ys: int) -> Seq<Seq<Pixel>> {
    Seq::new(
        (32 * ys + 4) as nat,
        |py: int| Seq::new((32 * xs) as nat, |px: int| Pixel { r: 0u8, g: 0u8, b: 0u8, a: 0u8 }),
    )
}

/// Two timelines for the same event lists are the same sequence: an
/// ordered tick list is determined by which times carry which kinds.
/// With this, the animated output is a function of the replay alone.
pub proof fn lemma_ticks_unique(t1: Seq<Tick>, t2: Seq<Tick>)
    requires
        ticks_wf(t1),
        ticks_wf(t2),
        forall|x: i64| tick_has_open(t1, x) <==> tick_has_open(t2, x),
        forall|x: i64| tick_has_flag(t1, x) <==> tick_has_flag(t2, x),
    ensures
        t1 =~= t2,
    decreases t1.len() + t2.len(),
{
    if t1.len() == 0 && t2.len() == 0 {
    } else if t1.len() == 0 {
        assert(t2[0].open || t2[0].flag);
        if t2[0].open {
            assert(tick_has_open(t2, t2[0].time));
            let k = choose|k: int|
                0 <= k < t1.len() && (#[trigger] t1[k]).time == t2[0].time && t1[k].open;
            assert(false);
        } else {
            assert(tick_has_flag(t2, t2[0].time));
            let k = choose|k: int|
                0 <= k < t1.len() && (#[trigger] t1[k]).time == t2[0].time && t1[k].flag;
            assert(false);
        }
    } else if t2.len() == 0 {
        assert(t1[0].open || t1[0].flag);
        if t1[0].open {
            assert(tick_has_open(t1, t1[0].time));
            let k = choose|k: int|
                0 <= k < t2.len() && (#[trigger] t2[k]).time == t1[0].time && t2[k].open;
            assert(false);
        } else {
            assert(tick_has_flag(t1, t1[0].time));
            let k = choose|k: int|
                0 <= k < t2.len() && (#[trigger] t2[k]).time == t1[0].time && t2[k].flag;
            assert(false);
        }
    } else {
        let a = t1[0];
        let b = t2[0];
        // the head time of each list occurs in the other, so by
        // sortedness the head times agree
        assert(a.time >= b.time) by {
            assert(a.open || a.flag);
            if a.open {
                assert(tick_has_open(t1, a.time));
                let k = choose|k: int|
                    0 <= k < t2.len() && (#[trigger] t2[k]).time == a.time && t2[k].open;
                if k > 0 {
                    assert(t2[0].time < t2[k].time);
                }
            } else {
                assert(tick_has_flag(t1, a.time));
                let k = choose|k: int|
                    0 <= k < t2.len() && (#[trigger] t2[k]).time == a.time && t2[k].flag;
                if k > 0 {
                    assert(t2[0].time < t2[k].time);
                }
            }
        }
        assert(b.time >= a.time) by {
            assert(b.open || b.flag);
            if b.open {
                assert(tick_has_open(t2, b.time));
                let k = choose|k: int|
                    0 <= k < t1.len() && (#[trigger] t1[k]).time == b.time && t1[k].open;
                if k > 0 {
                    assert(t1[0].time < t1[k].time);
                }
            } else {
                assert(tick_has_flag(t2, b.time));
                let k = choose|k: int|
                    0 <= k < t1.len() && (#[trigger] t1[k]).time == b.time && t1[k].flag;
                if k > 0 {
                    assert(t1[0].time < t1[k].time);
                }
            }
        }
        assert(a.time == b.time);
        // the kinds at that time agree as well
        assert(a.open == b.open) by {
            if a.open {
                assert(tick_has_open(t1, a.time));
                let k = choose|k: int|
                    0 <= k < t2.len() && (#[trigger] t2[k]).time == a.time && t2[k].open;
                if k > 0 {
                    assert(t2[0].time < t2[k].time);
                }
            }
            if b.open {
                assert(tick_has_open(t2, b.time));
                let k = choose|k: int|
                    0 <= k < t1.len() && (#[trigger] t1[k]).time == b.time && t1[k].open;
                if k > 0 {
                    assert(t1[0].time < t1[k].time);
                }
            }
        }
        assert(a.flag == b.flag) by {
            if a.flag {
                assert(tick_has_flag(t1, a.time));
                let k = choose|k: int|
                    0 <= k < t2.len() && (#[trigger] t2[k]).time == a.time && t2[k].flag;
                if k > 0 {
                    assert(t2[0].time < t2[k].time);
                }
            }
            if b.flag {
                assert(tick_has_flag(t2, b.time));
                let k = choose|k: int|
                    0 <= k < t1.len() && (#[trigger] t1[k]).time == b.time && t1[k].flag;
                if k > 0 {
                    assert(t1[0].time < t1[k].time);
                }
            }
        }
        assert(a == b);
        let s1 = t1.skip(1);
        let s2 = t2.skip(1);
        assert(forall|k: int| 0 <= k < s1.len() ==> #[trigger] s1[k] == t1[k + 1]);
        assert(forall|k: int| 0 <= k < s2.len() ==> #[trigger] s2[k] == t2[k + 1]);
        assert(ticks_wf(s1));
        assert(ticks_wf(s2));
        // dropping the shared head restricts both memberships to the
        // times after it
        assert forall|x: i64| #[trigger] tick_has_open(s1, x) implies tick_has_open(s2, x) by {
            lemma_tail_member(t1, t2, x, true);
        }
        assert forall|x: i64| #[trigger] tick_has_open(s2, x) implies tick_has_open(s1, x) by {
            lemma_tail_member(t2, t1, x, true);
        }
        assert forall|x: i64| #[trigger] tick_has_flag(s1, x) implies tick_has_flag(s2, x) by {
            lemma_tail_member(t1, t2, x, false);
        }
        assert forall|x: i64| #[trigger] tick_has_flag(s2, x) implies tick_has_flag(s1, x) by {
            lemma_tail_member(t2, t1, x, false);
        }
        lemma_ticks_unique(s1, s2);
        assert forall|k: int| 0 <= k < t1.len() implies t1[k] == t2[k] by {
            if k > 0 {
                assert(s1[k - 1] == s2[k - 1]);
            }
        }
    }
}

/// A kind present at time x in `u.skip(1)` is present at x in the
/// other list's tail, given equal heads and memberships.
proof fn lemma_tail_member(u: Seq<Tick>, w: Seq<Tick>, x: i64, open_kind: bool)
    requires
        u.len() > 0,
        w.len() > 0,
        u[0] == w[0],
        ticks_wf(u),
        ticks_wf(w),
        forall|y: i64| tick_has_open(u, y) <==> tick_has_open(w, y),
        forall|y: i64| tick_has_flag(u, y) <==> tick_has_flag(w, y),
        open_kind ==> tick_has_open(u.skip(1), x),
        !open_kind ==> tick_has_flag(u.skip(1), x),
    ensures
        open_kind ==> tick_has_open(w.skip(1), x),
        !open_kind ==> tick_has_flag(w.skip(1), x),
{
    let su = u.skip(1);
    let sw = w.skip(1);
    assert(forall|k: int| 0 <= k < su.len() ==> #[trigger] su[k] == u[k + 1]);
    assert(forall|k: int| 0 <= k < sw.len() ==> #[trigger] sw[k] == w[k + 1]);
    if open_kind {
        let k = choose|k: int| 0 <= k < su.len() && (#[trigger] su[k]).time == x && su[k].open;
        assert(u[k + 1].time == x && u[k + 1].open);
        assert(u[0].time < x);
        assert(tick_has_open(u, x));
        let j = choose|j: int| 0 <= j < w.len() && (#[trigger] w[j]).time == x && w[j].open;
        assert(j > 0);
        assert(sw[j - 1].time == x && sw[j - 1].open);
        assert(tick_has_open(sw, x));
    } else {
        let k = choose|k: int| 0 <= k < su.len() && (#[trigger] su[k]).time == x && su[k].flag;
        assert(u[k + 1].time == x && u[k + 1].flag);
        assert(u[0].time < x);
        assert(tick_has_flag(u, x));
        let j = choose|j: int| 0 <= j < w.len() && (#[trigger] w[j]).time == x && w[j].flag;
        assert(j > 0);
        assert(sw[j - 1].time == x && sw[j - 1].flag);
        assert(tick_has_flag(sw, x));
    }
}

/// The merged timeline of two event lists: ordered, one tick per
/// distinct cumulative time, carrying exactly the kinds present there.
pub open spec fn ticks_for(ticks: Seq<Tick>, opens: Seq<OpenAction>, flags: Seq<FlagAction>) -> bool {
    &&& ticks_wf(ticks)
    &&& (forall|t: i64|
        tick_has_open(ticks, t) <==> (exists|k: int|
            0 <= k < opens.len() && (#[trigger] opens[k]).total_time == t))
    &&& (forall|t: i64|
        tick_has_flag(ticks, t) <==> (exists|k: int|
            0 <= k < flags.len() && (#[trigger] flags[k]).total_time == t))
    &&& (forall|t: i64| tick_has(ticks, t) ==> (tick_has_open(ticks, t) || tick_has_flag(ticks, t)))
}

/// What the animated path returns, given the renderer it started from
/// and its timeline: the encoded initial frame plus the per-tick
/// frames, and the board state the replay leaves behind.
pub open spec fn render_gif_output(
    rr: Renderer,
    newg: Seq<Seq<Field>>,
    newc: int,
    v: Seq<u8>,
    ticks: Seq<Tick>,
) -> bool {
    let xs = rr.metadata.x_size as int;
    let ys = rr.metadata.y_size as int;
    let cv1 = painted_canvas(
        rr.canvas_view(),
        rr.game_board.grid(),
        rr.game_board.marks(),
        rr.image_data,
        0,
        xs,
        ys,
    );
    let f = gif_fold(
        rr.game_board.grid(),
        cleared_marks(xs, ys),
        cv1,
        rr.game_board.open_fields as int,
        ticks,
        rr.opens(),
        rr.flags(),
        rr.image_data,
        xs,
        ys,
        rr.metadata.timeunits as int,
        ticks.len() as int,
    );
    &&& ticks_for(ticks, rr.opens(), rr.flags())
    &&& v == gif_bytes_of(
        rr.img_w(),
        rr.img_h(),
        seq![(flat_of(cv1, rr.img_w(), rr.img_h()), 100u16)] + f.4,
    )
    &&& (ticks.len() > 0 ==> newg == f.0 && newc == f.3)
    &&& (ticks.len() == 0 ==> newg == rr.game_board.grid())
}

/// A dirty grid meeting `open_field`'s mark clause is the
/// `open_apply_marks` of the old state.
pub proof fn lemma_marks_is_open_marks(
    g0: Seq<Seq<Field>>,
    m0: Seq<Seq<bool>>,
    m1: Seq<Seq<bool>>,
    sx: int,
    sy: int,
    w: int,
    h: int,
)
    requires
        minesweeper_logic::grid_dims_ok(g0, w, h),
        minesweeper_logic::marks_dims_ok(m0, w, h),
        minesweeper_logic::marks_dims_ok(m1, w, h),
        forall|cx: int, cy: int|
            #[trigger] minesweeper_logic::cell_in_bounds(g0, cx, cy) ==> m1[cy][cx] == (m0[cy][cx]
                || reachable(g0, sx, sy, cx, cy)),
    ensures
        m1 =~~= open_apply_marks(g0, m0, sx, sy),
{
    assert forall|y: int| 0 <= y < h implies m1[y] =~= open_apply_marks(g0, m0, sx, sy)[y] by {
        assert forall|x: int| 0 <= x < w implies m1[y][x] == open_apply_marks(g0, m0, sx, sy)[y][x]
            by {
            assert(minesweeper_logic::cell_in_bounds(g0, x, y));
        }
    }
}

/// The board model and open counter after the still path applies every
/// flag event and then every open event.
pub open spec fn still_state(rr: Renderer) -> (Seq<Seq<Field>>, Seq<Seq<bool>>, int) {
    let f = fold_flags(rr.game_board.grid(), rr.game_board.marks(), rr.flags(), rr.flags().len() as int);
    fold_opens(f.0, f.1, rr.game_board.open_fields as int, rr.opens(), rr.opens().len() as int)
}

/// The view of an owned frame list.
pub open spec fn frames_view(fs: Seq<(Vec<u8>, u16)>) -> Seq<(Seq<u8>, u16)> {
    fs.map_values(|f: (Vec<u8>, u16)| (f.0@, f.1))
}

impl Renderer {
    /// The still path: every flag event is applied, then every open
    /// event, the final progress percentage is computed, one frame is
    /// rendered, and the frame is encoded as a lossless still image.
    #[verifier::rlimit(60)]
    pub fn render_jpeg(&mut self) -> (r: Result<Vec<u8>, MinesweeperError>)
        requires
            old(self).wf(),
        ensures
            final(self).wf(),
            r is Ok,
            r matches Ok(v) ==> v@ == png_encoding_of(
                old(self).img_w(),
                old(self).img_h(),
                flat_of(
                    painted_canvas(
                        old(self).canvas_view(),
                        still_state(*old(self)).0,
                        still_state(*old(self)).1,
                        old(self).image_data,
                        minesweeper_logic::done_percentage(
                            still_state(*old(self)).2,
                            old(self).game_board.total_fields as int,
                            old(self).game_board.mine_count as int,
                        ),
                        old(self).metadata.x_size as int,
                        old(self).metadata.y_size as int,
                    ),
                    old(self).img_w(),
                    old(self).img_h(),
                ),
            ),
    {
        let ghost g0 = self.game_board.grid();
        let ghost m0 = self.game_board.marks();
        let nf = self.flag_data.len();
        for i in 0..nf
            invariant
                old(self).wf(),
                nf == self.flag_data@.len(),
                self.metadata == old(self).metadata,
                self.open_data == old(self).open_data,
                self.flag_data == old(self).flag_data,
                self.image_data == old(self).image_data,
                self.canvas == old(self).canvas,
                self.game_board.wf(),
                self.game_board.metadata == old(self).metadata,
                self.game_board.open_fields == old(self).game_board.open_fields,
                self.game_board.mine_count == old(self).game_board.mine_count,
                self.game_board.total_fields == old(self).game_board.total_fields,
                g0 == old(self).game_board.grid(),
                m0 == old(self).game_board.marks(),
                (self.game_board.grid(), self.game_board.marks()) == fold_flags(
                    g0,
                    m0,
                    self.flag_data@,
                    i as int,
                ),
        {
            let fa = self.flag_data[i];
            fa.perform_action(&mut self.game_board);
        }
        let ghost g1 = self.game_board.grid();
        let ghost m1 = self.game_board.marks();
        let ghost c1 = self.game_board.open_fields as int;
        let no = self.open_data.len();
        for i in 0..no
            invariant
                old(self).wf(),
                no == self.open_data@.len(),
                self.metadata == old(self).metadata,
                self.open_data == old(self).open_data,
                self.flag_data == old(self).flag_data,
                self.image_data == old(self).image_data,
                self.canvas == old(self).canvas,
                self.game_board.wf(),
                self.game_board.metadata == old(self).metadata,
                self.game_board.mine_count == old(self).game_board.mine_count,
                self.game_board.total_fields == old(self).game_board.total_fields,
                (self.game_board.grid(), self.game_board.marks(), self.game_board.open_fields as int)
                    == fold_opens(g1, m1, c1, self.open_data@, i as int),
        {
            let oa = self.open_data[i];
            let ghost gp = self.game_board.grid();
            let ghost mp = self.game_board.marks();
            self.game_board.open_field(oa.x as usize, oa.y as usize);
            proof {
                minesweeper_logic::lemma_grid_is_transform(
                    gp,
                    self.game_board.grid(),
                    oa.x as int,
                    oa.y as int,
                );
                lemma_marks_is_open_marks(
                    gp,
                    mp,
                    self.game_board.marks(),
                    oa.x as int,
                    oa.y as int,
                    self.metadata.x_size as int,
                    self.metadata.y_size as int,
                );
            }
        }
        let pct = self.game_board.calculate_done_percentage();
        let frame = self.generate_image(pct);
        let imgx: u32 = 32 * (self.metadata.x_size as u32);
        let imgy: u32 = 32 * (self.metadata.y_size as u32) + 4;
        proof {
            assert(frame@.len() == 4 * (imgx as int) * (imgy as int));
        }
        encode_png(imgx, imgy, frame)
    }

    /// The animated path: an initial all-closed frame held one second,
    /// then one frame per timeline tick. Each tick applies every flag
    /// and open event due at its time, renders a frame whose declared
    /// percentage is the tick's ordinal share (forced to 100 on the
    /// last tick), and holds it for the gap to the next tick scaled by
    /// the format's time unit; the final frame is held fifteen seconds.
    #[verifier::rlimit(100)]
    pub fn render_gif(&mut self) -> (r: Result<Vec<u8>, MinesweeperError>)
        requires
            old(self).wf(),
        ensures
            final(self).wf(),
            r is Ok,
            final(self).open_data@.len() == 0,
            final(self).flag_data@.len() == 0,
            r matches Ok(v) ==> exists|ticks: Seq<Tick>|
                #[trigger] render_gif_output(
                    *old(self),
                    final(self).game_board.grid(),
                    final(self).game_board.open_fields as int,
                    v@,
                    ticks,
                ),
    {
        let ticks = self.create_tick_map();
        let ghost xs = self.metadata.x_size as int;
        let ghost ys = self.metadata.y_size as int;
        let ghost tu = self.metadata.timeunits as int;
        let ghost id = self.image_data;
        let ghost gg0 = self.game_board.grid();
        let ghost cv0 = self.canvas_view();
        let ghost c0 = self.game_board.open_fields as int;
        let mut frames: Vec<(Vec<u8>, u16)> = Vec::new();
        let frame0 = self.generate_image(0);
        let ghost f0 = frame0@;
        frames.push((frame0, 100));
        let ghost cv1 = self.canvas_view();
        proof {
            assert forall|j: int| 0 <= j < ticks@.len() implies (#[trigger] ticks@[j]).time >= 0 by {
                assert(tick_has(ticks@, ticks@[j].time));
            }
        }
        let n = ticks.len();
        for k in 0..n
            invariant
                old(self).wf(),
                n == ticks@.len(),
                forall|j: int| 0 <= j < ticks@.len() ==> (#[trigger] ticks@[j]).time >= 0,
                xs == self.metadata.x_size as int,
                ys == self.metadata.y_size as int,
                tu == self.metadata.timeunits as int,
                id == self.image_data,
                self.metadata == old(self).metadata,
                self.open_data == old(self).open_data,
                self.flag_data == old(self).flag_data,
                self.image_data == old(self).image_data,
                self.wf(),
                self.game_board.metadata == old(self).metadata,
                self.game_board.mine_count == old(self).game_board.mine_count,
                self.game_board.total_fields == old(self).game_board.total_fields,
                ticks_wf(ticks@),
                gg0 == old(self).game_board.grid(),
                cv1 == painted_canvas(cv0, gg0, old(self).game_board.marks(), id, 0, xs, ys),
                f0 == flat_of(cv1, 32 * xs, 32 * ys + 4),
                frames@.len() == k + 1,
                frames@[0].0@ == f0,
                frames@[0].1 == 100u16,
                forall|j: int|
                    0 <= j < frames@.len() ==> (#[trigger] frames@[j]).0@.len() == 4 * (32 * xs) * (
                    32 * ys + 4),
                (
                    self.game_board.grid(),
                    self.game_board.marks(),
                    self.canvas_view(),
                    self.game_board.open_fields as int,
                    frames_view(frames@).skip(1),
                ) == gif_fold(
                    gg0,
                    cleared_marks(xs, ys),
                    cv1,
                    c0,
                    ticks@,
                    self.open_data@,
                    self.flag_data@,
                    id,
                    xs,
                    ys,
                    tu,
                    k as int,
                ),
        {
            let t = ticks[k];
            let ghost gk = self.game_board.grid();
            let ghost mk = self.game_board.marks();
            let ghost cvk = self.canvas@;
            let ghost ofk = self.game_board.open_fields;
            if t.flag {
                let nf = self.flag_data.len();
                for j in 0..nf
                    invariant
                        old(self).wf(),
                        nf == self.flag_data@.len(),
                        self.metadata == old(self).metadata,
                        self.open_data == old(self).open_data,
                        self.flag_data == old(self).flag_data,
                        self.image_data == old(self).image_data,
                        self.canvas@ == cvk,
                        self.game_board.wf(),
                        self.game_board.metadata == old(self).metadata,
                        self.game_board.mine_count == old(self).game_board.mine_count,
                        self.game_board.total_fields == old(self).game_board.total_fields,
                        self.game_board.open_fields == ofk,
                        (self.game_board.grid(), self.game_board.marks()) == fold_flags_at(
                            gk,
                            mk,
                            self.flag_data@,
                            t.time,
                            j as int,
                        ),
                {
                    let fa = self.flag_data[j];
                    if fa.total_time == t.time {
                        fa.perform_action(&mut self.game_board);
                    }
                }
            }
            let ghost g2 = self.game_board.grid();
            let ghost m2 = self.game_board.marks();
            let ghost cc = self.game_board.open_fields as int;
            if t.open {
                let no = self.open_data.len();
                for j in 0..no
                    invariant
                        old(self).wf(),
                        no == self.open_data@.len(),
                        self.metadata == old(self).metadata,
                        self.open_data == old(self).open_data,
                        self.flag_data == old(self).flag_data,
                        self.image_data == old(self).image_data,
                        self.canvas@ == cvk,
                        self.game_board.wf(),
                        self.game_board.metadata == old(self).metadata,
                        self.game_board.mine_count == old(self).game_board.mine_count,
                        self.game_board.total_fields == old(self).game_board.total_fields,
                        (
                            self.game_board.grid(),
                            self.game_board.marks(),
                            self.game_board.open_fields as int,
                        ) == fold_opens_at(g2, m2, cc, self.open_data@, t.time, j as int),
                {
                    let oa = self.open_data[j];
                    if oa.total_time == t.time {
                        let ghost gp = self.game_board.grid();
                        let ghost mp = self.game_board.marks();
                        self.game_board.open_field(oa.x as usize, oa.y as usize);
                        proof {
                            minesweeper_logic::lemma_grid_is_transform(
                                gp,
                                self.game_board.grid(),
                                oa.x as int,
                                oa.y as int,
                            );
                            lemma_marks_is_open_marks(
                                gp,
                                mp,
                                self.game_board.marks(),
                                oa.x as int,
                                oa.y as int,
                                self.metadata.x_size as int,
                                self.metadata.y_size as int,
                            );
                        }
                    }
                }
            }
            let pct: u32 = if k == n - 1 {
                100
            } else {
                proof {
                    assert((k as int) * 100 / (n as int) <= 100) by (nonlinear_arith)
                        requires 0 <= (k as int) <= (n as int) - 1 && (n as int) >= 1;
                    assert((k as int) * 100 / (n as int) >= 0) by (nonlinear_arith)
                        requires 0 <= (k as int) && (n as int) >= 1;
                }
                (((k as u128) * 100) / (n as u128)) as u32
            };
            proof {
                assert(pct as int == gif_tick_pct(k as int, n as int));
            }
            let d16: u16 = if k + 1 < n {
                proof {
                    assert(ticks@[k as int].time >= 0);
                    assert(ticks@[k + 1].time >= 0);
                    assert(ticks@[k as int].time < ticks@[k + 1].time);
                }
                let gap: i64 = ticks[k + 1].time - ticks[k].time;
                proof {
                    assert((gap as int) * (tu as int) <= 0x7fff_ffff_ffff_ffff * 0x7fff_ffff)
                        by (nonlinear_arith)
                        requires 0 <= (gap as int) <= 0x7fff_ffff_ffff_ffff && 0 <= tu
                            <= 0x7fff_ffff;
                }
                let ms128: i128 = (gap as i128) * (self.metadata.timeunits as i128);
                let msat: i128 = if ms128 > (u32::MAX as i128) {
                    u32::MAX as i128
                } else {
                    ms128
                };
                let units: i128 = msat / 10;
                if units > (u16::MAX as i128) {
                    u16::MAX
                } else {
                    units as u16
                }
            } else {
                1500
            };
            proof {
                assert(d16 as int == gif_tick_delay(ticks@, k as int, tu));
            }
            let fb = self.generate_image(pct);
            frames.push((fb, d16));
            proof {
                assert(frames_view(frames@).skip(1) =~~= gif_fold(
                    gg0,
                    cleared_marks(xs, ys),
                    cv1,
                    c0,
                    ticks@,
                    self.open_data@,
                    self.flag_data@,
                    id,
                    xs,
                    ys,
                    tu,
                    k as int + 1,
                ).4);
            }
        }
        // the replay is finished: the event lists have been consumed
        self.open_data = Vec::new();
        self.flag_data = Vec::new();
        let out = self.encode_frames_to_gif(frames);
        proof {
            if out is Ok {
                assert(frames_view(frames@) =~~= seq![(f0, 100u16)] + frames_view(
                    frames@,
                ).skip(1));
                match &out {
                    Ok(v) => {
                        assert(render_gif_output(
                            *old(self),
                            self.game_board.grid(),
                            self.game_board.open_fields as int,
                            v@,
                            ticks@,
                        ));
                    },
                    Err(_) => {},
                }
            }
        }
        out
    }

    /// Encodes a list of full-raster frames as one infinitely looping
    /// animated image with Keep disposal. An empty list is refused.
    pub fn encode_frames_to_gif(&self, frames: Vec<(Vec<u8>, u16)>) -> (r: Result<
        Vec<u8>,
        MinesweeperError,
    >)
        requires
            self.wf(),
            forall|k: int|
                0 <= k < frames@.len() ==> (#[trigger] frames@[k]).0@.len() == 4 * self.img_w()
                    * self.img_h(),
        ensures
            frames@.len() == 0 ==> r == Err::<Vec<u8>, _>(MinesweeperError::NoFrames),
            r matches Ok(v) ==> frames@.len() > 0 && v@ == gif_bytes_of(
                self.img_w(),
                self.img_h(),
                frames_view(frames@),
            ),
            r matches Err(e) ==> e == MinesweeperError::NoFrames || e
                == MinesweeperError::GifEncoding,
            frames@.len() > 0 ==> r is Ok,
    {
        if frames.len() == 0 {
            return Err(MinesweeperError::NoFrames);
        }
        let w16: u16 = 32 * (self.metadata.x_size as u16);
        let h16: u16 = 32 * (self.metadata.y_size as u16) + 4;
        let mut sink = match gif_sink_new(w16, h16) {
            Ok(s) => s,
            Err(e) => {
                return Err(e);
            },
        };
        let mut fr = frames;
        while fr.len() > 0
            invariant
                self.wf(),
                w16 as int == self.img_w(),
                h16 as int == self.img_h(),
                gif_dims_of(&sink) == (self.img_w(), self.img_h()),
                frames@.len() > 0,
                forall|k: int|
                    0 <= k < fr@.len() ==> (#[trigger] fr@[k]).0@.len() == 4 * self.img_w()
                        * self.img_h(),
                frames_view(frames@) =~= gif_frames_of(&sink) + frames_view(fr@),
            decreases fr@.len(),
        {
            let (mut fb, d) = fr.remove(0);
            match gif_sink_write(&mut sink, w16, h16, &mut fb, d) {
                Ok(_) => {},
                Err(e) => {
                    return Err(e);
                },
            }
            proof {
                assert(frames_view(frames@) =~= gif_frames_of(&sink) + frames_view(fr@));
            }
        }
        proof {
            assert(frames_view(fr@) =~= Seq::<(Seq<u8>, u16)>::empty());
            assert(gif_frames_of(&sink) =~= frames_view(frames@));
        }
        gif_sink_finish(sink)
    }
}

} // verus!
