//! Sprite palettes and the sprite blitter. A sprite is a list of text rows, one byte per pixel;
//! '.' is transparent and every other byte is looked up in a palette.
use vstd::prelude::*;
use vstd::string::StringSliceAdditionalSpecFns;

use crate::level::cell;
use crate::render::{Framebuffer, Rgb, hex, hex_rgb};

verus! {

/// The hero and bot palette, as 0xRRGGBB; unknown bytes are white.
pub open spec fn pal_hex(ch: u8) -> u32 {
    if ch == 0x79 /* 'y' */ {
        0xf2c14e
    } else if ch == 0x73 /* 's' */ {
        0xe9b08a
    } else if ch == 0x72 /* 'r' */ {
        0xc8323c
    } else if ch == 0x62 /* 'b' */ {
        0x2f5fb3
    } else if ch == 0x6b /* 'k' */ {
        0x23232e
    } else if ch == 0x67 /* 'g' */ {
        0xa7b0ba
    } else if ch == 0x6d /* 'm' */ {
        0x7c8a99
    } else if ch == 0x64 /* 'd' */ {
        0x4a5563
    } else if ch == 0x65 /* 'e' */ {
        0xff4d4d
    } else {
        0xffffff
    }
}

/// The pickup palette: key yellow, health red, gem cyan, anything else white.
pub open spec fn pick_pal_hex(ch: u8) -> u32 {
    if ch == 0x79 /* 'y' */ {
        0xffd23f
    } else if ch == 0x72 /* 'r' */ {
        0xe23b3b
    } else if ch == 0x63 /* 'c' */ {
        0x6fe3ff
    } else {
        0xffffff
    }
}

/// Palette for hero and bot sprites.
pub fn pal(ch: u8) -> (c: Rgb)
    ensures
        c == hex_rgb(pal_hex(ch)),
{
    match ch {
        0x79 /* 'y' */ => hex(0xf2c14e),
        0x73 /* 's' */ => hex(0xe9b08a),
        0x72 /* 'r' */ => hex(0xc8323c),
        0x62 /* 'b' */ => hex(0x2f5fb3),
        0x6b /* 'k' */ => hex(0x23232e),
        0x67 /* 'g' */ => hex(0xa7b0ba),
        0x6d /* 'm' */ => hex(0x7c8a99),
        0x64 /* 'd' */ => hex(0x4a5563),
        0x65 /* 'e' */ => hex(0xff4d4d),
        _ => hex(0xffffff),
    }
}

/// Palette for pickups.
pub fn pick_pal(ch: u8) -> (c: Rgb)
    ensures
        c == hex_rgb(pick_pal_hex(ch)),
{
    match ch {
        0x79 /* 'y' */ => hex(0xffd23f),
        0x72 /* 'r' */ => hex(0xe23b3b),
        0x63 /* 'c' */ => hex(0x6fe3ff),
        _ => hex(0xffffff),
    }
}

/// The bytes of each sprite row.
pub open spec fn sprite_bytes(rows: Seq<&str>) -> Seq<Seq<u8>> {
    Seq::new(rows.len(), |i: int| rows[i].spec_bytes())
}

/// The sprite column that lands on framebuffer column `px`, for a row `w` bytes wide drawn at
/// `x`, mirrored if `flip`.
pub open spec fn sprite_col(x: int, w: int, flip: bool, px: int) -> int {
    if flip {
        x + w - 1 - px
    } else {
        px - x
    }
}

/// The opaque sprite byte that lands on framebuffer pixel (px, py), if any, for a sprite drawn
/// with its top-left corner at (x, y).
pub open spec fn sprite_at(rows: Seq<Seq<u8>>, x: int, y: int, flip: bool, px: int, py: int) -> Option<u8> {
    let r = py - y;
    if 0 <= r < rows.len() && 0 <= sprite_col(x, rows[r].len() as int, flip, px) < rows[r].len()
        && rows[r][sprite_col(x, rows[r].len() as int, flip, px)] != 0x2e /* '.' */ {
        Some(rows[r][sprite_col(x, rows[r].len() as int, flip, px)])
    } else {
        None
    }
}

/// Pixel (px, py) was drawn once the rows before `r` and the first `c` bytes of row `r` are done.
pub open spec fn drawn_before(rows: Seq<Seq<u8>>, x: int, y: int, flip: bool, px: int, py: int, r: int, c: int) -> bool {
    &&& sprite_at(rows, x, y, flip, px, py) is Some
    &&& (py - y < r || (py - y == r && sprite_col(x, rows[r].len() as int, flip, px) < c))
}

/// What pixel (px, py) holds while drawing: the palette color of its byte once drawn, else what
/// it held before.
pub open spec fn drawing<F: Fn(u8) -> Rgb>(
    old_px: Seq<Rgb>,
    new_px: Seq<Rgb>,
    w: int,
    rows: Seq<Seq<u8>>,
    x: int,
    y: int,
    flip: bool,
    color: F,
    r: int,
    c: int,
    px: int,
    py: int,
) -> bool {
    if drawn_before(rows, x, y, flip, px, py, r, c) {
        color.ensures((sprite_at(rows, x, y, flip, px, py)->0,), new_px[cell(w, px, py)])
    } else {
        new_px[cell(w, px, py)] == old_px[cell(w, px, py)]
    }
}

/// Draws a text sprite; '.' is transparent. `flip` mirrors it horizontally.
pub fn draw<F: Fn(u8) -> Rgb>(fb: &mut Framebuffer, rows: &[&str], x: i32, y: i32, flip: bool, color: F)
    requires
        old(fb).wf(),
        forall|ch: u8| color.requires((ch,)),
        rows@.len() <= i32::MAX,
        y + rows@.len() <= i32::MAX + 1,
        forall|r: int|
            0 <= r < rows@.len() ==> #[trigger] rows@[r].spec_bytes().len() <= i32::MAX && x
                + rows@[r].spec_bytes().len() <= i32::MAX + 1,
    ensures
        final(fb).wf(),
        final(fb).w == old(fb).w,
        final(fb).h == old(fb).h,
        forall|px: int, py: int|
            0 <= px < old(fb).w && 0 <= py < old(fb).h ==> match sprite_at(
                sprite_bytes(rows@),
                x as int,
                y as int,
                flip,
                px,
                py,
            ) {
                Some(ch) => color.ensures((ch,), #[trigger] final(fb).pixel(px, py)),
                None => final(fb).pixel(px, py) == old(fb).pixel(px, py),
            },
{
    let ghost bytes = sprite_bytes(rows@);
    let ghost old_px = fb.px@;
    let ghost w = fb.w as int;
    let ghost h = fb.h as int;
    let n = rows.len();
    let mut r: usize = 0;
    while r < n
        invariant
            n == rows@.len() == bytes.len(),
            bytes == sprite_bytes(rows@),
            r <= n,
            fb.wf(),
            fb.w == w,
            fb.h == h,
            old_px.len() == w * h,
            forall|ch: u8| color.requires((ch,)),
            n <= i32::MAX,
            y + n <= i32::MAX + 1,
            forall|k: int|
                0 <= k < rows@.len() ==> #[trigger] rows@[k].spec_bytes().len() <= i32::MAX && x
                    + rows@[k].spec_bytes().len() <= i32::MAX + 1,
            forall|px: int, py: int|
                0 <= px < w && 0 <= py < h ==> #[trigger] drawing(
                    old_px,
                    fb.px@,
                    w,
                    bytes,
                    x as int,
                    y as int,
                    flip,
                    color,
                    r as int,
                    0,
                    px,
                    py,
                ),
        decreases n - r,
    {
        let row = rows[r].as_bytes_vec();
        assert(row@ == bytes[r as int]);
        assert(rows@[r as int].spec_bytes().len() <= i32::MAX);
        let len = row.len();
        let wi = len as i32;
        let yy = y + r as i32;
        let mut c: usize = 0;
        while c < len
            invariant
                n == rows@.len() == bytes.len(),
                r < n,
                row@ == bytes[r as int],
                len == row@.len(),
                wi == len,
                len <= i32::MAX,
                x + len <= i32::MAX + 1,
                yy == y + r,
                c <= len,
                fb.wf(),
                fb.w == w,
                fb.h == h,
                old_px.len() == w * h,
                forall|ch: u8| color.requires((ch,)),
                forall|px: int, py: int|
                    0 <= px < w && 0 <= py < h ==> #[trigger] drawing(
                        old_px,
                        fb.px@,
                        w,
                        bytes,
                        x as int,
                        y as int,
                        flip,
                        color,
                        r as int,
                        c as int,
                        px,
                        py,
                    ),
            decreases len - c,
        {
            let ch = row[c];
            if ch != 0x2e /* '.' */ {
                let ci = c as i32;
                let tx = if flip {
                    x + (wi - 1 - ci)
                } else {
                    x + ci
                };
                let col = color(ch);
                let ghost before = fb.px@;
                fb.put(tx, yy, col);
                proof {
                    assert forall|px: int, py: int| 0 <= px < w && 0 <= py < h implies #[trigger] drawing(
                        old_px,
                        fb.px@,
                        w,
                        bytes,
                        x as int,
                        y as int,
                        flip,
                        color,
                        r as int,
                        c + 1,
                        px,
                        py,
                    ) by {
                        assert(drawing(old_px, before, w, bytes, x as int, y as int, flip, color, r as int, c as int, px, py));
                        crate::level::lemma_cell_in_bounds(w, h, px, py);
                        if px == tx && py == yy {
                            assert(sprite_col(x as int, len as int, flip, px) == c);
                        } else if 0 <= tx < w && 0 <= yy < h {
                            crate::level::lemma_cell_in_bounds(w, h, tx as int, yy as int);
                            if cell(w, px, py) == cell(w, tx as int, yy as int) {
                                crate::level::lemma_cell_unique(w, px, py, tx as int, yy as int);
                            }
                        }
                    }
                }
            } else {
                proof {
                    assert forall|px: int, py: int| 0 <= px < w && 0 <= py < h implies #[trigger] drawing(
                        old_px,
                        fb.px@,
                        w,
                        bytes,
                        x as int,
                        y as int,
                        flip,
                        color,
                        r as int,
                        c + 1,
                        px,
                        py,
                    ) by {
                        assert(drawing(old_px, fb.px@, w, bytes, x as int, y as int, flip, color, r as int, c as int, px, py));
                    }
                }
            }
            c = c + 1;
        }
        proof {
            assert forall|px: int, py: int| 0 <= px < w && 0 <= py < h implies #[trigger] drawing(
                old_px,
                fb.px@,
                w,
                bytes,
                x as int,
                y as int,
                flip,
                color,
                r + 1,
                0,
                px,
                py,
            ) by {
                assert(drawing(old_px, fb.px@, w, bytes, x as int, y as int, flip, color, r as int, len as int, px, py));
            }
        }
        r = r + 1;
    }
    proof {
        assert forall|px: int, py: int| 0 <= px < w && 0 <= py < h implies match sprite_at(
            sprite_bytes(rows@),
            x as int,
            y as int,
            flip,
            px,
            py,
        ) {
            Some(ch) => color.ensures((ch,), #[trigger] fb.pixel(px, py)),
            None => fb.pixel(px, py) == old_px[py * w + px],
        } by {
            assert(drawing(old_px, fb.px@, w, bytes, x as int, y as int, flip, color, n as int, 0, px, py));
        }
    }
}


/// A flipped sprite is the mirror image of the unflipped one: each row is reflected about its
/// own middle, at x + (w - 1) / 2.
pub proof fn lemma_flip_mirrors(rows: Seq<Seq<u8>>, x: int, y: int, px: int, py: int)
    requires
        0 <= py - y < rows.len(),
    ensures
        sprite_at(rows, x, y, true, px, py) == sprite_at(rows, x, y, false, 2 * x + rows[py - y].len() - 1 - px, py),
{
}

} // verus!
