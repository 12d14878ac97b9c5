//! How the static tiles look: each 4 x 4 tile is drawn pixel by pixel from its kind, its
//! neighbours, the hero's keys and the frame counter.
use vstd::prelude::*;

use crate::level::{Color, Keys, Level, Tile, cell, holds};
use crate::render::{Framebuffer, Rgb, hex, hex_rgb};

verus! {

/// Brick shades, mortar and the lit top edge of a brick wall.
pub open spec fn brick_a() -> Rgb {
    hex_rgb(0x8a4130)
}

pub open spec fn brick_b() -> Rgb {
    hex_rgb(0x7a3527)
}

pub open spec fn brick_c() -> Rgb {
    hex_rgb(0x933f2b)
}

pub open spec fn mortar() -> Rgb {
    hex_rgb(0x3d1c16)
}

pub open spec fn brick_top() -> Rgb {
    hex_rgb(0xc0673f)
}

/// The color of the key (and the HUD mark) of color `c`.
pub open spec fn key_color_hex(c: Color) -> u32 {
    match c {
        Color::Red => 0xe5484d,
        Color::Green => 0x46c263,
        Color::Blue => 0x4d8ff0,
        Color::Yellow => 0xffd23f,
    }
}

/// The light and dark shade of a door of color `c`.
pub open spec fn door_hex(c: Color) -> (u32, u32) {
    match c {
        Color::Red => (0xe5484d, 0x7a1f22),
        Color::Green => (0x46c263, 0x1d5a2b),
        Color::Blue => (0x4d8ff0, 0x1f3f75),
        Color::Yellow => (0xffd23f, 0x7a6012),
    }
}

/// The color of the key (and the HUD mark) of color `c`.
pub fn key_color(c: Color) -> (r: Rgb)
    ensures
        r == hex_rgb(key_color_hex(c)),
{
    match c {
        Color::Red => hex(0xe5484d),
        Color::Green => hex(0x46c263),
        Color::Blue => hex(0x4d8ff0),
        Color::Yellow => hex(0xffd23f),
    }
}

/// The light and dark shade of a door of color `c`.
pub fn door_colors(c: Color) -> (r: (Rgb, Rgb))
    ensures
        r == (hex_rgb(door_hex(c).0), hex_rgb(door_hex(c).1)),
{
    match c {
        Color::Red => (hex(0xe5484d), hex(0x7a1f22)),
        Color::Green => (hex(0x46c263), hex(0x1d5a2b)),
        Color::Blue => (hex(0x4d8ff0), hex(0x1f3f75)),
        Color::Yellow => (hex(0xffd23f), hex(0x7a6012)),
    }
}

/// The per-tile shade of a brick, fixed per position: 0..=6.
pub open spec fn brick_hash(tx: i32, ty: i32) -> u32 {
    ((tx as u32).wrapping_mul(73856093u32) ^ (ty as u32).wrapping_mul(19349663u32)) % 7
}

/// Pixel (lx, ly) of the brick tile at (tx, ty): mortar lines, offset every other row, a lit
/// top where the tile above is no brick, else one of three shades.
pub open spec fn brick_pixel(map: &Level, tx: i32, ty: i32, lx: i32, ly: i32) -> Rgb {
    if ly == 3 || lx == (if ty % 2 == 1 {
        1i32
    } else {
        3i32
    }) {
        mortar()
    } else if ly == 0 && (match map.tile(tx as int, ty - 1) {
        Some(a) => !(a is Brick || a is Cracked),
        None => false,
    }) {
        brick_top()
    } else if brick_hash(tx, ty) < 3 {
        brick_a()
    } else if brick_hash(tx, ty) < 5 {
        brick_b()
    } else {
        brick_c()
    }
}

/// Pixel (lx, ly) of a brick tile.
pub fn brick(map: &Level, tx: i32, ty: i32, lx: i32, ly: i32) -> (c: Rgb)
    requires
        map.wf(),
        0 <= tx,
        0 <= ty,
    ensures
        c == brick_pixel(map, tx, ty, lx, ly),
{
    let offset: i32 = if ty % 2 == 1 {
        1
    } else {
        3
    };
    if ly == 3 || lx == offset {
        return hex(0x3d1c16);
    }
    if ly == 0 {
        match map.get(tx, ty - 1) {
            Some(Tile::Brick) | Some(Tile::Cracked) | None => {},
            Some(_) => {
                return hex(0xc0673f);
            },
        }
    }
    let h = ((tx as u32).wrapping_mul(73856093) ^ (ty as u32).wrapping_mul(19349663)) % 7;
    if h < 3 {
        hex(0x8a4130)
    } else if h < 5 {
        hex(0x7a3527)
    } else {
        hex(0x933f2b)
    }
}

/// The cracks drawn over a cracked wall.
pub open spec fn is_crack(lx: i32, ly: i32) -> bool {
    (lx == 1 && ly == 0) || (lx == 2 && ly == 1) || (lx == 1 && ly == 2) || (lx == 2 && ly == 3)
}

/// Pixel (lx, ly) of tile `t` at (tx, ty), or None where the tile is transparent: walls and
/// crates are filled, gates are bars, girders their top half, doors a frame (only the frame once
/// the hero holds their key) with a crawling shade, exits a frame that blinks.
pub open spec fn tile_pixel_spec(map: &Level, keys: Keys, frame: u32, t: Tile, tx: i32, ty: i32, lx: i32, ly: i32) -> Option<Rgb> {
    let edge = lx == 0 || lx == 3;
    match t {
        Tile::Brick => Some(brick_pixel(map, tx, ty, lx, ly)),
        Tile::Cracked => Some(if is_crack(lx, ly) {
            hex_rgb(0x2a120d)
        } else {
            brick_pixel(map, tx, ty, lx, ly)
        }),
        Tile::Gate => if lx % 2 == 0 {
            Some(hex_rgb(0x9aa3b5))
        } else {
            None
        },
        Tile::Crate => Some(if edge || ly == 0 || ly == 3 {
            hex_rgb(0x6b4423)
        } else if lx == ly || lx + ly == 3 {
            hex_rgb(0x8a5a2e)
        } else {
            hex_rgb(0xb07a3e)
        }),
        Tile::Girder => if ly == 0 {
            Some(hex_rgb(0xe0a33a))
        } else if ly == 1 {
            Some(if lx == 2 {
                hex_rgb(0x4a3310)
            } else {
                hex_rgb(0xb07a22)
            })
        } else {
            None
        },
        Tile::Door(c) => if holds(keys, c) {
            if edge {
                Some(hex_rgb(0x2b3140))
            } else {
                None
            }
        } else {
            Some(if edge {
                hex_rgb(0x2b3140)
            } else if (lx + ly + (frame >> 3u32) as int) % 4 == 0 {
                hex_rgb(door_hex(c).1)
            } else {
                hex_rgb(door_hex(c).0)
            })
        },
        Tile::Exit => Some(if (edge || (map.tile(tx as int, ty - 1) != Some(Tile::Exit) && ly == 0)) && (frame >> 4u32)
            % 2 == 0 {
            hex_rgb(0x3ddc84)
        } else {
            hex_rgb(0x0f3d25)
        }),
        Tile::Empty => None,
    }
}

/// Pixel (lx, ly) of tile `t` at (tx, ty) in `map`, for a hero holding `keys` on frame `frame`.
pub fn tile_pixel(map: &Level, keys: Keys, frame: u32, t: Tile, tx: i32, ty: i32, lx: i32, ly: i32) -> (c: Option<Rgb>)
    requires
        map.wf(),
        0 <= tx,
        0 <= ty,
        0 <= lx < 4,
        0 <= ly < 4,
    ensures
        c == tile_pixel_spec(map, keys, frame, t, tx, ty, lx, ly),
{
    let edge = lx == 0 || lx == 3;
    match t {
        Tile::Brick => Some(brick(map, tx, ty, lx, ly)),
        Tile::Cracked => {
            if (lx == 1 && ly == 0) || (lx == 2 && ly == 1) || (lx == 1 && ly == 2) || (lx == 2 && ly == 3) {
                Some(hex(0x2a120d))
            } else {
                Some(brick(map, tx, ty, lx, ly))
            }
        },
        Tile::Gate => {
            if lx % 2 == 0 {
                Some(hex(0x9aa3b5))
            } else {
                None
            }
        },
        Tile::Crate => {
            if edge || ly == 0 || ly == 3 {
                Some(hex(0x6b4423))
            } else if lx == ly || lx + ly == 3 {
                Some(hex(0x8a5a2e))
            } else {
                Some(hex(0xb07a3e))
            }
        },
        Tile::Girder => {
            if ly == 0 {
                Some(hex(0xe0a33a))
            } else if ly == 1 {
                if lx == 2 {
                    Some(hex(0x4a3310))
                } else {
                    Some(hex(0xb07a22))
                }
            } else {
                None
            }
        },
        Tile::Door(c) => {
            if keys.has(c) {
                if edge {
                    Some(hex(0x2b3140))
                } else {
                    None
                }
            } else {
                let (light, dark) = door_colors(c);
                assert(frame >> 3u32 <= 0x1fffffffu32) by (bit_vector);
                let crawl = (frame >> 3) as i32;
                if edge {
                    Some(hex(0x2b3140))
                } else if (lx + ly + crawl) % 4 == 0 {
                    Some(dark)
                } else {
                    Some(light)
                }
            }
        },
        Tile::Exit => {
            let top = match map.get(tx, ty - 1) {
                Some(Tile::Exit) => false,
                _ => true,
            };
            let on = (frame >> 4) % 2 == 0;
            if (edge || (top && ly == 0)) && on {
                Some(hex(0x3ddc84))
            } else {
                Some(hex(0x0f3d25))
            }
        },
        Tile::Empty => None,
    }
}


/// What pixel (px, py) of the view shows of tile `t` at (tx, ty), with the view's top-left at
/// level pixel (cam_x, cam_y): the tile's pixel there if the pixel lies on the tile and the tile
/// is opaque there.
pub open spec fn tile_over(
    map: &Level,
    keys: Keys,
    frame: u32,
    t: Tile,
    tx: i32,
    ty: i32,
    cam_x: int,
    cam_y: int,
    px: int,
    py: int,
) -> Option<Rgb> {
    if (px + cam_x) / 4 == tx && (py + cam_y) / 4 == ty {
        tile_pixel_spec(map, keys, frame, t, tx, ty, ((px + cam_x) % 4) as i32, ((py + cam_y) % 4) as i32)
    } else {
        None
    }
}

/// Pixel (px, py) drawn so far: the first `ly` rows of the tile and `lx` pixels of row `ly`.
pub open spec fn tile_drawn(
    old_px: Seq<Rgb>,
    new_px: Seq<Rgb>,
    w: int,
    map: &Level,
    keys: Keys,
    frame: u32,
    t: Tile,
    tx: i32,
    ty: i32,
    cam_x: int,
    cam_y: int,
    lx: int,
    ly: int,
    px: int,
    py: int,
) -> bool {
    if ((py + cam_y) % 4 < ly || ((py + cam_y) % 4 == ly && (px + cam_x) % 4 < lx)) && tile_over(
        map,
        keys,
        frame,
        t,
        tx,
        ty,
        cam_x,
        cam_y,
        px,
        py,
    ) is Some {
        new_px[cell(w, px, py)] == tile_over(map, keys, frame, t, tx, ty, cam_x, cam_y, px, py)->0
    } else {
        new_px[cell(w, px, py)] == old_px[cell(w, px, py)]
    }
}

/// Draws tile `t` at (tx, ty) into the view whose top-left is level pixel (cam_x, cam_y).
fn draw_tile(fb: &mut Framebuffer, map: &Level, keys: Keys, frame: u32, t: Tile, tx: i32, ty: i32, cam_x: i32, cam_y: i32)
    requires
        old(fb).wf(),
        map.wf(),
        0 <= tx,
        0 <= ty,
        0 <= cam_x,
        0 <= cam_y,
        tx * 4 + 4 <= i32::MAX,
        ty * 4 + 4 <= i32::MAX,
    ensures
        final(fb).wf(),
        final(fb).w == old(fb).w,
        final(fb).h == old(fb).h,
        forall|px: int, py: int|
            0 <= px < old(fb).w && 0 <= py < old(fb).h ==> #[trigger] final(fb).px@[cell(old(fb).w as int, px, py)]
                == match tile_over(map, keys, frame, t, tx, ty, cam_x as int, cam_y as int, px, py) {
                Some(c) => c,
                None => old(fb).px@[cell(old(fb).w as int, px, py)],
            },
{
    let ghost old_px = fb.px@;
    let ghost w = fb.w as int;
    let ghost h = fb.h as int;
    let x = tx * 4 - cam_x;
    let y = ty * 4 - cam_y;
    let mut ly: i32 = 0;
    while ly < 4
        invariant
            0 <= ly <= 4,
            fb.wf(),
            fb.w == w,
            fb.h == h,
            old_px.len() == w * h,
            map.wf(),
            0 <= tx,
            0 <= ty,
            0 <= cam_x,
            0 <= cam_y,
            x == tx * 4 - cam_x,
            y == ty * 4 - cam_y,
            tx * 4 + 4 <= i32::MAX,
            ty * 4 + 4 <= i32::MAX,
            forall|px: int, py: int|
                0 <= px < w && 0 <= py < h ==> #[trigger] tile_drawn(
                    old_px,
                    fb.px@,
                    w,
                    map,
                    keys,
                    frame,
                    t,
                    tx,
                    ty,
                    cam_x as int,
                    cam_y as int,
                    0,
                    ly as int,
                    px,
                    py,
                ),
        decreases 4 - ly,
    {
        let mut lx: i32 = 0;
        while lx < 4
            invariant
                0 <= ly < 4,
                0 <= lx <= 4,
                fb.wf(),
                fb.w == w,
                fb.h == h,
                old_px.len() == w * h,
                map.wf(),
                0 <= tx,
                0 <= ty,
                0 <= cam_x,
                0 <= cam_y,
                x == tx * 4 - cam_x,
                y == ty * 4 - cam_y,
                tx * 4 + 4 <= i32::MAX,
                ty * 4 + 4 <= i32::MAX,
                forall|px: int, py: int|
                    0 <= px < w && 0 <= py < h ==> #[trigger] tile_drawn(
                        old_px,
                        fb.px@,
                        w,
                        map,
                        keys,
                        frame,
                        t,
                        tx,
                        ty,
                        cam_x as int,
                        cam_y as int,
                        lx as int,
                        ly as int,
                        px,
                        py,
                    ),
            decreases 4 - lx,
        {
            let c = tile_pixel(map, keys, frame, t, tx, ty, lx, ly);
            let ghost before = fb.px@;
            let qx = x + lx;
            let qy = y + ly;
            proof {
                vstd::arithmetic::div_mod::lemma_fundamental_div_mod_converse(tx * 4 + lx, 4, tx as int, lx as int);
                vstd::arithmetic::div_mod::lemma_fundamental_div_mod_converse(ty * 4 + ly, 4, ty as int, ly as int);
            }
            match c {
                Some(color) => {
                    fb.put(qx, qy, color);
                },
                None => {},
            }
            proof {
                assert forall|px: int, py: int| 0 <= px < w && 0 <= py < h implies #[trigger] tile_drawn(
                    old_px,
                    fb.px@,
                    w,
                    map,
                    keys,
                    frame,
                    t,
                    tx,
                    ty,
                    cam_x as int,
                    cam_y as int,
                    lx + 1,
                    ly as int,
                    px,
                    py,
                ) by {
                    assert(tile_drawn(old_px, before, w, map, keys, frame, t, tx, ty, cam_x as int, cam_y as int, lx as int, ly as int, px, py));
                    crate::level::lemma_cell_in_bounds(w, h, px, py);
                    let wx = px + cam_x;
                    let wy = py + cam_y;
                    vstd::arithmetic::div_mod::lemma_fundamental_div_mod(wx, 4);
                    vstd::arithmetic::div_mod::lemma_fundamental_div_mod(wy, 4);
                    if px == qx && py == qy {
                        assert(wx == tx * 4 + lx);
                        assert(wy == ty * 4 + ly);
                    } else {
                        if wx % 4 == lx && wy % 4 == ly && wx / 4 == tx && wy / 4 == ty {
                            assert(px == qx && py == qy);
                        }
                        if c is Some && 0 <= qx < w && 0 <= qy < h {
                            crate::level::lemma_cell_in_bounds(w, h, qx as int, qy as int);
                            if cell(w, px, py) == cell(w, qx as int, qy as int) {
                                crate::level::lemma_cell_unique(w, px, py, qx as int, qy as int);
                            }
                        }
                    }
                }
            }
            lx = lx + 1;
        }
        proof {
            assert forall|px: int, py: int| 0 <= px < w && 0 <= py < h implies #[trigger] tile_drawn(
                old_px,
                fb.px@,
                w,
                map,
                keys,
                frame,
                t,
                tx,
                ty,
                cam_x as int,
                cam_y as int,
                0,
                ly + 1,
                px,
                py,
            ) by {
                assert(tile_drawn(old_px, fb.px@, w, map, keys, frame, t, tx, ty, cam_x as int, cam_y as int, 4, ly as int, px, py));
                vstd::arithmetic::div_mod::lemma_mod_bound(px + cam_x, 4);
            }
        }
        ly = ly + 1;
    }
    proof {
        assert forall|px: int, py: int| 0 <= px < w && 0 <= py < h implies #[trigger] fb.px@[cell(w, px, py)] == match tile_over(
            map,
            keys,
            frame,
            t,
            tx,
            ty,
            cam_x as int,
            cam_y as int,
            px,
            py,
        ) {
            Some(c) => c,
            None => old_px[cell(w, px, py)],
        } by {
            assert(tile_drawn(old_px, fb.px@, w, map, keys, frame, t, tx, ty, cam_x as int, cam_y as int, 0, 4, px, py));
            vstd::arithmetic::div_mod::lemma_mod_bound(py + cam_y, 4);
        }
    }
}


/// What view pixel (px, py) shows of the tile layer: the opaque pixel of the tile under it, for
/// the tiles up to column `tx1` and row `ty1`.
pub open spec fn tiles_view(
    map: &Level,
    keys: Keys,
    frame: u32,
    cam_x: int,
    cam_y: int,
    tx1: int,
    ty1: int,
    px: int,
    py: int,
) -> Option<Rgb> {
    if (px + cam_x) / 4 <= tx1 && (py + cam_y) / 4 <= ty1 {
        match map.tile((px + cam_x) / 4, (py + cam_y) / 4) {
            Some(t) => tile_over(
                map,
                keys,
                frame,
                t,
                ((px + cam_x) / 4) as i32,
                ((py + cam_y) / 4) as i32,
                cam_x,
                cam_y,
                px,
                py,
            ),
            None => None,
        }
    } else {
        None
    }
}

/// The last visible tile column (or row) of a view `view` pixels wide starting at `cam`, in a
/// level `n` tiles wide.
pub open spec fn last_visible(cam: int, view: int, n: int) -> int {
    if (cam + view - 1) / 4 <= n - 1 {
        (cam + view - 1) / 4
    } else {
        n - 1
    }
}

/// Pixel (px, py) once the tiles before (tx, ty), row by row, are drawn.
pub open spec fn tiles_drawn(
    old_px: Seq<Rgb>,
    new_px: Seq<Rgb>,
    w: int,
    map: &Level,
    keys: Keys,
    frame: u32,
    cam_x: int,
    cam_y: int,
    tx1: int,
    ty1: int,
    tx: int,
    ty: int,
    px: int,
    py: int,
) -> bool {
    if ((py + cam_y) / 4 < ty || ((py + cam_y) / 4 == ty && (px + cam_x) / 4 < tx)) && tiles_view(
        map,
        keys,
        frame,
        cam_x,
        cam_y,
        tx1,
        ty1,
        px,
        py,
    ) is Some {
        new_px[cell(w, px, py)] == tiles_view(map, keys, frame, cam_x, cam_y, tx1, ty1, px, py)->0
    } else {
        new_px[cell(w, px, py)] == old_px[cell(w, px, py)]
    }
}

/// Draws the tiles in view, a `view_w` x `view_h` pixel window whose top-left is level pixel
/// (cam_x, cam_y), for a hero holding `keys` on frame `frame`.
pub fn render_tiles(fb: &mut Framebuffer, map: &Level, keys: Keys, frame: u32, cam_x: i32, cam_y: i32, view_w: i32, view_h: i32)
    requires
        old(fb).wf(),
        map.wf(),
        0 <= cam_x,
        0 <= cam_y,
        1 <= view_w,
        1 <= view_h,
        cam_x + view_w <= i32::MAX,
        cam_y + view_h <= i32::MAX,
        map.w * 4 + 4 <= i32::MAX,
        map.h * 4 + 4 <= i32::MAX,
    ensures
        final(fb).wf(),
        final(fb).w == old(fb).w,
        final(fb).h == old(fb).h,
        forall|px: int, py: int|
            0 <= px < old(fb).w && 0 <= py < old(fb).h ==> #[trigger] final(fb).px@[cell(old(fb).w as int, px, py)]
                == match tiles_view(
                map,
                keys,
                frame,
                cam_x as int,
                cam_y as int,
                last_visible(cam_x as int, view_w as int, map.w as int),
                last_visible(cam_y as int, view_h as int, map.h as int),
                px,
                py,
            ) {
                Some(c) => c,
                None => old(fb).px@[cell(old(fb).w as int, px, py)],
            },
{
    let ghost old_px = fb.px@;
    let ghost w = fb.w as int;
    let ghost h = fb.h as int;
    let mw = map.w as i32;
    let mh = map.h as i32;
    let tx0 = cam_x / 4;
    let ty0 = cam_y / 4;
    let ex = (cam_x + view_w - 1) / 4;
    let ey = (cam_y + view_h - 1) / 4;
    let tx1 = if ex <= mw - 1 {
        ex
    } else {
        mw - 1
    };
    let ty1 = if ey <= mh - 1 {
        ey
    } else {
        mh - 1
    };
    let ghost gx1 = last_visible(cam_x as int, view_w as int, map.w as int);
    let ghost gy1 = last_visible(cam_y as int, view_h as int, map.h as int);
    assert(tx1 == gx1 && ty1 == gy1);
    let mut ty = ty0;
    while ty <= ty1
        invariant
            fb.wf(),
            fb.w == w,
            fb.h == h,
            old_px.len() == w * h,
            map.wf(),
            0 <= cam_x,
            0 <= cam_y,
            map.w * 4 + 4 <= i32::MAX,
            map.h * 4 + 4 <= i32::MAX,
            tx0 == cam_x / 4,
            ty0 == cam_y / 4,
            tx1 == gx1,
            ty1 == gy1,
            tx1 < map.w,
            ty1 < map.h,
            ty0 <= ty <= ty1 + 1 || ty == ty0,
            forall|px: int, py: int|
                0 <= px < w && 0 <= py < h ==> #[trigger] tiles_drawn(
                    old_px,
                    fb.px@,
                    w,
                    map,
                    keys,
                    frame,
                    cam_x as int,
                    cam_y as int,
                    gx1,
                    gy1,
                    tx0 as int,
                    ty as int,
                    px,
                    py,
                ),
        decreases ty1 + 1 - ty,
    {
        let mut tx = tx0;
        while tx <= tx1
            invariant
                fb.wf(),
                fb.w == w,
                fb.h == h,
                old_px.len() == w * h,
                map.wf(),
                0 <= cam_x,
                0 <= cam_y,
                map.w * 4 + 4 <= i32::MAX,
                map.h * 4 + 4 <= i32::MAX,
                tx0 == cam_x / 4,
                ty0 == cam_y / 4,
                tx1 == gx1,
                ty1 == gy1,
                tx1 < map.w,
                ty1 < map.h,
                ty0 <= ty <= ty1,
                tx0 <= tx <= tx1 + 1 || tx == tx0,
                forall|px: int, py: int|
                    0 <= px < w && 0 <= py < h ==> #[trigger] tiles_drawn(
                        old_px,
                        fb.px@,
                        w,
                        map,
                        keys,
                        frame,
                        cam_x as int,
                        cam_y as int,
                        gx1,
                        gy1,
                        tx as int,
                        ty as int,
                        px,
                        py,
                    ),
            decreases tx1 + 1 - tx,
        {
            let ghost before = fb.px@;
            let here = map.get(tx, ty);
            match here {
                Some(t) => {
                    draw_tile(fb, map, keys, frame, t, tx, ty, cam_x, cam_y);
                },
                None => {},
            }
            proof {
                assert forall|px: int, py: int| 0 <= px < w && 0 <= py < h implies #[trigger] tiles_drawn(
                    old_px,
                    fb.px@,
                    w,
                    map,
                    keys,
                    frame,
                    cam_x as int,
                    cam_y as int,
                    gx1,
                    gy1,
                    tx + 1,
                    ty as int,
                    px,
                    py,
                ) by {
                    assert(tiles_drawn(old_px, before, w, map, keys, frame, cam_x as int, cam_y as int, gx1, gy1, tx as int, ty as int, px, py));
                    vstd::arithmetic::div_mod::lemma_div_is_ordered(cam_x as int, px + cam_x, 4);
                    vstd::arithmetic::div_mod::lemma_div_is_ordered(cam_y as int, py + cam_y, 4);
                }
            }
            tx = tx + 1;
        }
        proof {
            assert forall|px: int, py: int| 0 <= px < w && 0 <= py < h implies #[trigger] tiles_drawn(
                old_px,
                fb.px@,
                w,
                map,
                keys,
                frame,
                cam_x as int,
                cam_y as int,
                gx1,
                gy1,
                tx0 as int,
                ty + 1,
                px,
                py,
            ) by {
                assert(tiles_drawn(old_px, fb.px@, w, map, keys, frame, cam_x as int, cam_y as int, gx1, gy1, tx as int, ty as int, px, py));
                vstd::arithmetic::div_mod::lemma_div_is_ordered(cam_x as int, px + cam_x, 4);
            }
        }
        ty = ty + 1;
    }
    proof {
        assert forall|px: int, py: int| 0 <= px < w && 0 <= py < h implies #[trigger] fb.px@[cell(w, px, py)] == match tiles_view(
            map,
            keys,
            frame,
            cam_x as int,
            cam_y as int,
            gx1,
            gy1,
            px,
            py,
        ) {
            Some(c) => c,
            None => old_px[cell(w, px, py)],
        } by {
            assert(tiles_drawn(old_px, fb.px@, w, map, keys, frame, cam_x as int, cam_y as int, gx1, gy1, tx0 as int, ty as int, px, py));
            vstd::arithmetic::div_mod::lemma_div_is_ordered(cam_y as int, py + cam_y, 4);
        }
    }
}

} // verus!
