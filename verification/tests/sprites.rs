use akvisionator::render::{Framebuffer, Rgb, hex};
use akvisionator::sprites::{draw, pal, pick_pal};

#[test]
fn palettes_map_letters_to_colors_and_default_to_white() {
    assert_eq!(pal(b'y'), hex(0xf2c14e));
    assert_eq!(pal(b'k'), hex(0x23232e));
    assert_eq!(pal(b'e'), hex(0xff4d4d));
    assert_eq!(pal(b'?'), Rgb(255, 255, 255));
    assert_eq!(pick_pal(b'y'), hex(0xffd23f));
    assert_eq!(pick_pal(b'r'), hex(0xe23b3b));
    assert_eq!(pick_pal(b'c'), hex(0x6fe3ff));
    assert_eq!(pick_pal(b's'), Rgb(255, 255, 255));
}

#[test]
fn dots_are_transparent_and_flip_mirrors_each_row() {
    let rows = ["yb.", "k"];
    let mut fb = Framebuffer::new(5, 3);
    draw(&mut fb, &rows, 1, 1, false, pal);
    assert_eq!(fb.get(1, 1), pal(b'y'));
    assert_eq!(fb.get(2, 1), pal(b'b'));
    assert_eq!(fb.get(3, 1), Rgb::default());
    assert_eq!(fb.get(1, 2), pal(b'k'));

    let mut fb = Framebuffer::new(5, 3);
    draw(&mut fb, &rows, 1, 1, true, pal);
    assert_eq!(fb.get(3, 1), pal(b'y'));
    assert_eq!(fb.get(2, 1), pal(b'b'));
    assert_eq!(fb.get(1, 1), Rgb::default());
    // A one-pixel row mirrors onto itself.
    assert_eq!(fb.get(1, 2), pal(b'k'));
}

#[test]
fn sprites_are_clipped_at_the_framebuffer_edge() {
    let mut fb = Framebuffer::new(2, 2);
    draw(&mut fb, &["yyy", "yyy", "yyy"], -1, -1, false, |_| Rgb(5, 5, 5));
    assert!((0..2).all(|y| (0..2).all(|x| fb.get(x, y) == Rgb(5, 5, 5))));
}
