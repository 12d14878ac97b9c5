use akvisionator::render::{Cell, Framebuffer, Rgb, Screen, hex};


/// The image size for `fb` in `cols` x `rows` cells: the largest uniform scale that fits,
/// worked out in f32 and truncated, as the game does.
fn scaled(fb: &Framebuffer, cols: usize, rows: usize) -> (usize, usize) {
    let (w, h) = (cols, rows * 2);
    let scale = (w as f32 / fb.w as f32).min(h as f32 / fb.h as f32);
    ((fb.w as f32 * scale) as usize, (fb.h as f32 * scale) as usize)
}

#[test]
fn half_block_uses_top_as_fg_and_bottom_as_bg() {
    let mut fb = Framebuffer::new(2, 2);
    fb.put(0, 0, Rgb(1, 2, 3));
    fb.put(0, 1, Rgb(4, 5, 6));
    let mut s = Screen::new(2, 1);
    let (iw, ih) = scaled(&fb, s.cols, s.rows);
    s.blit(&fb, 0, s.rows, Rgb::default(), iw, ih);
    let mut out = Vec::new();
    s.flush(&mut out);
    let out = String::from_utf8(out).unwrap();
    assert!(out.starts_with("\x1b[1;1H\x1b[38;2;1;2;3m\x1b[48;2;4;5;6m▀"), "{out:?}");
}

#[test]
fn unchanged_frame_writes_nothing_and_one_change_writes_one_cell() {
    let mut fb = Framebuffer::new(4, 4);
    let mut s = Screen::new(4, 2);
    let (iw, ih) = scaled(&fb, s.cols, s.rows);
    s.blit(&fb, 0, s.rows, Rgb::default(), iw, ih);
    s.flush(&mut Vec::new());

    let mut out = Vec::new();
    let (iw, ih) = scaled(&fb, s.cols, s.rows);
    s.blit(&fb, 0, s.rows, Rgb::default(), iw, ih);
    s.flush(&mut out);
    assert!(out.is_empty());

    fb.put(3, 3, Rgb(9, 9, 9));
    let (iw, ih) = scaled(&fb, s.cols, s.rows);
    s.blit(&fb, 0, s.rows, Rgb::default(), iw, ih);
    s.flush(&mut out);
    let out = String::from_utf8(out).unwrap();
    assert_eq!(out.matches('▀').count(), 1);
    assert!(out.starts_with("\x1b[2;4H"));
}

#[test]
fn scales_uniformly_and_centers_with_border() {
    // 2x2 image into 6 cols x 2 rows (6x4 px): scale 2, one border column each side.
    let mut fb = Framebuffer::new(2, 2);
    fb.put(1, 1, Rgb(9, 9, 9));
    let border = Rgb(1, 1, 1);
    let mut s = Screen::new(6, 2);
    let (iw, ih) = scaled(&fb, 6, 2);
    s.blit(&fb, 0, 2, border, iw, ih);
    let at = |c: usize, r: usize| s.cells[r * s.cols + c];
    assert_eq!((at(0, 0).fg, at(5, 1).bg), (border, border));
    assert_eq!((at(1, 0).fg, at(2, 0).bg), (Rgb::default(), Rgb::default()));
    assert_eq!((at(3, 1).fg, at(4, 1).bg), (Rgb(9, 9, 9), Rgb(9, 9, 9)));
    assert_eq!(at(2, 1).fg, Rgb::default());
}

#[test]
fn hex_splits_into_channels() {
    assert_eq!(hex(0x3ddc84), Rgb(0x3d, 0xdc, 0x84));
    assert_eq!(hex(0xffffff), Rgb(255, 255, 255));
    assert_eq!(Rgb::default(), Rgb(0, 0, 0));
}

#[test]
fn reading_back_a_write_gives_the_color_and_off_screen_writes_are_dropped() {
    let mut fb = Framebuffer::new(3, 2);
    fb.put(2, 1, Rgb(7, 8, 9));
    assert_eq!(fb.get(2, 1), Rgb(7, 8, 9));
    fb.put(-1, 0, Rgb(1, 1, 1));
    fb.put(3, 0, Rgb(1, 1, 1));
    fb.put(0, 2, Rgb(1, 1, 1));
    assert!(fb.px.iter().filter(|&&c| c == Rgb(1, 1, 1)).count() == 0);
}

#[test]
fn text_writes_one_cell_per_char_and_clips_at_the_edge() {
    let mut s = Screen::new(5, 2);
    let next = s.text(3, 1, "héllo", Rgb(1, 0, 0), Rgb(0, 0, 1));
    assert_eq!(next, 8);
    assert_eq!(s.cells[5 + 3], Cell { ch: 'h', fg: Rgb(1, 0, 0), bg: Rgb(0, 0, 1) });
    assert_eq!(s.cells[5 + 4].ch, 'é');
    assert_eq!(s.cells[0].ch, ' ');
    s.fill_row(0, Rgb(4, 4, 4));
    assert!(s.cells[..5].iter().all(|c| c.ch == ' ' && c.bg == Rgb(4, 4, 4)));
}

#[test]
fn a_full_redraw_moves_once_per_row_and_skips_repeated_colors() {
    let mut s = Screen::new(2, 2);
    let mut out = Vec::new();
    s.flush(&mut out);
    let out = String::from_utf8(out).unwrap();
    // Four blank cells: two moves (one per row), one color switch each for text and background.
    assert_eq!(out.matches("\x1b[").count(), 4);
    assert_eq!(out, "\x1b[1;1H\x1b[38;2;0;0;0m\x1b[48;2;0;0;0m  \x1b[2;1H  ");
}

#[test]
fn the_scale_is_truncated_before_the_image_is_placed() {
    // 112 x 64 pixels into 31 columns: the f32 scale makes the image 30 wide, so column 30 is border.
    let mut fb = Framebuffer::new(112, 64);
    for y in 0..64 {
        for x in 0..112 {
            fb.put(x, y, Rgb(9, 9, 9));
        }
    }
    let border = Rgb(1, 1, 1);
    let mut s = Screen::new(31, 9);
    let (iw, ih) = scaled(&fb, 31, 9);
    assert_eq!((iw, ih), (30, 17));
    s.blit(&fb, 0, 9, border, iw, ih);
    assert_eq!(s.cells[30].fg, border);
    assert_eq!(s.cells[29].fg, Rgb(9, 9, 9));
}
