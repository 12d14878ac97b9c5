use akvisionator::level::{Color, Keys, Level, Tile};
use akvisionator::render::{Framebuffer, Rgb, hex};
use akvisionator::tiles::{brick, door_colors, key_color, render_tiles, tile_pixel};

#[test]
fn walls_have_mortar_lines_and_a_lit_top() {
    let l = Level::parse(".P.\n###\n###").unwrap();
    // Bottom mortar row and the offset vertical joint (column 3 on even rows, 1 on odd ones).
    assert_eq!(brick(&l, 0, 1, 0, 3), hex(0x3d1c16));
    assert_eq!(brick(&l, 0, 1, 1, 1), hex(0x3d1c16));
    assert_eq!(brick(&l, 0, 2, 3, 1), hex(0x3d1c16));
    // Row 1 has empty tiles above: its top is lit; row 2 is under bricks.
    assert_eq!(brick(&l, 0, 1, 0, 0), hex(0xc0673f));
    assert_ne!(brick(&l, 0, 2, 0, 0), hex(0xc0673f));
}

#[test]
fn tiles_look_as_their_kind_says() {
    let l = Level::parse("P.!C=X\n######").unwrap();
    let k = Keys(0);
    assert_eq!(tile_pixel(&l, k, 0, Tile::Empty, 0, 0, 1, 1), None);
    assert_eq!(tile_pixel(&l, k, 0, Tile::Gate, 2, 0, 0, 2), Some(hex(0x9aa3b5)));
    assert_eq!(tile_pixel(&l, k, 0, Tile::Gate, 2, 0, 1, 2), None);
    assert_eq!(tile_pixel(&l, k, 0, Tile::Crate, 3, 0, 0, 1), Some(hex(0x6b4423)));
    assert_eq!(tile_pixel(&l, k, 0, Tile::Crate, 3, 0, 1, 1), Some(hex(0x8a5a2e)));
    assert_eq!(tile_pixel(&l, k, 0, Tile::Girder, 4, 0, 2, 1), Some(hex(0x4a3310)));
    assert_eq!(tile_pixel(&l, k, 0, Tile::Girder, 4, 0, 2, 2), None);
    // The exit frame blinks every 16 frames.
    assert_eq!(tile_pixel(&l, k, 0, Tile::Exit, 5, 0, 0, 1), Some(hex(0x3ddc84)));
    assert_eq!(tile_pixel(&l, k, 16, Tile::Exit, 5, 0, 0, 1), Some(hex(0x0f3d25)));
}

#[test]
fn doors_show_their_color_until_the_key_is_held() {
    let l = Level::parse("PR\n##").unwrap();
    let (light, dark) = door_colors(Color::Red);
    assert_eq!(tile_pixel(&l, Keys(0), 0, Tile::Door(Color::Red), 1, 0, 1, 1), Some(light));
    assert_eq!(tile_pixel(&l, Keys(0), 0, Tile::Door(Color::Red), 1, 0, 1, 3), Some(dark));
    assert_eq!(tile_pixel(&l, Keys(1), 0, Tile::Door(Color::Red), 1, 0, 1, 1), None);
    assert_eq!(tile_pixel(&l, Keys(1), 0, Tile::Door(Color::Red), 1, 0, 0, 1), Some(hex(0x2b3140)));
    assert_eq!(key_color(Color::Yellow), hex(0xffd23f));
}

#[test]
fn the_tile_layer_is_drawn_where_the_camera_looks() {
    let l = Level::parse("P.!.\n####").unwrap();
    let mut fb = Framebuffer::new(8, 8);
    let sky = Rgb(1, 2, 3);
    for y in 0..8 {
        for x in 0..8 {
            fb.put(x, y, sky);
        }
    }
    // With the camera two pixels right, the bars at level x = 8 show at x = 6.
    render_tiles(&mut fb, &l, Keys(0), 0, 2, 0, 8, 8);
    assert_eq!(fb.get(6, 0), hex(0x9aa3b5));
    assert_eq!(fb.get(7, 0), sky);
    assert_eq!(fb.get(0, 0), sky);
    // The floor row: bottom mortar line at level y = 7.
    assert_eq!(fb.get(0, 7), hex(0x3d1c16));
}
