use akvisionator::hud::{Status, hud};
use akvisionator::level::Keys;
use akvisionator::render::{Rgb, Screen, hex};

fn row_text(s: &Screen, row: usize) -> String {
    s.cells[row * s.cols..(row + 1) * s.cols].iter().map(|c| c.ch).collect()
}

#[test]
fn the_top_row_shows_health_score_keys_secrets_and_the_name() {
    let mut s = Screen::new(80, 10);
    let st = Status { hp: 3, score: 250, keys: Keys(1 | 8), secrets_found: 1, secrets_total: 2 };
    hud(&mut s, st, "LEVEL 1-1", None, None, 60);
    let top = row_text(&s, 0);
    let left = " HEALTH █ █ █ █   SCORE 000250   KEYS █ · · █   SECRETS 1/2";
    assert_eq!(top, format!("{left:<69}LEVEL 1-1  "));
    assert_eq!(s.cells[8].fg, hex(0xe23b3b));
    assert_eq!(s.cells[14].fg, hex(0x3a3f50));
    assert_eq!(s.cells[24].fg, hex(0xe8a33d));
    assert_eq!(s.cells[38].fg, hex(0xe5484d));
    assert_eq!(s.cells[40].fg, hex(0x3a3f50));
    let bottom = row_text(&s, 9);
    assert!(bottom.starts_with(" ← → move   Z jump   X fire   Esc quit"));
    assert!(bottom.ends_with("60 fps "));
    assert!(s.cells.iter().skip(80).take(80).all(|c| c.ch == ' ' && c.bg == Rgb(0, 0, 0)));
}

#[test]
fn the_hint_replaces_the_controls_and_the_banner_is_centered() {
    let mut s = Screen::new(40, 10);
    let st = Status { hp: 4, score: 1234567, keys: Keys(0), secrets_found: 0, secrets_total: 0 };
    hud(&mut s, st, "X", Some("HELLO THERE"), Some(("YOU DIED", hex(0xff4d4d))), 7);
    assert!(row_text(&s, 0).contains("SCORE 1234567"));
    assert!(!row_text(&s, 0).contains("SECRETS"));
    assert!(row_text(&s, 9).starts_with(" HELLO THERE"));
    assert!(row_text(&s, 9).ends_with("7 fps "));
    // "  YOU DIED  " is 12 wide: (40 - 12) / 2 = 14, on row 10 / 2 - 1 = 4.
    assert_eq!(&row_text(&s, 4)[..], format!("{}  YOU DIED  {}", " ".repeat(14), " ".repeat(14)));
    assert_eq!(s.cells[4 * 40 + 16].fg, hex(0xff4d4d));
    assert_eq!(s.cells[4 * 40 + 16].bg, hex(0x0c0e14));
}

#[test]
fn the_hud_leaves_the_play_area_alone() {
    let mut s = Screen::new(40, 10);
    for c in s.cells.iter_mut() {
        c.ch = 'x';
    }
    let st = Status { hp: 2, score: 5, keys: Keys(0), secrets_found: 0, secrets_total: 1 };
    hud(&mut s, st, "L", None, Some(("GO", hex(0x3ddc84))), 30);
    for row in (1..9).filter(|&r| r != 4) {
        assert_eq!(row_text(&s, row), "x".repeat(40));
    }
    assert_ne!(row_text(&s, 4), "x".repeat(40));
}
