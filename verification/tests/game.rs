use akvisionator::game::{
    Banner, Broken, Controls, HINT_TICKS, MAX_HP, Pickup, Rng, break_tile, collect, crate_roll, hit_bot, press_switch,
    reach_exit, show_hint, tick_hint, touch_secret,
};
use akvisionator::level::{Color, Keys, Level, Tile};
use akvisionator::render::hex;

#[test]
fn rng_is_park_miller_and_a_zero_seed_becomes_one() {
    let mut r = Rng::new(7);
    assert_eq!(r.advance(), 7 * 16807);
    assert_eq!(r.advance(), 7 * 16807 * 16807 % 2147483647);
    let mut z = Rng::new(0);
    assert_eq!(z.advance(), 16807);
}

#[test]
fn rng_never_reaches_zero_over_many_steps() {
    let mut r = Rng::new(11);
    for _ in 0..100_000 {
        let v = r.advance();
        assert!(v >= 1 && v < 2147483647);
    }
}

#[test]
fn crate_roll_is_a_fixed_digit_per_position() {
    let expect = |tx: i32, ty: i32| ((tx as u32).wrapping_mul(73856093) ^ (ty as u32).wrapping_mul(19349663)) % 10;
    for (x, y) in [(0, 0), (5, 3), (-1, 2), (100, 90), (i32::MAX, i32::MIN)] {
        assert_eq!(crate_roll(x, y), expect(x, y));
        assert!(crate_roll(x, y) < 10);
    }
    assert_eq!(crate_roll(0, 0), 0);
    assert_eq!(crate_roll(1, 0), 3);
}

#[test]
fn shooting_breaks_only_crates_and_cracked_walls() {
    let mut l = Level::parse("#P.C%#\n######").unwrap();
    assert_eq!(break_tile(&mut l, 0, 0), Broken::Nothing);
    assert_eq!(l.get(0, 0), Some(Tile::Brick));
    assert_eq!(break_tile(&mut l, 4, 0), Broken::Wall);
    assert_eq!(l.get(4, 0), Some(Tile::Empty));
    let drop = break_tile(&mut l, 3, 0);
    let roll = crate_roll(3, 0);
    let expected = if roll <= 4 { Broken::Gem } else if roll <= 7 { Broken::Health } else { Broken::Bomb };
    assert_eq!(drop, expected);
    assert_eq!(l.get(3, 0), Some(Tile::Empty));
    assert_eq!(break_tile(&mut l, 3, 0), Broken::Nothing);
    assert_eq!(break_tile(&mut l, 40, 0), Broken::Nothing);
}

#[test]
fn pickups_give_keys_health_and_score() {
    let (k, hp, score) = collect(Pickup::Key(Color::Yellow), Keys(1), 2, 10);
    assert_eq!((k, hp, score), (Keys(1 | 8), 2, 260));
    assert_eq!(collect(Pickup::Health, Keys(0), 1, 0), (Keys(0), 3, 0));
    assert_eq!(collect(Pickup::Health, Keys(0), 3, 0), (Keys(0), MAX_HP, 0));
    assert_eq!(collect(Pickup::Gem, Keys(2), 4, 5), (Keys(2), 4, 105));
}

#[test]
fn hints_stay_for_a_while_and_a_new_globe_replaces_the_text() {
    let hello = String::from("HELLO THERE");
    let h = show_hint(None, &hello);
    assert_eq!(h, Some((hello.clone(), HINT_TICKS)));
    let mut h = h;
    for _ in 0..HINT_TICKS - 1 {
        h = tick_hint(h);
        assert!(h.is_some());
    }
    assert_eq!(tick_hint(h.clone()), None);
    let other = String::from("SECRET AREA FOUND!");
    assert_eq!(show_hint(h, &other), Some((other, HINT_TICKS)));
    let again = show_hint(Some((hello.clone(), 3)), &hello);
    assert_eq!(again, Some((hello, HINT_TICKS)));
}

#[test]
fn banners_count_down_then_restart() {
    let mut b = Banner::died();
    assert_eq!(b.text, "YOU DIED");
    assert_eq!((b.ticks, b.keep_score, b.color), (110, false, hex(0xff4d4d)));
    for _ in 0..109 {
        assert!(!b.tick());
    }
    assert!(b.tick());
    let c = Banner::cleared();
    assert_eq!((c.text, c.ticks, c.keep_score, c.color), ("LEVEL CLEAR", 150, true, hex(0x3ddc84)));
    assert_eq!(Controls::default(), Controls { left: false, right: false, jump: false, fire: false });
}

#[test]
fn crates_hold_a_gem_health_or_a_bomb_by_position() {
    let mut l = Level::parse("PCCC.\n#####").unwrap();
    assert_eq!((crate_roll(1, 0), crate_roll(2, 0), crate_roll(3, 0)), (3, 6, 9));
    assert_eq!(break_tile(&mut l, 1, 0), Broken::Gem);
    assert_eq!(break_tile(&mut l, 2, 0), Broken::Health);
    assert_eq!(break_tile(&mut l, 3, 0), Broken::Bomb);
    assert!((1..4).all(|x| l.get(x, 0) == Some(Tile::Empty)));
}

#[test]
fn the_exit_scores_once_and_shows_the_cleared_banner() {
    let (score, banner) = reach_exit(true, 40, None);
    assert_eq!(score, 1040);
    let b = banner.unwrap();
    assert_eq!((b.text, b.ticks, b.keep_score), ("LEVEL CLEAR", 150, true));
    let (score, banner) = reach_exit(true, score, Some(b));
    assert_eq!(score, 1040);
    assert_eq!(banner.unwrap().ticks, 150);
    let (score, banner) = reach_exit(false, 7, None);
    assert_eq!(score, 7);
    assert!(banner.is_none());
}

#[test]
fn a_switch_is_pressed_once() {
    assert_eq!(press_switch(false), (true, true));
    assert_eq!(press_switch(true), (true, false));
}

#[test]
fn a_secret_is_counted_once_and_announced() {
    let (found, count, hint) = touch_secret(false, 2, None);
    assert!(found);
    assert_eq!(count, 3);
    assert_eq!(hint, Some((String::from("SECRET AREA FOUND!"), HINT_TICKS)));
    let shown = Some((String::from("OTHER"), 5));
    let (found, count, hint) = touch_secret(true, 3, shown.clone());
    assert!(found);
    assert_eq!(count, 3);
    assert_eq!(hint, shown);
}

#[test]
fn the_last_hit_on_a_bot_scores() {
    assert_eq!(hit_bot(3, 10), (2, 10));
    assert_eq!(hit_bot(1, 10), (0, 510));
}
