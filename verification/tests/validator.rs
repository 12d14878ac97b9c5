// These tests check the report that `check` builds from search outcomes written out by hand.
// The search itself steps the hero's floating-point physics and lives in app/, so the tests
// that let the search decide what is reachable are not run here.
use akvisionator::level::{Level, SpawnKind, Tile};
use akvisionator::validator::{
    Checker, FOREVER, Found, Outcome, Report, Script, Search, State, Touched, check, has_breakables, idle, node_col,
    scripts, switch_total, tile_in_span,
};
use akvisionator::level::Keys;

fn outcome(items: &[bool], door: [bool; 4], exit: bool, reachable: usize) -> Outcome {
    Outcome { found: Found { item: items.to_vec(), door: door.to_vec(), exit }, reachable }
}

#[test]
fn scripts_step_then_jump_at_four_heights() {
    let v = scripts();
    assert_eq!(v.len(), 4 + 4 * 7);
    assert_eq!(v[0], Script { jump_hold: 0, dir: -1, dir_ticks: 5, min_ticks: 5 });
    assert_eq!(v[3], Script { jump_hold: 0, dir: 1, dir_ticks: FOREVER, min_ticks: 5 });
    assert_eq!(v[4], Script { jump_hold: 2, dir: 0, dir_ticks: 0, min_ticks: 1 });
    assert_eq!(v[31], Script { jump_hold: 12, dir: 1, dir_ticks: FOREVER, min_ticks: 1 });
    let c = v[6].controls(1);
    assert!(c.jump && c.left && !c.right && !c.fire);
    let c = v[6].controls(12);
    assert!(!c.jump && !c.left);
    assert!(!v[0].lands(3, true) && v[0].lands(4, true) && !v[0].lands(9, false));
    assert_eq!(idle(), Script { jump_hold: 0, dir: 0, dir_ticks: 0, min_ticks: 1 });
}

#[test]
fn the_search_expands_each_state_once_in_order() {
    let a = State { col: 1, feet: 2, keys: 0, switches: 0 };
    let b = State { col: 2, feet: 2, keys: 0, switches: 0 };
    let mut s = Search::new(a);
    assert_eq!(s.pop(), Some(a));
    assert!(s.visit(b));
    assert!(!s.visit(a));
    assert!(!s.visit(b));
    assert_eq!(s.pop(), Some(b));
    assert_eq!(s.pop(), None);
    assert_eq!(s.reachable(), 2);
    let t = Touched { keys: 2, switches: 4 };
    let c = State { col: 1, feet: 2, keys: 1, switches: 1 }.after(5, 6, t);
    assert_eq!(c, State { col: 5, feet: 6, keys: 3, switches: 5 });
}

#[test]
fn the_checker_lists_items_and_opens_gates_per_switch() {
    let l = Level::parse("##########\n#...!....#\n#PS.!.?.X#\n##########\n---\nhint 7,3 hi\nlink 3,3 5,3").unwrap();
    let ck = Checker::new(&l, false);
    assert_eq!(ck.items.len(), 1);
    assert_eq!(ck.items[0].kind, SpawnKind::Switch);
    assert_eq!(ck.switch_bit, [1]);
    let closed = ck.level(0);
    assert_eq!(closed.get(4, 1), Some(Tile::Gate));
    let open = ck.level(1);
    assert_eq!([open.get(4, 1), open.get(4, 2)], [Some(Tile::Empty), Some(Tile::Empty)]);
    assert_eq!(ck.item_index(2, 2), Some(0));
    assert_eq!(ck.item_index(3, 2), None);
    assert_eq!(ck.item_index(-5, 2), None);
}

#[test]
fn the_loose_checker_has_no_breakables() {
    let l = Level::parse("#P.C%#\n######").unwrap();
    assert!(has_breakables(&l));
    let ck = Checker::new(&l, true);
    assert_eq!([ck.base.get(3, 0), ck.base.get(4, 0)], [Some(Tile::Empty), Some(Tile::Empty)]);
    assert!(!has_breakables(&ck.base));
}

#[test]
fn touching_records_items_doors_and_the_exit() {
    let l = Level::parse("#...!..#\n#PyS.RX#\n########\n---\nlink 4,2 5,1").unwrap();
    let ck = Checker::new(&l, false);
    let lv = ck.level(0);
    let mut found = Found::new(ck.items.len());
    // A box over columns 2..=3 of row 1; doors count one column further on each side.
    let t = ck.touch(&lv, 2, 3, 1, 1, 1, 4, &mut found);
    assert_eq!(found.item, [true, true]);
    assert_eq!(t, Touched { keys: 8, switches: 1 });
    assert!(!found.exit);
    assert_eq!(found.door, [false; 4]);
    let t = ck.touch(&lv, 6, 6, 1, 1, 5, 7, &mut found);
    assert_eq!(t, Touched { keys: 0, switches: 0 });
    assert!(found.exit);
    assert_eq!(found.door, [true, false, false, false]);
}

#[test]
fn standing_columns_prefer_ground_then_the_nearer_one() {
    let l = Level::parse("#...#\n#P..#\n##..#\n#####").unwrap();
    let k = Keys::default();
    // Column 1 has ground under row 2, column 2 has none.
    assert_eq!(node_col(&l, k, 1, 2, true, true), 1);
    assert_eq!(node_col(&l, k, 2, 2, true, false), 2);
    assert_eq!(node_col(&l, k, 2, 3, true, true), 3);
    assert_eq!(node_col(&l, k, 2, 3, true, false), 2);
    assert_eq!(node_col(&l, k, 2, 2, false, true), 2);
}

#[test]
fn report_names_a_door_without_its_key_from_given_results() {
    let l = Level::parse("##########\n#........#\n#P..g.R.X#\n##########").unwrap();
    let r = check(&l, Some(outcome(&[true], [false; 4], false, 12)), None);
    assert_eq!(r.errors, ["the red door at column 7, row 3 needs a red key, but the level has none", "the exit at column 9, row 3 cannot be reached"]);
    assert_eq!(r.info, ["12 standing positions reachable"]);
    assert!(!r.is_ok());
    let l = Level::parse("##########\n#........#\n#P..r.R.X#\n##########").unwrap();
    let r = check(&l, Some(outcome(&[true], [true, false, false, false], true, 20)), None);
    assert!(r.is_ok(), "{:?}", r.errors);
}

#[test]
fn report_names_an_unreached_switch_from_given_results() {
    // The switch sits on the floor: pressing it opens the bars in front of the exit.
    let open = Level::parse("##########\n#...!....#\n#PS.!...X#\n##########\n---\nlink 3,3 5,3").unwrap();
    let r = check(&open, Some(outcome(&[true], [false; 4], true, 9)), None);
    assert!(r.is_ok(), "{:?}", r.errors);
    // The same switch high up on an unreachable ledge.
    let closed = Level::parse("##########\n#..S.!...#\n#..#.!...#\n#P.#.!..X#\n##########\n---\nlink 4,2 6,2").unwrap();
    let r = check(&closed, Some(outcome(&[false], [false; 4], false, 3)), None);
    assert_eq!(r.errors, ["the switch at column 4, row 2 cannot be reached", "the exit at column 9, row 4 cannot be reached"]);
}

#[test]
fn report_says_breaking_helps_from_given_results() {
    let l = Level::parse("###########\n#...C.....#\n#...C.....#\n#P..C..*.X#\n###########").unwrap();
    let r = check(&l, Some(outcome(&[false], [false; 4], false, 7)), Some(outcome(&[true], [false; 4], true, 30)));
    assert_eq!(r.errors, ["the exit at column 10, row 4 cannot be reached unless a crate or cracked wall is broken"]);
    assert_eq!(r.info, ["1 gem(s) need a crate or cracked wall broken: column 8, row 4", "7 standing positions reachable"]);
}

#[test]
fn report_sorts_secrets_from_given_results() {
    let l = Level::parse("###########\n#.........#\n#P..%.s..X#\n###########").unwrap();
    let r = check(&l, Some(outcome(&[false], [false; 4], true, 3)), Some(outcome(&[true], [false; 4], true, 5)));
    assert!(r.is_ok());
    assert_eq!(r.info[0], "the secret area at column 7, row 3 needs a crate or cracked wall broken");
    let r = check(&l, Some(outcome(&[false], [false; 4], true, 3)), Some(outcome(&[false], [false; 4], true, 3)));
    assert_eq!(r.errors, ["the secret area at column 7, row 3 cannot be reached"]);
}

#[test]
fn keys_switches_and_pickups_are_listed() {
    let l = Level::parse("#........#\n#Py+**S!X#\n##########\n---\nlink 7,2 8,2").unwrap();
    // items: yellow key, health, gem, gem, switch
    let strict = outcome(&[false, false, true, false, false], [false; 4], false, 4);
    let r = check(&l, Some(strict), None);
    assert_eq!(
        r.errors,
        [
            "the yellow key at column 3, row 2 cannot be reached",
            "the switch at column 7, row 2 cannot be reached",
            "the exit at column 9, row 2 cannot be reached",
        ]
    );
    assert_eq!(
        r.info,
        [
            "1 gem(s) cannot be reached: column 6, row 2",
            "1 health pickup(s) cannot be reached: column 4, row 2",
            "4 standing positions reachable",
        ]
    );
}

#[test]
fn the_exit_error_mentions_keys_when_all_were_collected() {
    let l = Level::parse("#....#\n#Pr.X#\n######").unwrap();
    let r = check(&l, Some(outcome(&[true], [false; 4], false, 2)), None);
    assert_eq!(r.errors, ["the exit at column 5, row 2 cannot be reached even with the keys"]);
    let l = Level::parse("#....#\n#P...#\n######").unwrap();
    let r = check(&l, Some(outcome(&[], [false; 4], false, 2)), None);
    assert_eq!(r.errors, ["the level has no exit"]);
}

#[test]
fn a_start_in_the_air_and_too_many_switches_are_errors() {
    let l = Level::parse("#P.X#\n#####").unwrap();
    let r: Report = check(&l, None, None);
    assert_eq!(r.errors, ["the player start (column 2, row 1) is not above solid ground"]);
    assert!(r.info.is_empty());
    let mut row = String::from("#P");
    let mut links = String::new();
    for i in 0..33 {
        row.push('S');
        links.push_str(&format!("\nlink {},1 36,1", i + 3));
    }
    row.push_str("!X#");
    let text = format!("{row}\n{}\n---{links}", "#".repeat(row.len()));
    let l = Level::parse(&text).unwrap();
    assert_eq!(switch_total(&l), 33);
    let r = check(&l, None, None);
    assert_eq!(r.errors, ["the level has 33 switches, the validator handles 32"]);
}

#[test]
fn a_box_finds_a_tile_anywhere_in_its_span() {
    let l = Level::parse("#....#\n#P..X#\n######").unwrap();
    assert!(tile_in_span(&l, Tile::Exit, 3, 4, 0, 1));
    assert!(!tile_in_span(&l, Tile::Exit, 1, 3, 0, 2));
    assert!(!tile_in_span(&l, Tile::Exit, 4, 3, 0, 2));
    assert!(tile_in_span(&l, Tile::Brick, -3, 0, -1, 0));
    assert!(!tile_in_span(&l, Tile::Gate, -10, 10, -10, 10));
}

#[test]
fn touched_merge_joins_keys_and_switches() {
    let a = Touched { keys: 0b0001, switches: 0b100 };
    let b = Touched { keys: 0b1000, switches: 0b101 };
    assert_eq!(a.merge(b), Touched { keys: 0b1001, switches: 0b101 });
    assert_eq!(a.merge(a), a);
}
