use akvisionator::level::{Color, Keys, Level, Link, Spawn, SpawnKind, Tile, at};
use akvisionator::load::coord;

fn count(l: &Level, kind: SpawnKind) -> usize {
    l.spawns.iter().filter(|s| s.kind == kind).count()
}

#[test]
fn metadata_is_optional_and_name_is_read() {
    assert_eq!(Level::parse("#P#\n###").unwrap().name, "UNNAMED");
    assert_eq!(Level::parse("#P#\n###\n---\nname  My Level \n").unwrap().name, "My Level");
}

#[test]
fn keys_doors_and_pickups_parse() {
    let l = Level::parse("#PrgbyRGBY!C%#\n##############").unwrap();
    for (i, c) in Color::ALL.into_iter().enumerate() {
        assert!(l.spawns.contains(&Spawn { kind: SpawnKind::Key(c), x: 2 + i, y: 0 }));
        assert_eq!(l.get(6 + i as i32, 0), Some(Tile::Door(c)));
    }
    assert_eq!([l.get(10, 0), l.get(11, 0), l.get(12, 0)], [Some(Tile::Gate), Some(Tile::Crate), Some(Tile::Cracked)]);
}

#[test]
fn hints_and_links_are_attached() {
    let l = Level::parse("#P?S.!!#\n########\n---\nhint 3,1 Hello there\nlink 4,1 6,1").unwrap();
    assert_eq!(l.hints, ["Hello there"]);
    assert_eq!(l.links, [Link { switch: (3, 0), gate: (5, 0) }]);
    let mut open = l.clone();
    open.open_gate(5, 0);
    assert_eq!([open.get(5, 0), open.get(6, 0)], [Some(Tile::Empty), Some(Tile::Empty)], "the whole gate group opens");
}

#[test]
fn errors_name_line_and_column() {
    let err = |t: &str| Level::parse(t).err().unwrap();
    assert_eq!(err("#P#
##"), "line 2: row has 2 tiles, expected 3");
    assert_eq!(err("
#P#
#@#"), "line 3, column 2: unknown tile '@'");
    assert_eq!(err("#P#
#P#"), "line 2, column 2: second player start");
    assert_eq!(err("###"), "level has no player start 'P'");
    assert_eq!(err(""), "level is empty");
    assert_eq!(err("#P#
---
name"), "line 3: 'name' needs a value");
    assert_eq!(err("#P#
---

music loud"), "line 4: unknown directive 'music'");
}

#[test]
fn hint_and_link_errors_are_specific() {
    let err = |t: &str| Level::parse(t).err().unwrap();
    assert_eq!(err("#P?#"), "the hint globe at column 3, row 1 has no text");
    assert_eq!(err("#P?#
---
hint 3,1"), "line 3: 'hint' needs a text");
    assert_eq!(err("#P?#
---
hint 2,1 hi"), "line 3: no hint globe '?' at column 2, row 1");
    assert_eq!(err("#P?#
---
hint 9,1 hi"), "line 3: 9,1 is outside the level (4 x 1)");
    assert_eq!(err("#P?#
---
hint x hi"), "line 3: expected 'column,row' but found 'x'");
    assert_eq!(err("#PS!#"), "the switch at column 3, row 1 has no link");
    assert_eq!(err("#PS!#
---
link 2,1 4,1"), "line 3: no switch 'S' at column 2, row 1");
    assert_eq!(err("#PS!#
---
link 3,1 2,1"), "line 3: no gate '!' at column 2, row 1");
}

#[test]
fn spawns_are_entities_not_tiles() {
    let l = Level::parse("#P?S.!!E*+s#\n############\n---\nhint 3,1 hi\nlink 4,1 6,1").unwrap();
    assert_eq!(l.player, (1, 0));
    assert_eq!(count(&l, SpawnKind::Bot), 1);
    assert_eq!(count(&l, SpawnKind::Gem), 1);
    assert_eq!(count(&l, SpawnKind::Health), 1);
    assert_eq!(count(&l, SpawnKind::Secret), 1);
    for x in [1, 2, 3, 7, 8, 9, 10] {
        assert_eq!(l.get(x, 0), Some(Tile::Empty));
    }
    assert_eq!(l.get(-1, 0), None);
    assert_eq!(l.get(12, 0), None);
    assert_eq!(l.get(0, 2), None);
}

#[test]
fn lines_end_with_crlf_and_numbers_may_carry_a_plus() {
    let l = Level::parse("#P?#\r\n####\r\n---\r\nhint +3,+1   hi there  \r\n").unwrap();
    assert_eq!(l.hints, ["hi there"]);
    assert_eq!(Level::parse("#P?#\n---\nhint 3,1,1 hi").err().unwrap(), "line 3: expected 'column,row' but found '3,1,1'");
    assert_eq!(Level::parse("#P?#\n---\nhint 0,1 hi").err().unwrap(), "line 3: 0,1 is outside the level (4 x 1)");
    assert_eq!(
        Level::parse("#P?#\n---\nhint 99999999999999999999999,1 hi").err().unwrap(),
        "line 3: expected 'column,row' but found '99999999999999999999999,1'"
    );
}

#[test]
fn sizes_in_pixels() {
    let l = Level::parse("#P#\n###").unwrap();
    assert_eq!((l.w, l.h, l.width_px(), l.height_px()), (3, 2, 12, 8));
}

#[test]
fn at_is_one_based() {
    assert_eq!(at(0, 0), "column 1, row 1");
    assert_eq!(at(9, 41), "column 10, row 42");
}

#[test]
fn keys_and_solidity() {
    let k = Keys::default();
    assert!(!k.has(Color::Red));
    let k = k.with(Color::Red).with(Color::Yellow);
    assert!(k.has(Color::Red) && k.has(Color::Yellow) && !k.has(Color::Green) && !k.has(Color::Blue));
    assert_eq!(k, Keys(0b1001));
    assert!(Tile::Door(Color::Red).is_solid(Keys::default()));
    assert!(!Tile::Door(Color::Red).is_solid(k));
    assert!(Tile::Door(Color::Green).is_solid(k));
    for t in [Tile::Brick, Tile::Girder, Tile::Gate, Tile::Crate, Tile::Cracked] {
        assert!(t.is_solid(k));
    }
    assert!(!Tile::Empty.is_solid(k) && !Tile::Exit.is_solid(k));
    assert_eq!([Color::Red.name(), Color::Green.name(), Color::Blue.name(), Color::Yellow.name()], ["red", "green", "blue", "yellow"]);
}

#[test]
fn open_gate_opens_only_the_connected_group() {
    let mut l = Level::parse("#P!!.!#\n#..!..#\n#######").unwrap();
    l.open_gate(2, 0);
    assert_eq!([l.get(2, 0), l.get(3, 0), l.get(3, 1)], [Some(Tile::Empty); 3]);
    assert_eq!(l.get(5, 0), Some(Tile::Gate), "a separate group stays shut");
    let before = l.clone();
    l.open_gate(1, 0);
    assert_eq!(l.tiles, before.tiles, "opening a non-gate tile changes nothing");
    l.open_gate(2, 0);
    assert_eq!(l.tiles, before.tiles, "an open group stays as it is");
}

#[test]
fn pressing_a_switch_opens_every_group_linked_to_it() {
    let mut l = Level::parse("#P!.!S.!#
#########
---
link 6,1 3,1
link 6,1 5,1").unwrap();
    let once = {
        l.open_linked_gates((5, 0));
        l.tiles.clone()
    };
    assert_eq!([l.get(2, 0), l.get(4, 0), l.get(7, 0)], [Some(Tile::Empty), Some(Tile::Empty), Some(Tile::Gate)]);
    l.open_linked_gates((5, 0));
    assert_eq!(l.tiles, once);
    l.open_linked_gates((1, 0));
    assert_eq!(l.tiles, once, "no link starts at a tile without a switch");
}

#[test]
fn set_changes_one_tile_inside_only() {
    let mut l = Level::parse("#P#\n###").unwrap();
    l.set(1, 1, Tile::Exit);
    assert_eq!(l.get(1, 1), Some(Tile::Exit));
    let before = l.tiles.clone();
    l.set(5, 5, Tile::Exit);
    l.set(-1, 0, Tile::Exit);
    assert_eq!(l.tiles, before);
}

/// A grid of `w` x `h` open cells over two rows of floor, with the given characters placed.
fn grid(w: usize, h: usize, marks: &[(usize, usize, char)]) -> String {
    let mut rows: Vec<Vec<char>> = (0..h).map(|y| vec![if y + 2 >= h { '#' } else { '.' }; w]).collect();
    for &(x, y, c) in marks {
        rows[y][x] = c;
    }
    rows.iter().map(|r| r.iter().collect::<String>()).collect::<Vec<_>>().join("\n")
}

#[test]
fn level1_parses() {
    // The rooftop level: its size, start, six bots, six gems, the yellow key and its door.
    let mut marks = vec![(2, 13, 'P'), (59, 4, 'y'), (78, 10, 'Y')];
    for i in 0..6 {
        marks.push((10 + 10 * i, 13, 'E'));
        marks.push((14 + 10 * i, 12, '*'));
    }
    let text = format!("{}\n---\nname LEVEL 1-1  ROOFTOPS\n", grid(84, 16, &marks));
    let l = Level::parse(&text).unwrap();
    assert_eq!(l.name, "LEVEL 1-1  ROOFTOPS");
    assert_eq!((l.w, l.h), (84, 16));
    assert_eq!(l.player, (2, 13));
    assert_eq!(count(&l, SpawnKind::Bot), 6);
    assert_eq!(count(&l, SpawnKind::Gem), 6);
    assert!(l.spawns.contains(&Spawn { kind: SpawnKind::Key(Color::Yellow), x: 59, y: 4 }));
    assert_eq!(l.get(59, 4), Some(Tile::Empty), "pickups are entities, not tiles");
    assert_eq!(l.get(78, 10), Some(Tile::Door(Color::Yellow)));
    assert_eq!(l.get(-1, 0), None);
}

#[test]
fn big_test_level_parses() {
    // A large level, to see that size and pixel extent scale together.
    let l = Level::parse(&grid(128, 90, &[(2, 87, 'P')])).unwrap();
    assert_eq!((l.w, l.h), (128, 90));
    assert_eq!(l.player, (2, 87));
    assert_eq!((l.width_px(), l.height_px()), (512, 360));
}

#[test]
fn coord_reads_one_based_positions_inside_the_level() {
    let v: Vec<char> = "9,1".chars().collect();
    assert_eq!(coord(3, &v, 0, v.len(), 4, 1), Err(String::from("line 3: 9,1 is outside the level (4 x 1)")));
    let v: Vec<char> = "x 2,1 y".chars().collect();
    assert_eq!(coord(5, &v, 2, 5, 4, 1), Ok((1, 0)));
    let v: Vec<char> = "2;1".chars().collect();
    assert_eq!(coord(7, &v, 0, 3, 4, 1), Err(String::from("line 7: expected 'column,row' but found '2;1'")));
}
