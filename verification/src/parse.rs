//! The level file: a tile grid, then optionally a `---` line followed by metadata lines.
use vstd::prelude::*;

use crate::level::{Color, Link, Spawn, SpawnKind, Tile, at_text, grid_at};
use crate::text::{
    chars_of, decimal, string_of, trim_at, trim_end_at, push_chars, push_decimal, split_at_char, split_once, split_or_all, trim, trim_end, trim_start, is_ws,
};

verus! {

// ---------------------------------------------------------------------------------------------
// What a level file means
// ---------------------------------------------------------------------------------------------

/// A parsed level as plain values.
pub struct LevelModel {
    pub name: Seq<char>,
    pub w: usize,
    pub h: usize,
    pub tiles: Seq<Tile>,
    pub player: (usize, usize),
    pub spawns: Seq<Spawn>,
    pub hints: Seq<Seq<char>>,
    pub links: Seq<Link>,
}

/// The text cut at every `'\n'` (the last piece may be empty).
pub open spec fn lines(t: Seq<char>) -> Seq<Seq<char>>
    decreases t.len(),
{
    if t.len() == 0 {
        seq![Seq::empty()]
    } else {
        let r = lines(t.drop_last());
        if t.last() == '\n' {
            r.push(Seq::empty())
        } else {
            r.update(r.len() - 1, r.last().push(t.last()))
        }
    }
}

pub open spec fn dashes() -> Seq<char> {
    seq!['-', '-', '-']
}

/// Non-empty lines (trailing whitespace removed) with their 1-based numbers: the grid rows
/// before the first `---` line, the metadata lines after it.
pub struct Sections {
    pub rows: Seq<(nat, Seq<char>)>,
    pub meta: Seq<(nat, Seq<char>)>,
    pub in_meta: bool,
}

pub open spec fn sections(ls: Seq<Seq<char>>) -> Sections
    decreases ls.len(),
{
    if ls.len() == 0 {
        Sections { rows: Seq::empty(), meta: Seq::empty(), in_meta: false }
    } else {
        let s = sections(ls.drop_last());
        next_section(s, ls.len(), ls.last())
    }
}

pub open spec fn next_section(s: Sections, n: nat, raw: Seq<char>) -> Sections {
    let line = trim_end(raw);
    if line == dashes() {
        Sections { rows: s.rows, meta: s.meta, in_meta: true }
    } else if line.len() == 0 {
        s
    } else if s.in_meta {
        Sections { rows: s.rows, meta: s.meta.push((n, line)), in_meta: true }
    } else {
        Sections { rows: s.rows.push((n, line)), meta: s.meta, in_meta: false }
    }
}

/// `line <n>: ` in front of a message.
pub open spec fn line_msg(n: nat, msg: Seq<char>) -> Seq<char> {
    "line "@ + decimal(n) + ": "@ + msg
}

/// What the grid scan has built so far.
pub struct Scan {
    pub tiles: Seq<Tile>,
    pub player: Option<(usize, usize)>,
    pub spawns: Seq<Spawn>,
    pub hints: nat,
}

/// Tile and spawn of a grid character other than `P` and `?`.
pub open spec fn tile_char(ch: char) -> Option<(Tile, Option<SpawnKind>)> {
    if ch == '.' {
        Some((Tile::Empty, None))
    } else if ch == '#' {
        Some((Tile::Brick, None))
    } else if ch == '=' {
        Some((Tile::Girder, None))
    } else if ch == 'X' {
        Some((Tile::Exit, None))
    } else if ch == '!' {
        Some((Tile::Gate, None))
    } else if ch == 'C' {
        Some((Tile::Crate, None))
    } else if ch == '%' {
        Some((Tile::Cracked, None))
    } else if ch == 'R' {
        Some((Tile::Door(Color::Red), None))
    } else if ch == 'G' {
        Some((Tile::Door(Color::Green), None))
    } else if ch == 'B' {
        Some((Tile::Door(Color::Blue), None))
    } else if ch == 'Y' {
        Some((Tile::Door(Color::Yellow), None))
    } else if ch == 'r' {
        Some((Tile::Empty, Some(SpawnKind::Key(Color::Red))))
    } else if ch == 'g' {
        Some((Tile::Empty, Some(SpawnKind::Key(Color::Green))))
    } else if ch == 'b' {
        Some((Tile::Empty, Some(SpawnKind::Key(Color::Blue))))
    } else if ch == 'y' {
        Some((Tile::Empty, Some(SpawnKind::Key(Color::Yellow))))
    } else if ch == '+' {
        Some((Tile::Empty, Some(SpawnKind::Health)))
    } else if ch == '*' {
        Some((Tile::Empty, Some(SpawnKind::Gem)))
    } else if ch == 'E' {
        Some((Tile::Empty, Some(SpawnKind::Bot)))
    } else if ch == 'S' {
        Some((Tile::Empty, Some(SpawnKind::Switch)))
    } else if ch == 's' {
        Some((Tile::Empty, Some(SpawnKind::Secret)))
    } else {
        None
    }
}

/// One grid character at column `x` of row `y` (line `n`).
pub open spec fn scan_cell(st: Scan, n: nat, x: nat, y: nat, ch: char) -> Result<Scan, Seq<char>> {
    if ch == 'P' {
        if st.player is Some {
            Err("line "@ + decimal(n) + ", column "@ + decimal(x + 1) + ": second player start"@)
        } else {
            Ok(
                Scan {
                    tiles: st.tiles.push(Tile::Empty),
                    player: Some((x as usize, y as usize)),
                    spawns: st.spawns,
                    hints: st.hints,
                },
            )
        }
    } else if ch == '?' {
        Ok(
            Scan {
                tiles: st.tiles.push(Tile::Empty),
                player: st.player,
                spawns: st.spawns.push(
                    Spawn { kind: SpawnKind::Hint(st.hints as usize), x: x as usize, y: y as usize },
                ),
                hints: st.hints + 1,
            },
        )
    } else {
        match tile_char(ch) {
            None => Err(
                "line "@ + decimal(n) + ", column "@ + decimal(x + 1) + ": unknown tile '"@ + seq![
                    ch,
                ] + "'"@,
            ),
            Some((t, k)) => Ok(
                Scan {
                    tiles: st.tiles.push(t),
                    player: st.player,
                    spawns: match k {
                        Some(kind) => st.spawns.push(
                            Spawn { kind: kind, x: x as usize, y: y as usize },
                        ),
                        None => st.spawns,
                    },
                    hints: st.hints,
                },
            ),
        }
    }
}

/// The characters of row `y`, left to right.
pub open spec fn scan_row(st: Scan, n: nat, y: nat, row: Seq<char>) -> Result<Scan, Seq<char>>
    decreases row.len(),
{
    if row.len() == 0 {
        Ok(st)
    } else {
        match scan_row(st, n, y, row.drop_last()) {
            Err(e) => Err(e),
            Ok(s) => scan_cell(s, n, (row.len() - 1) as nat, y, row.last()),
        }
    }
}

pub open spec fn empty_scan() -> Scan {
    Scan { tiles: Seq::empty(), player: None, spawns: Seq::empty(), hints: 0 }
}

/// The grid rows, top to bottom; every row must be `w` tiles wide.
pub open spec fn scan_rows(rows: Seq<(nat, Seq<char>)>, w: nat) -> Result<Scan, Seq<char>>
    decreases rows.len(),
{
    if rows.len() == 0 {
        Ok(empty_scan())
    } else {
        match scan_rows(rows.drop_last(), w) {
            Err(e) => Err(e),
            Ok(s) => {
                let (n, row) = rows.last();
                if row.len() != w {
                    Err(
                        line_msg(
                            n,
                            "row has "@ + decimal(row.len()) + " tiles, expected "@ + decimal(w),
                        ),
                    )
                } else {
                    scan_row(s, n, (rows.len() - 1) as nat, row)
                }
            },
        }
    }
}

/// `usize::from_str`: an optional `+`, then decimal digits, no overflow.
pub open spec fn is_digit(c: char) -> bool {
    '0' <= c && c <= '9'
}

pub open spec fn digits_value(s: Seq<char>) -> nat
    decreases s.len(),
{
    if s.len() == 0 {
        0
    } else {
        digits_value(s.drop_last()) * 10 + (s.last() as nat - '0' as nat) as nat
    }
}

/// Without a leading `+`.
pub open spec fn strip_plus(s: Seq<char>) -> Seq<char> {
    if s.len() > 0 && s[0] == '+' {
        s.drop_first()
    } else {
        s
    }
}

pub open spec fn parse_digits(d: Seq<char>) -> Option<nat> {
    if d.len() > 0 && (forall|i: int| 0 <= i < d.len() ==> is_digit(#[trigger] d[i]))
        && digits_value(d) <= usize::MAX {
        Some(digits_value(d))
    } else {
        None
    }
}

pub open spec fn parse_usize(s: Seq<char>) -> Option<nat> {
    parse_digits(strip_plus(s))
}

/// `column,row` (1-based) inside a `w` x `h` level, as a 0-based position.
#[verifier::opaque]
pub open spec fn coord_spec(n: nat, s: Seq<char>, w: nat, h: nat) -> Result<(usize, usize), Seq<char>> {
    let parsed = match split_once(s, ',') {
        None => None,
        Some((a, b)) => match (parse_usize(a), parse_usize(b)) {
            (Some(x), Some(y)) => Some((x, y)),
            _ => None,
        },
    };
    match parsed {
        None => Err(line_msg(n, "expected 'column,row' but found '"@ + s + "'"@)),
        Some((x, y)) => if x == 0 || y == 0 || x > w || y > h {
            Err(
                line_msg(
                    n,
                    s + " is outside the level ("@ + decimal(w) + " x "@ + decimal(h) + ")"@,
                ),
            )
        } else {
            Ok(((x - 1) as usize, (y - 1) as usize))
        },
    }
}

/// What the metadata lines have set so far.
pub struct Meta {
    pub name: Seq<char>,
    pub hints: Seq<Seq<char>>,
    pub links: Seq<Link>,
}

pub open spec fn is_hint_at(s: Spawn, x: usize, y: usize) -> bool {
    s.kind is Hint && s.x == x && s.y == y
}

/// The index of the hint globe at (x, y), from the first such spawn.
#[verifier::opaque]
pub open spec fn hint_at(spawns: Seq<Spawn>, x: usize, y: usize) -> Option<usize> {
    if exists|j: int| 0 <= j < spawns.len() && is_hint_at(#[trigger] spawns[j], x, y) {
        let j = choose|j: int|
            0 <= j < spawns.len() && is_hint_at(#[trigger] spawns[j], x, y) && forall|k: int|
                0 <= k < j ==> !is_hint_at(#[trigger] spawns[k], x, y);
        Some(spawns[j].kind->Hint_0)
    } else {
        None
    }
}

pub open spec fn is_switch_at(s: Spawn, p: (usize, usize)) -> bool {
    s.kind == SpawnKind::Switch && s.x == p.0 && s.y == p.1
}

pub open spec fn has_switch(spawns: Seq<Spawn>, p: (usize, usize)) -> bool {
    exists|j: int| 0 <= j < spawns.len() && is_switch_at(#[trigger] spawns[j], p)
}

pub open spec fn key_of(line: Seq<char>) -> Seq<char> {
    match split_once(line, ' ') {
        Some((k, _)) => k,
        None => line,
    }
}

pub open spec fn value_of(line: Seq<char>) -> Seq<char> {
    match split_once(line, ' ') {
        Some((_, v)) => trim(v),
        None => Seq::empty(),
    }
}

pub open spec fn word_name() -> Seq<char> {
    seq!['n', 'a', 'm', 'e']
}

pub open spec fn word_hint() -> Seq<char> {
    seq!['h', 'i', 'n', 't']
}

pub open spec fn word_link() -> Seq<char> {
    seq!['l', 'i', 'n', 'k']
}

/// `name <text>`
pub open spec fn name_directive(m: Meta, n: nat, value: Seq<char>) -> Result<Meta, Seq<char>> {
    if value.len() == 0 {
        Err(line_msg(n, "'name' needs a value"@))
    } else {
        Ok(Meta { name: value, hints: m.hints, links: m.links })
    }
}

/// `hint <column>,<row> <text>`
pub open spec fn hint_directive(m: Meta, n: nat, value: Seq<char>, sc: Scan, w: nat, h: nat) -> Result<
    Meta,
    Seq<char>,
> {
    let (pos, text) = split_or_all(value, ' ');
    match coord_spec(n, pos, w, h) {
        Err(e) => Err(e),
        Ok((x, y)) => if trim(text).len() == 0 {
            Err(line_msg(n, "'hint' needs a text"@))
        } else {
            match hint_at(sc.spawns, x, y) {
                None => Err(line_msg(n, "no hint globe '?' at "@ + at_text(x as nat, y as nat))),
                Some(i) => Ok(
                    Meta { name: m.name, hints: m.hints.update(i as int, trim(text)), links: m.links },
                ),
            }
        },
    }
}

/// `link <switch column>,<row> <gate column>,<row>`
pub open spec fn link_directive(m: Meta, n: nat, value: Seq<char>, sc: Scan, w: nat, h: nat) -> Result<
    Meta,
    Seq<char>,
> {
    let (from, to) = split_or_all(value, ' ');
    match coord_spec(n, from, w, h) {
        Err(e) => Err(e),
        Ok(sw) => match coord_spec(n, trim(to), w, h) {
            Err(e) => Err(e),
            Ok(g) => if !has_switch(sc.spawns, sw) {
                Err(line_msg(n, "no switch 'S' at "@ + at_text(sw.0 as nat, sw.1 as nat)))
            } else if sc.tiles[g.1 * w + g.0] != Tile::Gate {
                Err(line_msg(n, "no gate '!' at "@ + at_text(g.0 as nat, g.1 as nat)))
            } else {
                Ok(Meta { name: m.name, hints: m.hints, links: m.links.push(Link { switch: sw, gate: g }) })
            },
        },
    }
}

/// One metadata line (line `n`).
pub open spec fn directive(m: Meta, n: nat, line: Seq<char>, sc: Scan, w: nat, h: nat) -> Result<
    Meta,
    Seq<char>,
> {
    let key = key_of(line);
    if key == word_name() {
        name_directive(m, n, value_of(line))
    } else if key == word_hint() {
        hint_directive(m, n, value_of(line), sc, w, h)
    } else if key == word_link() {
        link_directive(m, n, value_of(line), sc, w, h)
    } else {
        Err(line_msg(n, "unknown directive '"@ + key + "'"@))
    }
}

/// The metadata lines, in order.
pub open spec fn directives(ms: Seq<(nat, Seq<char>)>, init: Meta, sc: Scan, w: nat, h: nat) -> Result<
    Meta,
    Seq<char>,
>
    decreases ms.len(),
{
    if ms.len() == 0 {
        Ok(init)
    } else {
        match directives(ms.drop_last(), init, sc, w, h) {
            Err(e) => Err(e),
            Ok(m) => directive(m, ms.last().0, ms.last().1, sc, w, h),
        }
    }
}

pub open spec fn switch_linked(links: Seq<Link>, x: usize, y: usize) -> bool {
    exists|j: int| 0 <= j < links.len() && (#[trigger] links[j]).switch == (x, y)
}

/// A hint globe without text, or a switch without a link.
pub open spec fn spawn_problem(s: Spawn, hints: Seq<Seq<char>>, links: Seq<Link>) -> Option<
    Seq<char>,
> {
    match s.kind {
        SpawnKind::Hint(i) => if hints[i as int].len() == 0 {
            Some("the hint globe at "@ + at_text(s.x as nat, s.y as nat) + " has no text"@)
        } else {
            None
        },
        SpawnKind::Switch => if !switch_linked(links, s.x, s.y) {
            Some("the switch at "@ + at_text(s.x as nat, s.y as nat) + " has no link"@)
        } else {
            None
        },
        _ => None,
    }
}

/// The problem of the first spawn that has one.
pub open spec fn first_problem(spawns: Seq<Spawn>, hints: Seq<Seq<char>>, links: Seq<Link>) -> Option<
    Seq<char>,
>
    decreases spawns.len(),
{
    if spawns.len() == 0 {
        None
    } else {
        match first_problem(spawns.drop_last(), hints, links) {
            Some(e) => Some(e),
            None => spawn_problem(spawns.last(), hints, links),
        }
    }
}

pub open spec fn unnamed() -> Seq<char> {
    "UNNAMED"@
}

/// The metadata as the grid scan left it: default name, empty hint texts, no links.
pub open spec fn initial_meta(sc: Scan) -> Meta {
    Meta {
        name: unnamed(),
        hints: Seq::new(sc.hints, |i: int| Seq::<char>::empty()),
        links: Seq::empty(),
    }
}

/// The level once the metadata has been read, unless a spawn is left without text or link.
pub open spec fn finish(
    read: Result<Meta, Seq<char>>,
    sc: Scan,
    p: (usize, usize),
    w: nat,
    h: nat,
) -> Result<LevelModel, Seq<char>> {
    match read {
        Err(e) => Err(e),
        Ok(m) => match first_problem(sc.spawns, m.hints, m.links) {
            Some(e) => Err(e),
            None => Ok(
                LevelModel {
                    name: m.name,
                    w: w as usize,
                    h: h as usize,
                    tiles: sc.tiles,
                    player: p,
                    spawns: sc.spawns,
                    hints: m.hints,
                    links: m.links,
                },
            ),
        },
    }
}

/// The level a file describes, or the message of its first error.
pub open spec fn parse_spec(t: Seq<char>) -> Result<LevelModel, Seq<char>> {
    let sec = sections(lines(t));
    let h = sec.rows.len();
    let w = if h > 0 {
        sec.rows[0].1.len()
    } else {
        0
    };
    if h == 0 || w == 0 {
        Err("level is empty"@)
    } else {
        match scan_rows(sec.rows, w) {
            Err(e) => Err(e),
            Ok(sc) => match sc.player {
                None => Err("level has no player start 'P'"@),
                Some(p) => finish(directives(sec.meta, initial_meta(sc), sc, w, h), sc, p, w, h),
            },
        }
    }
}


/// Every spawn seen so far, and the player start, lies on an empty tile of the `w`-wide grid
/// built so far.
pub open spec fn on_empty_tiles(sc: Scan, w: nat) -> bool {
    &&& forall|i: int|
        0 <= i < sc.spawns.len() ==> #[trigger] sc.spawns[i].x < w && sc.spawns[i].y * w + sc.spawns[i].x < sc.tiles.len()
            && sc.tiles[sc.spawns[i].y * w + sc.spawns[i].x] == Tile::Empty
    &&& sc.player matches Some(p) ==> p.0 < w && p.1 * w + p.0 < sc.tiles.len() && sc.tiles[p.1 * w + p.0]
        == Tile::Empty
}

proof fn lemma_scan_row_on_empty(st: Scan, n: nat, y: nat, row: Seq<char>, w: nat)
    requires
        on_empty_tiles(st, w),
        st.tiles.len() == y * w,
        row.len() <= w,
        w <= usize::MAX,
        y <= usize::MAX,
    ensures
        scan_row(st, n, y, row) matches Ok(s) ==> on_empty_tiles(s, w) && s.tiles.len() == y * w + row.len(),
    decreases row.len(),
{
    if row.len() > 0 {
        lemma_scan_row_on_empty(st, n, y, row.drop_last(), w);
        match scan_row(st, n, y, row.drop_last()) {
            Err(_) => {},
            Ok(s) => {
                let x = (row.len() - 1) as nat;
                let ch = row.last();
                assert(y * w + x == s.tiles.len());
                match scan_cell(s, n, x, y, ch) {
                    Err(_) => {},
                    Ok(s2) => {
                        assert(s2.tiles == s.tiles.push(s2.tiles.last()));
                        assert forall|i: int| 0 <= i < s2.spawns.len() implies #[trigger] s2.spawns[i].x < w
                            && s2.spawns[i].y * w + s2.spawns[i].x < s2.tiles.len() && s2.tiles[s2.spawns[i].y * w
                            + s2.spawns[i].x] == Tile::Empty by {
                            if i < s.spawns.len() {
                                assert(s2.spawns[i] == s.spawns[i]);
                            }
                        }
                    },
                }
            },
        }
    }
}

proof fn lemma_scan_rows_on_empty(rows: Seq<(nat, Seq<char>)>, w: nat)
    requires
        w <= usize::MAX,
        rows.len() <= usize::MAX + 1,
    ensures
        scan_rows(rows, w) matches Ok(sc) ==> on_empty_tiles(sc, w) && sc.tiles.len() == rows.len() * w,
    decreases rows.len(),
{
    if rows.len() > 0 {
        lemma_scan_rows_on_empty(rows.drop_last(), w);
        match scan_rows(rows.drop_last(), w) {
            Err(_) => {},
            Ok(s) => {
                let (n, row) = rows.last();
                if row.len() == w {
                    let y = (rows.len() - 1) as nat;
                    assert(s.tiles.len() == y * w);
                    lemma_scan_row_on_empty(s, n, y, row, w);
                    assert(y * w + w == rows.len() * w) by (nonlinear_arith)
                        requires
                            y == rows.len() - 1,
                    ;
                }
            },
        }
    }
}

/// Lines are no longer than the text, and there is at most one more than its length.
proof fn lemma_lines_short(t: Seq<char>)
    ensures
        1 <= lines(t).len() <= t.len() + 1,
        forall|i: int| 0 <= i < lines(t).len() ==> #[trigger] lines(t)[i].len() <= t.len(),
    decreases t.len(),
{
    if t.len() > 0 {
        let r = lines(t.drop_last());
        lemma_lines_short(t.drop_last());
        if t.last() == '\n' {
            assert forall|i: int| 0 <= i < lines(t).len() implies #[trigger] lines(t)[i].len() <= t.len() by {
                if i < r.len() {
                    assert(lines(t)[i] == r[i]);
                }
            }
        } else {
            assert forall|i: int| 0 <= i < lines(t).len() implies #[trigger] lines(t)[i].len() <= t.len() by {
                if i < r.len() - 1 {
                    assert(lines(t)[i] == r[i]);
                } else {
                    assert(lines(t)[i] == r.last().push(t.last()));
                }
            }
        }
    }
}

proof fn lemma_trim_end_short(s: Seq<char>)
    ensures
        trim_end(s).len() <= s.len(),
    decreases s.len(),
{
    if s.len() > 0 && is_ws(s.last()) {
        lemma_trim_end_short(s.drop_last());
    }
}

/// Grid rows are no longer than the longest line and no more than the lines.
proof fn lemma_sections_short(ls: Seq<Seq<char>>, bound: nat)
    requires
        forall|i: int| 0 <= i < ls.len() ==> #[trigger] ls[i].len() <= bound,
    ensures
        sections(ls).rows.len() <= ls.len(),
        forall|i: int| 0 <= i < sections(ls).rows.len() ==> #[trigger] sections(ls).rows[i].1.len() <= bound,
    decreases ls.len(),
{
    if ls.len() > 0 {
        lemma_sections_short(ls.drop_last(), bound);
        lemma_trim_end_short(ls.last());
        assert(ls.last() == ls[ls.len() - 1]);
    }
}

/// Tiles are the static grid and everything else is a spawn: in a parsed level every spawn and
/// the player start lie inside the grid, on an empty tile.
pub proof fn lemma_parsed_spawns_lie_on_empty_tiles(t: Seq<char>)
    requires
        t.len() < usize::MAX,
    ensures
        parse_spec(t) matches Ok(m) ==> {
            &&& forall|i: int|
                0 <= i < m.spawns.len() ==> #[trigger] m.spawns[i].x < m.w && m.spawns[i].y < m.h
                    && m.tiles[m.spawns[i].y * m.w + m.spawns[i].x] == Tile::Empty
            &&& m.player.0 < m.w && m.player.1 < m.h && m.tiles[m.player.1 * m.w + m.player.0] == Tile::Empty
            &&& m.tiles.len() == m.w * m.h
        },
{
    let sec = sections(lines(t));
    let h = sec.rows.len();
    lemma_lines_short(t);
    lemma_sections_short(lines(t), t.len());
    if h > 0 {
        let w = sec.rows[0].1.len();
        lemma_scan_rows_on_empty(sec.rows, w);
        match parse_spec(t) {
            Ok(m) => {
                let sc = scan_rows(sec.rows, w)->Ok_0;
                assert(m.tiles == sc.tiles && m.spawns == sc.spawns && m.w == w && m.h == h);
                assert(m.tiles.len() == m.w * m.h) by (nonlinear_arith)
                    requires
                        m.tiles.len() == h * w,
                        m.w == w,
                        m.h == h,
                ;
                assert forall|i: int| 0 <= i < m.spawns.len() implies #[trigger] m.spawns[i].x < m.w && m.spawns[i].y
                    < m.h && m.tiles[m.spawns[i].y * m.w + m.spawns[i].x] == Tile::Empty by {
                    let sp = m.spawns[i];
                    assert(sp.y * w + sp.x < h * w);
                    assert(sp.y < h) by (nonlinear_arith)
                        requires
                            sp.y * w + sp.x < h * w,
                            0 <= sp.x,
                    ;
                }
                let p = m.player;
                assert(p.1 < h) by (nonlinear_arith)
                    requires
                        p.1 * w + p.0 < h * w,
                        0 <= p.0,
                ;
            },
            Err(_) => {},
        }
    }
}


/// The number of hint globes among `s`.
pub open spec fn hint_count(s: Seq<Spawn>) -> nat
    decreases s.len(),
{
    if s.len() == 0 {
        0
    } else {
        hint_count(s.drop_last()) + if s.last().kind is Hint {
            1nat
        } else {
            0nat
        }
    }
}

/// Hint globes are numbered 0, 1, 2, ... in the order they appear.
pub open spec fn hints_numbered(s: Seq<Spawn>) -> bool {
    forall|i: int|
        0 <= i < s.len() && (#[trigger] s[i]).kind is Hint ==> s[i].kind->Hint_0 == hint_count(s.take(i))
}

/// The scan has counted its globes and numbered them in order.
pub open spec fn globes_counted(sc: Scan) -> bool {
    &&& sc.hints == hint_count(sc.spawns)
    &&& hints_numbered(sc.spawns)
    &&& hint_count(sc.spawns) <= sc.spawns.len() <= sc.tiles.len()
}

proof fn lemma_push_keeps_numbering(s: Seq<Spawn>, sp: Spawn)
    requires
        hints_numbered(s),
        sp.kind is Hint ==> sp.kind->Hint_0 == hint_count(s),
    ensures
        hints_numbered(s.push(sp)),
        hint_count(s.push(sp)) == hint_count(s) + if sp.kind is Hint {
            1nat
        } else {
            0nat
        },
{
    assert(s.push(sp).drop_last() =~= s);
    assert forall|i: int| 0 <= i < s.push(sp).len() && (#[trigger] s.push(sp)[i]).kind is Hint implies s.push(
        sp,
    )[i].kind->Hint_0 == hint_count(s.push(sp).take(i)) by {
        if i < s.len() {
            assert(s.push(sp).take(i) =~= s.take(i));
            assert(s.push(sp)[i] == s[i]);
        } else {
            assert(s.push(sp).take(i) =~= s);
        }
    }
}

proof fn lemma_scan_row_counts(st: Scan, n: nat, y: nat, row: Seq<char>)
    requires
        globes_counted(st),
        st.tiles.len() + row.len() <= usize::MAX,
    ensures
        scan_row(st, n, y, row) matches Ok(s) ==> globes_counted(s) && s.tiles.len() == st.tiles.len() + row.len(),
    decreases row.len(),
{
    if row.len() > 0 {
        lemma_scan_row_counts(st, n, y, row.drop_last());
        match scan_row(st, n, y, row.drop_last()) {
            Err(_) => {},
            Ok(s) => {
                let x = (row.len() - 1) as nat;
                let ch = row.last();
                if ch == '?' {
                    assert(s.hints <= usize::MAX);
                    lemma_push_keeps_numbering(
                        s.spawns,
                        Spawn { kind: SpawnKind::Hint(s.hints as usize), x: x as usize, y: y as usize },
                    );
                } else if ch != 'P' {
                    match tile_char(ch) {
                        Some((t, Some(kind))) => {
                            lemma_push_keeps_numbering(s.spawns, Spawn { kind: kind, x: x as usize, y: y as usize });
                        },
                        _ => {},
                    }
                }
            },
        }
    }
}

proof fn lemma_scan_rows_counts(rows: Seq<(nat, Seq<char>)>, w: nat)
    requires
        rows.len() * w <= usize::MAX,
    ensures
        scan_rows(rows, w) matches Ok(sc) ==> globes_counted(sc) && sc.tiles.len() == rows.len() * w,
    decreases rows.len(),
{
    if rows.len() > 0 {
        assert((rows.len() - 1) * w + w == rows.len() * w) by (nonlinear_arith);
        lemma_scan_rows_counts(rows.drop_last(), w);
        match scan_rows(rows.drop_last(), w) {
            Err(_) => {},
            Ok(s) => {
                let (n, row) = rows.last();
                if row.len() == w {
                    lemma_scan_row_counts(s, n, (rows.len() - 1) as nat, row);
                }
            },
        }
    } else {
        assert(hints_numbered(Seq::<Spawn>::empty()));
    }
}

/// A globe's number is below the number of globes.
proof fn lemma_globe_number_in_range(s: Seq<Spawn>, i: int)
    requires
        0 <= i < s.len(),
        s[i].kind is Hint,
    ensures
        hint_count(s.take(i)) < hint_count(s),
    decreases s.len(),
{
    assert(s.take(s.len() as int) =~= s);
    if i < s.len() - 1 {
        lemma_globe_number_in_range(s.drop_last(), i);
        assert(s.drop_last().take(i) =~= s.take(i));
        assert(s.drop_last()[i] == s[i]);
    } else {
        assert(s.drop_last() =~= s.take(i));
    }
}

/// Each number below the count of globes belongs to a globe.
proof fn lemma_globe_for_number(s: Seq<Spawn>, k: int)
    requires
        hints_numbered(s),
        0 <= k < hint_count(s),
    ensures
        exists|i: int| 0 <= i < s.len() && (#[trigger] s[i]).kind is Hint && s[i].kind->Hint_0 == k,
    decreases s.len(),
{
    let d = s.drop_last();
    assert(s.take(s.len() - 1) =~= d);
    if s.last().kind is Hint && k == hint_count(d) {
        assert(s[s.len() - 1].kind->Hint_0 == hint_count(s.take(s.len() - 1)));
    } else {
        assert forall|i: int| 0 <= i < d.len() && (#[trigger] d[i]).kind is Hint implies d[i].kind->Hint_0
            == hint_count(d.take(i)) by {
            assert(d.take(i) =~= s.take(i));
            assert(d[i] == s[i]);
        }
        lemma_globe_for_number(d, k);
        let i = choose|i: int| 0 <= i < d.len() && (#[trigger] d[i]).kind is Hint && d[i].kind->Hint_0 == k;
        assert(s[i] == d[i]);
    }
}

/// A link whose switch is a switch spawn and whose gate is a gate tile of the `w` x `h` grid.
pub open spec fn good_link(l: Link, sc: Scan, w: nat, h: nat) -> bool {
    &&& has_switch(sc.spawns, l.switch)
    &&& l.gate.0 < w
    &&& l.gate.1 < h
    &&& sc.tiles[l.gate.1 * w + l.gate.0] == Tile::Gate
}

proof fn lemma_coord_in_range(n: nat, s: Seq<char>, w: nat, h: nat)
    requires
        w <= usize::MAX,
        h <= usize::MAX,
    ensures
        coord_spec(n, s, w, h) matches Ok(p) ==> p.0 < w && p.1 < h,
{
    reveal(coord_spec);
}

/// Every globe's number is below the number of globes.
proof fn lemma_globe_numbers_in_range(spawns: Seq<Spawn>)
    requires
        hints_numbered(spawns),
    ensures
        forall|j: int|
            0 <= j < spawns.len() && (#[trigger] spawns[j]).kind is Hint ==> spawns[j].kind->Hint_0 < hint_count(
                spawns,
            ),
{
    assert forall|j: int| 0 <= j < spawns.len() && (#[trigger] spawns[j]).kind is Hint implies spawns[j].kind->Hint_0
        < hint_count(spawns) by {
        lemma_globe_number_in_range(spawns, j);
    }
}

/// Where a globe stands at (x, y), a first one does.
proof fn lemma_first_hint_at(spawns: Seq<Spawn>, x: usize, y: usize, j: int)
    requires
        0 <= j < spawns.len(),
        is_hint_at(spawns[j], x, y),
    ensures
        exists|m: int|
            0 <= m < spawns.len() && is_hint_at(#[trigger] spawns[m], x, y) && forall|k: int|
                0 <= k < m ==> !is_hint_at(#[trigger] spawns[k], x, y),
    decreases j,
{
    if exists|k: int| 0 <= k < j && is_hint_at(#[trigger] spawns[k], x, y) {
        let k = choose|k: int| 0 <= k < j && is_hint_at(#[trigger] spawns[k], x, y);
        lemma_first_hint_at(spawns, x, y, k);
    } else {
        assert(forall|k: int| 0 <= k < j ==> !is_hint_at(#[trigger] spawns[k], x, y));
    }
}

proof fn lemma_hint_at_in_range(spawns: Seq<Spawn>, x: usize, y: usize)
    requires
        forall|j: int|
            0 <= j < spawns.len() && (#[trigger] spawns[j]).kind is Hint ==> spawns[j].kind->Hint_0 < hint_count(
                spawns,
            ),
    ensures
        hint_at(spawns, x, y) matches Some(i) ==> i < hint_count(spawns),
{
    reveal(hint_at);
    if exists|j: int| 0 <= j < spawns.len() && is_hint_at(#[trigger] spawns[j], x, y) {
        let j = choose|j: int|
            0 <= j < spawns.len() && is_hint_at(#[trigger] spawns[j], x, y) && forall|k: int|
                0 <= k < j ==> !is_hint_at(#[trigger] spawns[k], x, y);
        let w = choose|j: int| 0 <= j < spawns.len() && is_hint_at(#[trigger] spawns[j], x, y);
        lemma_first_hint_at(spawns, x, y, w);
        assert(is_hint_at(spawns[j], x, y));
    }
}

proof fn lemma_hint_keeps(m: Meta, n: nat, value: Seq<char>, sc: Scan, w: nat, h: nat)
    requires
        hints_numbered(sc.spawns),
        m.hints.len() == hint_count(sc.spawns),
    ensures
        hint_directive(m, n, value, sc, w, h) matches Ok(m2) ==> m2.hints.len() == m.hints.len() && m2.links == m.links,
{
    let (pos, text) = split_or_all(value, ' ');
    match coord_spec(n, pos, w, h) {
        Ok((x, y)) => {
            lemma_globe_numbers_in_range(sc.spawns);
            lemma_hint_at_in_range(sc.spawns, x, y);
        },
        Err(_) => {},
    }
}

proof fn lemma_link_keeps(m: Meta, n: nat, value: Seq<char>, sc: Scan, w: nat, h: nat)
    requires
        w <= usize::MAX,
        h <= usize::MAX,
        forall|j: int| 0 <= j < m.links.len() ==> good_link(#[trigger] m.links[j], sc, w, h),
    ensures
        link_directive(m, n, value, sc, w, h) matches Ok(m2) ==> m2.hints == m.hints && forall|j: int|
            0 <= j < m2.links.len() ==> good_link(#[trigger] m2.links[j], sc, w, h),
{
    let (from, to) = split_or_all(value, ' ');
    lemma_coord_in_range(n, from, w, h);
    lemma_coord_in_range(n, trim(to), w, h);
    match link_directive(m, n, value, sc, w, h) {
        Err(_) => {},
        Ok(m2) => {
            assert forall|j: int| 0 <= j < m2.links.len() implies good_link(#[trigger] m2.links[j], sc, w, h) by {
                if j < m.links.len() {
                    assert(m2.links[j] == m.links[j]);
                }
            }
        },
    }
}

proof fn lemma_directive_keeps(m: Meta, n: nat, line: Seq<char>, sc: Scan, w: nat, h: nat)
    requires
        w <= usize::MAX,
        h <= usize::MAX,
        hints_numbered(sc.spawns),
        m.hints.len() == hint_count(sc.spawns),
        forall|j: int| 0 <= j < m.links.len() ==> good_link(#[trigger] m.links[j], sc, w, h),
    ensures
        directive(m, n, line, sc, w, h) matches Ok(m2) ==> m2.hints.len() == m.hints.len() && forall|j: int|
            0 <= j < m2.links.len() ==> good_link(#[trigger] m2.links[j], sc, w, h),
{
    lemma_hint_keeps(m, n, value_of(line), sc, w, h);
    lemma_link_keeps(m, n, value_of(line), sc, w, h);
}

proof fn lemma_directives_keep(ms: Seq<(nat, Seq<char>)>, init: Meta, sc: Scan, w: nat, h: nat)
    requires
        w <= usize::MAX,
        h <= usize::MAX,
        hints_numbered(sc.spawns),
        init.hints.len() == hint_count(sc.spawns),
        forall|j: int| 0 <= j < init.links.len() ==> good_link(#[trigger] init.links[j], sc, w, h),
    ensures
        directives(ms, init, sc, w, h) matches Ok(m) ==> m.hints.len() == init.hints.len() && forall|j: int|
            0 <= j < m.links.len() ==> good_link(#[trigger] m.links[j], sc, w, h),
    decreases ms.len(),
{
    if ms.len() > 0 {
        lemma_directives_keep(ms.drop_last(), init, sc, w, h);
        match directives(ms.drop_last(), init, sc, w, h) {
            Err(_) => {},
            Ok(m) => {
                lemma_directive_keeps(m, ms.last().0, ms.last().1, sc, w, h);
            },
        }
    }
}

/// No whitespace at either end.
pub open spec fn trimmed(s: Seq<char>) -> bool {
    s.len() > 0 ==> !is_ws(s[0]) && !is_ws(s.last())
}

proof fn lemma_trim_end_ends(s: Seq<char>)
    ensures
        trim_end(s).len() > 0 ==> !is_ws(trim_end(s).last()),
        trim_end(s).len() <= s.len(),
        trim_end(s) =~= s.subrange(0, trim_end(s).len() as int),
    decreases s.len(),
{
    if s.len() > 0 && is_ws(s.last()) {
        lemma_trim_end_ends(s.drop_last());
        let k = trim_end(s).len() as int;
        assert(s.drop_last().subrange(0, k) =~= s.subrange(0, k));
    }
}

proof fn lemma_trim_start_starts(s: Seq<char>)
    ensures
        trim_start(s).len() > 0 ==> !is_ws(trim_start(s)[0]),
        trim_start(s).len() <= s.len(),
        trim_start(s) =~= s.subrange(s.len() - trim_start(s).len(), s.len() as int),
    decreases s.len(),
{
    if s.len() > 0 && is_ws(s[0]) {
        lemma_trim_start_starts(s.drop_first());
    }
}

/// `trim` leaves no whitespace at either end.
proof fn lemma_trim_trimmed(s: Seq<char>)
    ensures
        trimmed(trim(s)),
{
    lemma_trim_end_ends(s);
    lemma_trim_start_starts(trim_end(s));
    let e = trim_end(s);
    let t = trim_start(e);
    if t.len() > 0 {
        assert(t.last() == e[e.len() - 1]);
    }
}

proof fn lemma_directive_trims(m: Meta, n: nat, line: Seq<char>, sc: Scan, w: nat, h: nat)
    requires
        hints_numbered(sc.spawns),
        m.hints.len() == hint_count(sc.spawns),
        forall|k: int| 0 <= k < m.hints.len() ==> trimmed(#[trigger] m.hints[k]),
    ensures
        directive(m, n, line, sc, w, h) matches Ok(m2) ==> forall|k: int|
            0 <= k < m2.hints.len() ==> trimmed(#[trigger] m2.hints[k]),
{
    let (pos, text) = split_or_all(value_of(line), ' ');
    lemma_trim_trimmed(text);
    if key_of(line) == word_hint() {
        match coord_spec(n, pos, w, h) {
            Err(_) => {},
            Ok((x, y)) => {
                lemma_globe_numbers_in_range(sc.spawns);
                lemma_hint_at_in_range(sc.spawns, x, y);
                match hint_at(sc.spawns, x, y) {
                    None => {},
                    Some(i) => {
                        let u = m.hints.update(i as int, trim(text));
                        assert forall|k: int| 0 <= k < u.len() implies trimmed(#[trigger] u[k]) by {
                            if k != i {
                                assert(u[k] == m.hints[k]);
                            }
                        }
                    },
                }
            },
        }
    }
}

proof fn lemma_directives_trim(ms: Seq<(nat, Seq<char>)>, init: Meta, sc: Scan, w: nat, h: nat)
    requires
        w <= usize::MAX,
        h <= usize::MAX,
        hints_numbered(sc.spawns),
        init.hints.len() == hint_count(sc.spawns),
        forall|j: int| 0 <= j < init.links.len() ==> good_link(#[trigger] init.links[j], sc, w, h),
        forall|k: int| 0 <= k < init.hints.len() ==> trimmed(#[trigger] init.hints[k]),
    ensures
        directives(ms, init, sc, w, h) matches Ok(m) ==> forall|k: int|
            0 <= k < m.hints.len() ==> trimmed(#[trigger] m.hints[k]),
    decreases ms.len(),
{
    if ms.len() > 0 {
        lemma_directives_trim(ms.drop_last(), init, sc, w, h);
        lemma_directives_keep(ms.drop_last(), init, sc, w, h);
        match directives(ms.drop_last(), init, sc, w, h) {
            Err(_) => {},
            Ok(m) => {
                lemma_directive_trims(m, ms.last().0, ms.last().1, sc, w, h);
            },
        }
    }
}

/// No spawn has a problem once the first problem is none.
proof fn lemma_no_first_problem(spawns: Seq<Spawn>, hints: Seq<Seq<char>>, links: Seq<Link>)
    requires
        first_problem(spawns, hints, links) is None,
    ensures
        forall|i: int| 0 <= i < spawns.len() ==> spawn_problem(#[trigger] spawns[i], hints, links) is None,
    decreases spawns.len(),
{
    if spawns.len() > 0 {
        lemma_no_first_problem(spawns.drop_last(), hints, links);
        assert forall|i: int| 0 <= i < spawns.len() implies spawn_problem(#[trigger] spawns[i], hints, links) is None by {
            if i < spawns.len() - 1 {
                assert(spawns[i] == spawns.drop_last()[i]);
            }
        }
    }
}


/// The total length of the lines.
pub open spec fn total_len(ls: Seq<Seq<char>>) -> nat
    decreases ls.len(),
{
    if ls.len() == 0 {
        0
    } else {
        total_len(ls.drop_last()) + ls.last().len()
    }
}

/// The total length of the numbered rows.
pub open spec fn rows_total(rows: Seq<(nat, Seq<char>)>) -> nat
    decreases rows.len(),
{
    if rows.len() == 0 {
        0
    } else {
        rows_total(rows.drop_last()) + rows.last().1.len()
    }
}

/// The lines hold the text's characters but its line breaks.
proof fn lemma_lines_total(t: Seq<char>)
    ensures
        total_len(lines(t)) + lines(t).len() == t.len() + 1,
    decreases t.len(),
{
    if t.len() == 0 {
        assert(lines(t).drop_last() =~= Seq::<Seq<char>>::empty());
        assert(total_len(lines(t)) == total_len(lines(t).drop_last()) + lines(t).last().len());
    } else {
        let r = lines(t.drop_last());
        lemma_lines_total(t.drop_last());
        lemma_lines_short(t.drop_last());
        if t.last() == '\n' {
            assert(lines(t) == r.push(Seq::empty()));
            assert(lines(t).drop_last() =~= r);
            assert(total_len(lines(t)) == total_len(r));
            assert(lines(t).len() == r.len() + 1);
        } else {
            let x = r.last().push(t.last());
            assert(lines(t).drop_last() =~= r.drop_last());
            assert(lines(t).last() == x);
            assert(total_len(lines(t)) == total_len(r.drop_last()) + x.len());
            assert(total_len(r) == total_len(r.drop_last()) + r.last().len());
            assert(lines(t).len() == r.len());
        }
    }
}

/// The grid rows hold no more characters than the lines.
proof fn lemma_sections_total(ls: Seq<Seq<char>>)
    ensures
        rows_total(sections(ls).rows) <= total_len(ls),
    decreases ls.len(),
{
    if ls.len() > 0 {
        lemma_sections_total(ls.drop_last());
        lemma_trim_end_short(ls.last());
        let s = sections(ls.drop_last());
        let r = sections(ls).rows;
        if r.len() > s.rows.len() {
            assert(r.drop_last() =~= s.rows);
        }
    }
}

/// Rows that scan all have the grid's width.
proof fn lemma_scan_rows_total(rows: Seq<(nat, Seq<char>)>, w: nat)
    ensures
        scan_rows(rows, w) is Ok ==> rows_total(rows) == rows.len() * w,
    decreases rows.len(),
{
    if rows.len() > 0 {
        lemma_scan_rows_total(rows.drop_last(), w);
        assert((rows.len() - 1) * w + w == rows.len() * w) by (nonlinear_arith);
    }
}

/// In a parsed level every hint globe has its text and every switch its gates: there is one hint
/// text per `?`, the globes are numbered 0, 1, 2, ... in reading order and every text is
/// non-empty with no whitespace at either end;
/// every switch has a link; every link starts at a switch and ends on a gate tile.
pub proof fn lemma_parsed_hints_and_links(t: Seq<char>)
    requires
        t.len() < usize::MAX,
    ensures
        parse_spec(t) matches Ok(m) ==> {
            &&& m.hints.len() == hint_count(m.spawns)
            &&& hints_numbered(m.spawns)
            &&& forall|i: int|
                0 <= i < m.spawns.len() && (#[trigger] m.spawns[i]).kind is Hint ==> m.spawns[i].kind->Hint_0
                    < m.hints.len() && m.hints[m.spawns[i].kind->Hint_0 as int].len() > 0
            &&& forall|k: int| 0 <= k < m.hints.len() ==> (#[trigger] m.hints[k]).len() > 0 && trimmed(m.hints[k])
            &&& forall|i: int|
                0 <= i < m.spawns.len() && (#[trigger] m.spawns[i]).kind == SpawnKind::Switch ==> switch_linked(
                    m.links,
                    m.spawns[i].x,
                    m.spawns[i].y,
                )
            &&& forall|j: int|
                0 <= j < m.links.len() ==> has_switch(m.spawns, (#[trigger] m.links[j]).switch) && m.links[j].gate.0
                    < m.w && m.links[j].gate.1 < m.h && m.tiles[m.links[j].gate.1 * m.w + m.links[j].gate.0]
                    == Tile::Gate
        },
{
    let sec = sections(lines(t));
    let h = sec.rows.len();
    lemma_lines_short(t);
    lemma_sections_short(lines(t), t.len());
    if h > 0 {
        let w = sec.rows[0].1.len();
        lemma_lines_total(t);
        lemma_sections_total(lines(t));
        lemma_scan_rows_total(sec.rows, w);
        if scan_rows(sec.rows, w) is Ok {
            lemma_scan_rows_counts(sec.rows, w);
        }
        match scan_rows(sec.rows, w) {
            Err(_) => {},
            Ok(sc) => {
                let init = initial_meta(sc);
                lemma_scan_rows_on_empty(sec.rows, w);
                lemma_directives_keep(sec.meta, init, sc, w, h);
                lemma_directives_trim(sec.meta, init, sc, w, h);
                match parse_spec(t) {
                    Err(_) => {},
                    Ok(m) => {
                        let md = directives(sec.meta, init, sc, w, h)->Ok_0;
                        assert(m.hints == md.hints && m.links == md.links && m.spawns == sc.spawns);
                        lemma_no_first_problem(sc.spawns, md.hints, md.links);
                        assert forall|i: int|
                            0 <= i < m.spawns.len() && (#[trigger] m.spawns[i]).kind is Hint implies m.spawns[i].kind->Hint_0
                            < m.hints.len() && m.hints[m.spawns[i].kind->Hint_0 as int].len() > 0 by {
                            lemma_globe_number_in_range(sc.spawns, i);
                            assert(spawn_problem(sc.spawns[i], md.hints, md.links) is None);
                        }
                        assert forall|k: int| 0 <= k < m.hints.len() implies (#[trigger] m.hints[k]).len() > 0 by {
                            lemma_globe_for_number(sc.spawns, k);
                            let i = choose|i: int|
                                0 <= i < sc.spawns.len() && (#[trigger] sc.spawns[i]).kind is Hint
                                    && sc.spawns[i].kind->Hint_0 == k;
                            assert(m.spawns[i].kind is Hint);
                        }
                        assert forall|i: int|
                            0 <= i < m.spawns.len() && (#[trigger] m.spawns[i]).kind == SpawnKind::Switch implies switch_linked(
                            m.links,
                            m.spawns[i].x,
                            m.spawns[i].y,
                        ) by {
                            assert(spawn_problem(sc.spawns[i], md.hints, md.links) is None);
                        }
                    },
                }
            },
        }
    }
}

/// The tile a grid character stands for: `P` and `?` stand on empty tiles, every other
/// character as `tile_char` says.
pub open spec fn char_tile(ch: char) -> Tile {
    if ch == 'P' || ch == '?' {
        Tile::Empty
    } else {
        tile_char(ch)->Some_0.0
    }
}

proof fn lemma_scan_row_tiles(st: Scan, n: nat, y: nat, row: Seq<char>)
    ensures
        scan_row(st, n, y, row) matches Ok(s) ==> {
            &&& s.tiles.len() == st.tiles.len() + row.len()
            &&& forall|i: int| 0 <= i < st.tiles.len() ==> #[trigger] s.tiles[i] == st.tiles[i]
            &&& forall|x: int| #![trigger row[x]] 0 <= x < row.len() ==> s.tiles[st.tiles.len() + x] == char_tile(row[x])
                && (row[x] == 'P' || row[x] == '?' || tile_char(row[x]) is Some)
        },
    decreases row.len(),
{
    if row.len() > 0 {
        let r = row.drop_last();
        lemma_scan_row_tiles(st, n, y, r);
        match scan_row(st, n, y, r) {
            Err(_) => {},
            Ok(s1) => {
                match scan_row(st, n, y, row) {
                    Err(_) => {},
                    Ok(s) => {
                        assert(s.tiles == s1.tiles.push(char_tile(row.last())));
                        assert forall|x: int| #![trigger row[x]] 0 <= x < row.len() implies s.tiles[st.tiles.len() + x]
                            == char_tile(row[x]) && (row[x] == 'P' || row[x] == '?' || tile_char(row[x]) is Some) by {
                            if x < row.len() - 1 {
                                assert(row[x] == r[x]);
                            }
                        }
                    },
                }
            },
        }
    }
}

proof fn lemma_scan_rows_tiles(rows: Seq<(nat, Seq<char>)>, w: nat)
    ensures
        scan_rows(rows, w) matches Ok(sc) ==> {
            &&& sc.tiles.len() == rows.len() * w
            &&& forall|y: int| 0 <= y < rows.len() ==> (#[trigger] rows[y]).1.len() == w
            &&& forall|x: int, y: int|
                0 <= x < w && 0 <= y < rows.len() ==> #[trigger] grid_at(sc.tiles, w as int, x, y) == char_tile(
                    rows[y].1[x],
                ) && (rows[y].1[x] == 'P' || rows[y].1[x] == '?' || tile_char(rows[y].1[x]) is Some)
        },
    decreases rows.len(),
{
    if rows.len() > 0 {
        let r = rows.drop_last();
        lemma_scan_rows_tiles(r, w);
        match scan_rows(r, w) {
            Err(_) => {},
            Ok(s1) => {
                let (n, row) = rows.last();
                lemma_scan_row_tiles(s1, n, (rows.len() - 1) as nat, row);
                match scan_rows(rows, w) {
                    Err(_) => {},
                    Ok(sc) => {
                        let k = rows.len() - 1;
                        assert(k * w + w == rows.len() * w) by (nonlinear_arith)
                            requires
                                k == rows.len() - 1,
                        ;
                        assert forall|y: int| 0 <= y < rows.len() implies (#[trigger] rows[y]).1.len() == w by {
                            if y < k {
                                assert(rows[y] == r[y]);
                            }
                        }
                        assert forall|x: int, y: int|
                            0 <= x < w && 0 <= y < rows.len() implies #[trigger] grid_at(sc.tiles, w as int, x, y)
                            == char_tile(rows[y].1[x]) && (rows[y].1[x] == 'P' || rows[y].1[x] == '?' || tile_char(
                            rows[y].1[x],
                        ) is Some) by {
                            if y < k {
                                assert(rows[y] == r[y]);
                                assert(y * w + x < k * w) by (nonlinear_arith)
                                    requires
                                        0 <= x < w,
                                        0 <= y < k,
                                ;
                                assert(grid_at(s1.tiles, w as int, x, y) == char_tile(r[y].1[x]));
                                assert(sc.tiles[y * w + x] == s1.tiles[y * w + x]);
                            } else {
                                assert(y * w + x == k * w + x);
                                assert(row[x] == rows[y].1[x]);
                            }
                        }
                    },
                }
            },
        }
    }
}

/// A parsed level's grid is the non-blank lines before the first `---` line, trailing
/// whitespace removed: at least one row, all as wide as the first and at least one tile wide,
/// and each tile the one its character stands for: `#` brick, `=` girder, `X` exit, `!` gate,
/// `C` crate, `%` cracked wall, `R` `G` `B` `Y` the doors, and `.`, the player start and the
/// spawn characters an empty tile. No other character occurs.
pub proof fn lemma_parsed_grid(t: Seq<char>)
    requires
        t.len() < usize::MAX,
    ensures
        parse_spec(t) matches Ok(m) ==> {
            let rows = sections(lines(t)).rows;
            &&& m.h == rows.len() && m.h >= 1
            &&& m.w == rows[0].1.len() && m.w >= 1
            &&& m.tiles.len() == m.w * m.h
            &&& forall|y: int| 0 <= y < m.h ==> (#[trigger] rows[y]).1.len() == m.w
            &&& forall|x: int, y: int|
                0 <= x < m.w && 0 <= y < m.h ==> #[trigger] grid_at(m.tiles, m.w as int, x, y) == char_tile(
                    rows[y].1[x],
                )
            &&& forall|x: int, y: int|
                0 <= x < m.w && 0 <= y < m.h ==> {
                    let ch = rows[y].1[x];
                    let t = #[trigger] grid_at(m.tiles, m.w as int, x, y);
                    &&& ch == '#' ==> t == Tile::Brick
                    &&& ch == '=' ==> t == Tile::Girder
                    &&& ch == 'X' ==> t == Tile::Exit
                    &&& ch == '!' ==> t == Tile::Gate
                    &&& ch == 'C' ==> t == Tile::Crate
                    &&& ch == '%' ==> t == Tile::Cracked
                    &&& ch == 'R' ==> t == Tile::Door(Color::Red)
                    &&& ch == 'G' ==> t == Tile::Door(Color::Green)
                    &&& ch == 'B' ==> t == Tile::Door(Color::Blue)
                    &&& ch == 'Y' ==> t == Tile::Door(Color::Yellow)
                    &&& (ch == '.' || ch == 'P' || ch == '?' || ch == 'r' || ch == 'g' || ch == 'b' || ch == 'y'
                        || ch == '+' || ch == '*' || ch == 'E' || ch == 'S' || ch == 's') ==> t == Tile::Empty
                    &&& (ch == '#' || ch == '=' || ch == 'X' || ch == '!' || ch == 'C' || ch == '%' || ch == 'R'
                        || ch == 'G' || ch == 'B' || ch == 'Y' || ch == '.' || ch == 'P' || ch == '?' || ch == 'r'
                        || ch == 'g' || ch == 'b' || ch == 'y' || ch == '+' || ch == '*' || ch == 'E' || ch == 'S'
                        || ch == 's')
                }
        },
{
    let sec = sections(lines(t));
    let h = sec.rows.len();
    lemma_lines_short(t);
    lemma_sections_short(lines(t), t.len());
    if h > 0 {
        let w = sec.rows[0].1.len();
        lemma_lines_total(t);
        lemma_sections_total(lines(t));
        lemma_scan_rows_total(sec.rows, w);
        lemma_scan_rows_tiles(sec.rows, w);
        match parse_spec(t) {
            Err(_) => {},
            Ok(m) => {
                let sc = scan_rows(sec.rows, w)->Ok_0;
                assert(m.tiles == sc.tiles && m.w == w && m.h == h);
                assert(h * w == w * h) by (nonlinear_arith);
                assert(m.h >= 1 && m.w >= 1);
                assert(m.tiles.len() == m.w * m.h);
            },
        }
    }
}

/// `ch` is the grid character that places a spawn of this kind: `r` `g` `b` `y` the keys, `+`
/// health, `*` a gem, `E` a bot, `S` a switch, `s` a secret area, `?` a hint globe.
pub open spec fn marks(ch: char, kind: SpawnKind) -> bool {
    match kind {
        SpawnKind::Key(Color::Red) => ch == 'r',
        SpawnKind::Key(Color::Green) => ch == 'g',
        SpawnKind::Key(Color::Blue) => ch == 'b',
        SpawnKind::Key(Color::Yellow) => ch == 'y',
        SpawnKind::Health => ch == '+',
        SpawnKind::Gem => ch == '*',
        SpawnKind::Bot => ch == 'E',
        SpawnKind::Switch => ch == 'S',
        SpawnKind::Secret => ch == 's',
        SpawnKind::Hint(_) => ch == '?',
    }
}

proof fn lemma_scan_row_marks(st: Scan, n: nat, y: nat, row: Seq<char>)
    requires
        y <= usize::MAX,
        row.len() <= usize::MAX + 1,
    ensures
        scan_row(st, n, y, row) matches Ok(s) ==> {
            &&& s.spawns.len() >= st.spawns.len()
            &&& forall|i: int| 0 <= i < st.spawns.len() ==> #[trigger] s.spawns[i] == st.spawns[i]
            &&& forall|i: int|
                st.spawns.len() <= i < s.spawns.len() ==> #[trigger] s.spawns[i].y == y && s.spawns[i].x
                    < row.len() && marks(row[s.spawns[i].x as int], s.spawns[i].kind)
            &&& s.player != st.player ==> (s.player matches Some(p) && p.1 == y && p.0 < row.len() && row[p.0 as int]
                == 'P')
        },
    decreases row.len(),
{
    if row.len() > 0 {
        let r = row.drop_last();
        lemma_scan_row_marks(st, n, y, r);
        match scan_row(st, n, y, r) {
            Err(_) => {},
            Ok(s1) => {
                match scan_row(st, n, y, row) {
                    Err(_) => {},
                    Ok(s) => {
                        let x = (row.len() - 1) as nat;
                        assert(Ok::<Scan, Seq<char>>(s) == scan_cell(s1, n, x, y, row.last()));
                        assert(s.spawns.len() == s1.spawns.len() || s.spawns == s1.spawns.push(s.spawns.last()));
                        assert forall|i: int| st.spawns.len() <= i < s.spawns.len() implies #[trigger] s.spawns[i].y
                            == y && s.spawns[i].x < row.len() && marks(row[s.spawns[i].x as int], s.spawns[i].kind) by {
                            if i < s1.spawns.len() {
                                let sp = s1.spawns[i];
                                assert(s1.spawns[i].y == y);
                                assert(sp.x < r.len());
                                assert(s.spawns[i] == sp);
                                assert(row[sp.x as int] == r[sp.x as int]);
                            } else {
                                assert(s.spawns[i].x == x);
                            }
                        }
                        assert forall|i: int| 0 <= i < st.spawns.len() implies #[trigger] s.spawns[i] == st.spawns[i] by {
                            assert(s.spawns[i] == s1.spawns[i]);
                        }
                        if s1.player != st.player {
                            let p = s1.player->Some_0;
                            assert(row[p.0 as int] == r[p.0 as int]);
                        }
                    },
                }
            },
        }
    }
}

/// Every spawn, and the player start, of the scanned rows sits on its own character.
pub open spec fn spawns_marked(sc: Scan, rows: Seq<(nat, Seq<char>)>) -> bool {
    &&& forall|i: int|
        0 <= i < sc.spawns.len() ==> #[trigger] sc.spawns[i].y < rows.len() && sc.spawns[i].x < rows[sc.spawns[i].y as int].1.len()
            && marks(rows[sc.spawns[i].y as int].1[sc.spawns[i].x as int], sc.spawns[i].kind)
    &&& sc.player matches Some(p) ==> p.1 < rows.len() && p.0 < rows[p.1 as int].1.len() && rows[p.1 as int].1[p.0 as int]
        == 'P'
}

proof fn lemma_scan_rows_marks(rows: Seq<(nat, Seq<char>)>, w: nat)
    requires
        w <= usize::MAX,
        rows.len() <= usize::MAX + 1,
    ensures
        scan_rows(rows, w) matches Ok(sc) ==> spawns_marked(sc, rows),
    decreases rows.len(),
{
    if rows.len() > 0 {
        let r = rows.drop_last();
        lemma_scan_rows_marks(r, w);
        match scan_rows(r, w) {
            Err(_) => {},
            Ok(s1) => {
                let (n, row) = rows.last();
                let y = (rows.len() - 1) as nat;
                if row.len() == w {
                    lemma_scan_row_marks(s1, n, y, row);
                }
                match scan_rows(rows, w) {
                    Err(_) => {},
                    Ok(sc) => {
                        assert forall|i: int| 0 <= i < sc.spawns.len() implies #[trigger] sc.spawns[i].y < rows.len()
                            && sc.spawns[i].x < rows[sc.spawns[i].y as int].1.len() && marks(
                            rows[sc.spawns[i].y as int].1[sc.spawns[i].x as int],
                            sc.spawns[i].kind,
                        ) by {
                            if i < s1.spawns.len() {
                                assert(sc.spawns[i] == s1.spawns[i]);
                                assert(rows[s1.spawns[i].y as int] == r[s1.spawns[i].y as int]);
                            } else {
                                assert(rows[y as int] == rows.last());
                            }
                        }
                        if sc.player == s1.player {
                            if s1.player is Some {
                                let p = s1.player->Some_0;
                                assert(rows[p.1 as int] == r[p.1 as int]);
                            }
                        } else {
                            assert(rows[y as int] == rows.last());
                        }
                    },
                }
            },
        }
    }
}

/// Every spawn of a parsed level, and the player start, sits on the grid character that places
/// it: a key on its color's letter, health on `+`, a gem on `*`, a bot on `E`, a switch on `S`, a
/// secret area on `s`, a hint globe on `?`, the player on `P`.
pub proof fn lemma_parsed_spawns_match_marks(t: Seq<char>)
    requires
        t.len() < usize::MAX,
    ensures
        parse_spec(t) matches Ok(m) ==> {
            let rows = sections(lines(t)).rows;
            &&& forall|i: int|
                0 <= i < m.spawns.len() ==> #[trigger] m.spawns[i].y < m.h && m.spawns[i].x < m.w && marks(
                    rows[m.spawns[i].y as int].1[m.spawns[i].x as int],
                    m.spawns[i].kind,
                )
            &&& rows[m.player.1 as int].1[m.player.0 as int] == 'P'
        },
{
    let sec = sections(lines(t));
    let h = sec.rows.len();
    lemma_lines_short(t);
    lemma_sections_short(lines(t), t.len());
    if h > 0 {
        let w = sec.rows[0].1.len();
        lemma_scan_rows_marks(sec.rows, w);
        lemma_scan_rows_tiles(sec.rows, w);
        match parse_spec(t) {
            Err(_) => {},
            Ok(m) => {
                let sc = scan_rows(sec.rows, w)->Ok_0;
                assert(m.spawns == sc.spawns && m.w == w && m.h == h && Some(m.player) == sc.player);
                assert forall|i: int| 0 <= i < m.spawns.len() implies #[trigger] m.spawns[i].y < m.h && m.spawns[i].x
                    < m.w && marks(sec.rows[m.spawns[i].y as int].1[m.spawns[i].x as int], m.spawns[i].kind) by {
                    assert(sec.rows[m.spawns[i].y as int].1.len() == w);
                }
            },
        }
    }
}

} // verus!
