//! Reading a level file, step by step, as `parse_spec` describes it.
use vstd::prelude::*;

use crate::level::{Color, Level, Link, Spawn, SpawnKind, Tile, at, at_text};
use crate::parse::{
    Meta, Scan, Sections, coord_spec, dashes, digits_value, directive, directives, finish,
    first_problem, has_switch, hint_at, hint_directive, initial_meta, is_digit, is_hint_at,
    is_switch_at, key_of, line_msg, lines, link_directive, next_section, parse_spec, parse_usize, scan_row,
    scan_rows, sections, strip_plus, switch_linked, tile_char, value_of,
};
use crate::text::{
    chars_of, decimal, push_chars, push_decimal, split_at_char, split_or_all, string_of, trim,
    trim_at, trim_end_at,
};

verus! {

proof fn lemma_digits_value_prefix(s: Seq<char>, k: int)
    requires
        0 <= k <= s.len(),
        forall|i: int| 0 <= i < s.len() ==> is_digit(#[trigger] s[i]),
    ensures
        digits_value(s.take(k)) <= digits_value(s),
    decreases s.len(),
{
    if k < s.len() {
        assert(s.drop_last().take(k) =~= s.take(k));
        lemma_digits_value_prefix(s.drop_last(), k);
    } else {
        assert(s.take(k) =~= s);
    }
}

/// `v[lo..hi]` read as a `usize`, like `str::parse::<usize>`.
fn parse_usize_at(v: &Vec<char>, lo: usize, hi: usize) -> (r: Option<usize>)
    requires
        lo <= hi <= v@.len(),
    ensures
        match r {
            Some(x) => parse_usize(v@.subrange(lo as int, hi as int)) == Some(x as nat),
            None => parse_usize(v@.subrange(lo as int, hi as int)) is None,
        },
{
    let ghost s = v@.subrange(lo as int, hi as int);
    let start = if hi > lo && v[lo] == '+' {
        lo + 1
    } else {
        lo
    };
    let ghost d = v@.subrange(start as int, hi as int);
    proof {
        if hi > lo {
            assert(s[0] == v@[lo as int]);
        }
        if hi > lo && v@[lo as int] == '+' {
            assert(s.drop_first() =~= d);
        } else {
            assert(s =~= d);
        }
    }
    if start == hi {
        return None;
    }
    let mut acc: usize = 0;
    let mut i = start;
    while i < hi
        invariant
            lo <= start <= i <= hi <= v@.len(),
            d == v@.subrange(start as int, hi as int),
            s == v@.subrange(lo as int, hi as int),
            d == strip_plus(s),
            d.len() > 0,
            forall|j: int| 0 <= j < i - start ==> is_digit(#[trigger] d[j]),
            acc as nat == digits_value(d.take(i - start)),
        decreases hi - i,
    {
        let c = v[i];
        if !('0' <= c && c <= '9') {
            proof {
                assert(d[i - start] == c);
                assert(!is_digit(d[i - start]));
            }
            return None;
        }
        let dv = (c as u32 - '0' as u32) as usize;
        proof {
            assert(dv == c as nat - '0' as nat);
            assert(d.take(i - start + 1).drop_last() =~= d.take(i - start));
            assert(d.take(i - start + 1).last() == c);
        }
        let m = acc.checked_mul(10);
        if m.is_none() {
            proof {
                if forall|j: int| 0 <= j < d.len() ==> is_digit(#[trigger] d[j]) {
                    lemma_digits_value_prefix(d, i - start + 1);
                }
            }
            return None;
        }
        let a = m.unwrap().checked_add(dv);
        if a.is_none() {
            proof {
                if forall|j: int| 0 <= j < d.len() ==> is_digit(#[trigger] d[j]) {
                    lemma_digits_value_prefix(d, i - start + 1);
                }
            }
            return None;
        }
        acc = a.unwrap();
        i = i + 1;
    }
    proof {
        assert(d.take(hi - start) =~= d);
    }
    Some(acc)
}

/// `line <n>: `
fn line_prefix(n: usize) -> (s: String)
    ensures
        s@ == "line "@ + decimal(n as nat) + ": "@,
{
    let mut s = String::new();
    s.append("line ");
    push_decimal(&mut s, n);
    s.append(": ");
    s
}

/// `column,row` (1-based) in `v[lo..hi]` inside a `w` x `h` level, as a 0-based position.
#[verifier::spinoff_prover]
pub fn coord(n: usize, v: &Vec<char>, lo: usize, hi: usize, w: usize, h: usize) -> (r: Result<
    (usize, usize),
    String,
>)
    requires
        lo <= hi <= v@.len(),
    ensures
        match r {
            Ok(p) => coord_spec(n as nat, v@.subrange(lo as int, hi as int), w as nat, h as nat)
                == Ok::<(usize, usize), Seq<char>>(p) && p.0 < w && p.1 < h,
            Err(e) => coord_spec(n as nat, v@.subrange(lo as int, hi as int), w as nat, h as nat)
                == Err::<(usize, usize), Seq<char>>(e@),
        },
{
    let ghost s = v@.subrange(lo as int, hi as int);
    reveal(coord_spec);
    let parsed: Option<(usize, usize)> = match split_at_char(v, lo, hi, ',') {
        None => None,
        Some(i) => match (parse_usize_at(v, lo, i), parse_usize_at(v, i + 1, hi)) {
            (Some(x), Some(y)) => Some((x, y)),
            _ => None,
        },
    };
    match parsed {
        None => {
            let mut e = line_prefix(n);
            e.append("expected 'column,row' but found '");
            push_chars(&mut e, v, lo, hi);
            e.append("'");
            proof {
                assert(e@ =~= line_msg(n as nat, "expected 'column,row' but found '"@ + s + "'"@));
            }
            Err(e)
        },
        Some((x, y)) => {
            if x == 0 || y == 0 || x > w || y > h {
                let mut e = line_prefix(n);
                push_chars(&mut e, v, lo, hi);
                e.append(" is outside the level (");
                push_decimal(&mut e, w);
                e.append(" x ");
                push_decimal(&mut e, h);
                e.append(")");
                proof {
                    assert(e@ =~= line_msg(
                        n as nat,
                        s + " is outside the level ("@ + decimal(w as nat) + " x "@ + decimal(
                            h as nat,
                        ) + ")"@,
                    ));
                }
                Err(e)
            } else {
                Ok((x - 1, y - 1))
            }
        },
    }
}

/// Numbered lines as plain values.
pub open spec fn lines_view(v: Seq<(usize, Vec<char>)>) -> Seq<(nat, Seq<char>)> {
    Seq::new(v.len(), |i: int| (v[i].0 as nat, v[i].1@))
}

proof fn lemma_lines_view_push(v: Seq<(usize, Vec<char>)>, n: usize, l: Vec<char>)
    ensures
        lines_view(v.push((n, l))) == lines_view(v).push((n as nat, l@)),
{
    assert(lines_view(v.push((n, l))) =~= lines_view(v).push((n as nat, l@)));
}

/// Files one line (number `n`) as a grid row or a metadata line.
fn add_line(
    rows: &mut Vec<(usize, Vec<char>)>,
    meta: &mut Vec<(usize, Vec<char>)>,
    in_meta: &mut bool,
    n: usize,
    raw: Vec<char>,
)
    ensures
        ({
            let s = next_section(
                Sections {
                    rows: lines_view(old(rows)@),
                    meta: lines_view(old(meta)@),
                    in_meta: *old(in_meta),
                },
                n as nat,
                raw@,
            );
            &&& lines_view(final(rows)@) == s.rows
            &&& lines_view(final(meta)@) == s.meta
            &&& *final(in_meta) == s.in_meta
        }),
{
    let mut line = raw;
    let k = trim_end_at(&line, 0, line.len());
    line.truncate(k);
    proof {
        assert(raw@.subrange(0, raw@.len() as int) =~= raw@);
    }
    if line.len() == 3 && line[0] == '-' && line[1] == '-' && line[2] == '-' {
        proof {
            assert(line@ =~= dashes());
        }
        *in_meta = true;
    } else if line.len() == 0 {
    } else if *in_meta {
        proof {
            lemma_lines_view_push(meta@, n, line);
        }
        meta.push((n, line));
    } else {
        proof {
            lemma_lines_view_push(rows@, n, line);
        }
        rows.push((n, line));
    }
}

/// The grid rows and the metadata lines of the text.
fn split_sections(t: &Vec<char>) -> (r: (Vec<(usize, Vec<char>)>, Vec<(usize, Vec<char>)>))
    requires
        t@.len() < usize::MAX,
    ensures
        lines_view(r.0@) == sections(lines(t@)).rows,
        lines_view(r.1@) == sections(lines(t@)).meta,
{
    let mut rows: Vec<(usize, Vec<char>)> = Vec::new();
    let mut meta: Vec<(usize, Vec<char>)> = Vec::new();
    let mut in_meta = false;
    let mut cur: Vec<char> = Vec::new();
    let mut count: usize = 0;
    let mut i: usize = 0;
    proof {
        assert(lines_view(rows@) =~= Seq::empty());
        assert(lines_view(meta@) =~= Seq::empty());
        assert(t@.take(0) =~= Seq::<char>::empty());
        assert(lines(t@.take(0)).drop_last() =~= Seq::<Seq<char>>::empty());
        assert(cur@ =~= lines(t@.take(0)).last());
    }
    while i < t.len()
        invariant
            i <= t@.len() < usize::MAX,
            count <= i,
            lines(t@.take(i as int)).len() == count + 1,
            cur@ == lines(t@.take(i as int)).last(),
            sections(lines(t@.take(i as int)).drop_last()).rows == lines_view(rows@),
            sections(lines(t@.take(i as int)).drop_last()).meta == lines_view(meta@),
            sections(lines(t@.take(i as int)).drop_last()).in_meta == in_meta,
        decreases t@.len() - i,
    {
        let c = t[i];
        let ghost before = lines(t@.take(i as int));
        proof {
            assert(t@.take(i + 1).drop_last() =~= t@.take(i as int));
        }
        if c == '\n' {
            let mut line: Vec<char> = Vec::new();
            std::mem::swap(&mut line, &mut cur);
            add_line(&mut rows, &mut meta, &mut in_meta, count + 1, line);
            count = count + 1;
            proof {
                let after = lines(t@.take(i + 1));
                assert(after == before.push(Seq::empty()));
                assert(after.drop_last() =~= before);
                assert(before.drop_last().push(before.last()) =~= before);
                assert(cur@ =~= after.last());
            }
        } else {
            cur.push(c);
            proof {
                let after = lines(t@.take(i + 1));
                assert(after.drop_last() =~= before.drop_last());
            }
        }
        i = i + 1;
    }
    proof {
        assert(t@.take(i as int) =~= t@);
        let all = lines(t@);
        assert(all.drop_last().push(all.last()) =~= all);
    }
    add_line(&mut rows, &mut meta, &mut in_meta, count + 1, cur);
    (rows, meta)
}

/// Tile and spawn of a grid character other than `P` and `?`.
fn char_tile(ch: char) -> (r: Option<(Tile, Option<SpawnKind>)>)
    ensures
        r == tile_char(ch),
{
    match ch {
        '.' => Some((Tile::Empty, None)),
        '#' => Some((Tile::Brick, None)),
        '=' => Some((Tile::Girder, None)),
        'X' => Some((Tile::Exit, None)),
        '!' => Some((Tile::Gate, None)),
        'C' => Some((Tile::Crate, None)),
        '%' => Some((Tile::Cracked, None)),
        'R' => Some((Tile::Door(Color::Red), None)),
        'G' => Some((Tile::Door(Color::Green), None)),
        'B' => Some((Tile::Door(Color::Blue), None)),
        'Y' => Some((Tile::Door(Color::Yellow), None)),
        'r' => Some((Tile::Empty, Some(SpawnKind::Key(Color::Red)))),
        'g' => Some((Tile::Empty, Some(SpawnKind::Key(Color::Green)))),
        'b' => Some((Tile::Empty, Some(SpawnKind::Key(Color::Blue)))),
        'y' => Some((Tile::Empty, Some(SpawnKind::Key(Color::Yellow)))),
        '+' => Some((Tile::Empty, Some(SpawnKind::Health))),
        '*' => Some((Tile::Empty, Some(SpawnKind::Gem))),
        'E' => Some((Tile::Empty, Some(SpawnKind::Bot))),
        'S' => Some((Tile::Empty, Some(SpawnKind::Switch))),
        's' => Some((Tile::Empty, Some(SpawnKind::Secret))),
        _ => None,
    }
}

proof fn lemma_scan_row_err(st: Scan, n: nat, y: nat, row: Seq<char>, k: int)
    requires
        0 <= k <= row.len(),
        scan_row(st, n, y, row.take(k)) is Err,
    ensures
        scan_row(st, n, y, row) == scan_row(st, n, y, row.take(k)),
    decreases row.len() - k,
{
    if k < row.len() {
        assert(row.take(k + 1).drop_last() =~= row.take(k));
        lemma_scan_row_err(st, n, y, row, k + 1);
    } else {
        assert(row.take(k) =~= row);
    }
}

proof fn lemma_scan_rows_err(rows: Seq<(nat, Seq<char>)>, w: nat, k: int)
    requires
        0 <= k <= rows.len(),
        scan_rows(rows.take(k), w) is Err,
    ensures
        scan_rows(rows, w) == scan_rows(rows.take(k), w),
    decreases rows.len() - k,
{
    if k < rows.len() {
        assert(rows.take(k + 1).drop_last() =~= rows.take(k));
        lemma_scan_rows_err(rows, w, k + 1);
    } else {
        assert(rows.take(k) =~= rows);
    }
}

/// Every spawn lies in the first `rows` rows of a `w`-wide grid, and hint `i` is the `i`-th globe.
pub open spec fn spawns_placed(spawns: Seq<Spawn>, w: nat, rows: nat, hints: nat) -> bool {
    &&& forall|j: int| 0 <= j < spawns.len() ==> (#[trigger] spawns[j]).x < w && spawns[j].y < rows
    &&& forall|j: int|
        0 <= j < spawns.len() && (#[trigger] spawns[j]).kind is Hint ==> spawns[j].kind->Hint_0 < hints
}

/// The grid scan: tiles, player start, spawns and the number of hint globes.
fn scan_grid(rows: &Vec<(usize, Vec<char>)>, w: usize) -> (r: Result<
    (Vec<Tile>, Option<(usize, usize)>, Vec<Spawn>, usize),
    String,
>)
    ensures
        match r {
            Ok((t, p, sp, hc)) => {
                &&& scan_rows(lines_view(rows@), w as nat) == Ok::<Scan, Seq<char>>(
                    Scan { tiles: t@, player: p, spawns: sp@, hints: hc as nat },
                )
                &&& t@.len() == w * rows@.len()
                &&& spawns_placed(sp@, w as nat, rows@.len(), hc as nat)
                &&& (p matches Some(q) ==> q.0 < w && q.1 < rows@.len())
            },
            Err(e) => scan_rows(lines_view(rows@), w as nat) == Err::<Scan, Seq<char>>(e@),
        },
{
    let ghost lv = lines_view(rows@);
    let mut tiles: Vec<Tile> = Vec::new();
    let mut player: Option<(usize, usize)> = None;
    let mut spawns: Vec<Spawn> = Vec::new();
    let mut hints: usize = 0;
    let mut y: usize = 0;
    proof {
        assert(lv.take(0) =~= Seq::<(nat, Seq<char>)>::empty());
    }
    while y < rows.len()
        invariant
            y <= rows@.len(),
            lv == lines_view(rows@),
            scan_rows(lv.take(y as int), w as nat) == Ok::<Scan, Seq<char>>(
                Scan { tiles: tiles@, player, spawns: spawns@, hints: hints as nat },
            ),
            tiles@.len() == w * y,
            spawns_placed(spawns@, w as nat, y as nat, hints as nat),
            hints <= spawns@.len(),
            player matches Some(q) ==> q.0 < w && q.1 < y,
        decreases rows@.len() - y,
    {
        let n = rows[y].0;
        let row = &rows[y].1;
        let ghost prev = Scan { tiles: tiles@, player, spawns: spawns@, hints: hints as nat };
        proof {
            assert(lv.take(y + 1).drop_last() =~= lv.take(y as int));
            assert(lv.take(y + 1).last() == lv[y as int]);
        }
        if row.len() != w {
            let mut e = line_prefix(n);
            e.append("row has ");
            push_decimal(&mut e, row.len());
            e.append(" tiles, expected ");
            push_decimal(&mut e, w);
            proof {
                assert(e@ =~= line_msg(
                    n as nat,
                    "row has "@ + decimal(row@.len()) + " tiles, expected "@ + decimal(w as nat),
                ));
                lemma_scan_rows_err(lv, w as nat, y + 1);
            }
            return Err(e);
        }
        let mut x: usize = 0;
        proof {
            assert(row@.take(0) =~= Seq::<char>::empty());
        }
        while x < w
            invariant
                y < rows@.len(),
                x <= w == row@.len(),
                row == &rows@[y as int].1,
                n == rows@[y as int].0,
                lv == lines_view(rows@),
                scan_rows(lv.take(y as int), w as nat) == Ok::<Scan, Seq<char>>(prev),
                scan_row(prev, n as nat, y as nat, row@.take(x as int)) == Ok::<Scan, Seq<char>>(
                    Scan { tiles: tiles@, player, spawns: spawns@, hints: hints as nat },
                ),
                tiles@.len() == w * y + x,
                spawns_placed(spawns@, w as nat, (y + 1) as nat, hints as nat),
                hints <= spawns@.len(),
                player matches Some(q) ==> q.0 < w && q.1 <= y,
            decreases w - x,
        {
            let ch = row[x];
            proof {
                assert(row@.take(x + 1).drop_last() =~= row@.take(x as int));
                assert(row@.take(x + 1).last() == ch);
            }
            if ch == 'P' {
                if player.is_some() {
                    let mut e = String::new();
                    e.append("line ");
                    push_decimal(&mut e, n);
                    e.append(", column ");
                    push_decimal(&mut e, x + 1);
                    e.append(": second player start");
                    proof {
                        assert(e@ =~= "line "@ + decimal(n as nat) + ", column "@ + decimal(
                            (x + 1) as nat,
                        ) + ": second player start"@);
                        lemma_scan_row_err(prev, n as nat, y as nat, row@, x + 1);
                        assert(row@.take(w as int) =~= row@);
                        assert(lv.take(y + 1).drop_last() =~= lv.take(y as int));
                        assert(lv.take(y + 1).last() == lv[y as int]);
                        lemma_scan_rows_err(lv, w as nat, y + 1);
                    }
                    return Err(e);
                }
                tiles.push(Tile::Empty);
                player = Some((x, y));
            } else if ch == '?' {
                spawns.push(Spawn { kind: SpawnKind::Hint(hints), x, y });
                let cnt = spawns.len();
                hints = hints + 1;
                tiles.push(Tile::Empty);
            } else {
                match char_tile(ch) {
                    None => {
                        let mut e = String::new();
                        e.append("line ");
                        push_decimal(&mut e, n);
                        e.append(", column ");
                        push_decimal(&mut e, x + 1);
                        e.append(": unknown tile '");
                        e.push(ch);
                        e.append("'");
                        proof {
                            assert(e@ =~= "line "@ + decimal(n as nat) + ", column "@ + decimal(
                                (x + 1) as nat,
                            ) + ": unknown tile '"@ + seq![ch] + "'"@);
                            lemma_scan_row_err(prev, n as nat, y as nat, row@, x + 1);
                            assert(row@.take(w as int) =~= row@);
                            assert(lv.take(y + 1).drop_last() =~= lv.take(y as int));
                            assert(lv.take(y + 1).last() == lv[y as int]);
                            lemma_scan_rows_err(lv, w as nat, y + 1);
                        }
                        return Err(e);
                    },
                    Some((t, k)) => {
                        tiles.push(t);
                        match k {
                            Some(kind) => {
                                spawns.push(Spawn { kind, x, y });
                            },
                            None => {},
                        }
                    },
                }
            }
            x = x + 1;
        }
        proof {
            assert(row@.take(w as int) =~= row@);
            assert(w * y + w == w * (y + 1)) by (nonlinear_arith);
        }
        y = y + 1;
    }
    proof {
        assert(lv.take(rows@.len() as int) =~= lv);
    }
    Ok((tiles, player, spawns, hints))
}

/// The hint globe index at (x, y), from the first such spawn.
fn find_hint(spawns: &Vec<Spawn>, x: usize, y: usize) -> (r: Option<usize>)
    ensures
        r == hint_at(spawns@, x, y),
        r matches Some(i) ==> exists|j: int|
            0 <= j < spawns@.len() && (#[trigger] spawns@[j]).kind == SpawnKind::Hint(i),
{
    let mut j: usize = 0;
    while j < spawns.len()
        invariant
            j <= spawns@.len(),
            forall|k: int| 0 <= k < j ==> !is_hint_at(#[trigger] spawns@[k], x, y),
        decreases spawns@.len() - j,
    {
        let s = spawns[j];
        match s.kind {
            SpawnKind::Hint(i) => {
                if s.x == x && s.y == y {
                    proof {
                        reveal(hint_at);
                        assert(is_hint_at(spawns@[j as int], x, y));
                        let m = choose|m: int|
                            0 <= m < spawns@.len() && is_hint_at(#[trigger] spawns@[m], x, y)
                                && forall|k: int|
                                0 <= k < m ==> !is_hint_at(#[trigger] spawns@[k], x, y);
                        if m < j {
                            assert(!is_hint_at(spawns@[m], x, y));
                        }
                        assert(m == j);
                    }
                    return Some(i);
                }
            },
            _ => {},
        }
        j = j + 1;
    }
    proof {
        reveal(hint_at);
    }
    None
}

/// Whether a switch spawn sits at `p`.
fn find_switch(spawns: &Vec<Spawn>, p: (usize, usize)) -> (b: bool)
    ensures
        b == has_switch(spawns@, p),
{
    let mut j: usize = 0;
    while j < spawns.len()
        invariant
            j <= spawns@.len(),
            forall|k: int| 0 <= k < j ==> !is_switch_at(#[trigger] spawns@[k], p),
        decreases spawns@.len() - j,
    {
        let s = spawns[j];
        if s.kind == SpawnKind::Switch && s.x == p.0 && s.y == p.1 {
            proof {
                assert(is_switch_at(spawns@[j as int], p));
            }
            return true;
        }
        j = j + 1;
    }
    false
}

/// Whether `v[lo..hi]` is the four characters `a b c d`.
fn is_word(v: &Vec<char>, lo: usize, hi: usize, a: char, b: char, c: char, d: char) -> (r: bool)
    requires
        lo <= hi <= v@.len(),
    ensures
        r == (v@.subrange(lo as int, hi as int) == seq![a, b, c, d]),
{
    let r = hi - lo == 4 && v[lo] == a && v[lo + 1] == b && v[lo + 2] == c && v[lo + 3] == d;
    proof {
        let s = v@.subrange(lo as int, hi as int);
        if r {
            assert(s =~= seq![a, b, c, d]);
        } else if s == seq![a, b, c, d] {
            assert(s.len() == 4);
            assert(s[0] == v@[lo as int] && s[1] == v@[lo + 1] && s[2] == v@[lo + 2] && s[3]
                == v@[lo + 3]);
            assert(seq![a, b, c, d][0] == a && seq![a, b, c, d][1] == b && seq![a, b, c, d][2] == c
                && seq![a, b, c, d][3] == d);
        }
    }
    r
}

/// Hint texts as plain values.
pub open spec fn texts(v: Seq<String>) -> Seq<Seq<char>> {
    Seq::new(v.len(), |i: int| v[i]@)
}

/// `hint <column>,<row> <text>` with the value in `line[vs..ve]`.
#[verifier::spinoff_prover]
fn hint_line(
    hints: &mut Vec<String>,
    n: usize,
    line: &Vec<char>,
    vs: usize,
    ve: usize,
    spawns: &Vec<Spawn>,
    w: usize,
    h: usize,
    Ghost(m): Ghost<Meta>,
    Ghost(sc): Ghost<Scan>,
) -> (r: Result<(), String>)
    requires
        vs <= ve <= line@.len(),
        m.hints == texts(old(hints)@),
        sc.spawns == spawns@,
        spawns_placed(spawns@, w as nat, h as nat, old(hints)@.len()),
    ensures
        final(hints)@.len() == old(hints)@.len(),
        match r {
            Ok(_) => hint_directive(
                m,
                n as nat,
                line@.subrange(vs as int, ve as int),
                sc,
                w as nat,
                h as nat,
            ) == Ok::<Meta, Seq<char>>(
                Meta { name: m.name, hints: texts(final(hints)@), links: m.links },
            ),
            Err(e) => hint_directive(
                m,
                n as nat,
                line@.subrange(vs as int, ve as int),
                sc,
                w as nat,
                h as nat,
            ) == Err::<Meta, Seq<char>>(e@),
        },
{
    let ghost l = line@;
    let (plo, phi, tlo, thi) = match split_at_char(line, vs, ve, ' ') {
        Some(j) => (vs, j, j + 1, ve),
        None => (vs, ve, ve, ve),
    };
    proof {
        let value = l.subrange(vs as int, ve as int);
        assert((l.subrange(plo as int, phi as int), l.subrange(tlo as int, thi as int))
            =~= split_or_all(value, ' '));
    }
    let (x, y) = match coord(n, line, plo, phi, w, h) {
        Ok(p) => p,
        Err(e) => {
            return Err(e);
        },
    };
    let (a, b) = trim_at(line, tlo, thi);
    if a == b {
        let mut e = line_prefix(n);
        e.append("'hint' needs a text");
        proof {
            assert(e@ =~= line_msg(n as nat, "'hint' needs a text"@));
        }
        return Err(e);
    }
    match find_hint(spawns, x, y) {
        None => {
            let mut e = line_prefix(n);
            e.append("no hint globe '?' at ");
            let a = at(x, y);
            e.append(a.as_str());
            proof {
                assert(e@ =~= line_msg(
                    n as nat,
                    "no hint globe '?' at "@ + at_text(x as nat, y as nat),
                ));
            }
            Err(e)
        },
        Some(i) => {
            let ghost before = hints@;
            hints.set(i, string_of(line, a, b));
            proof {
                assert(texts(hints@) =~= texts(before).update(
                    i as int,
                    l.subrange(a as int, b as int),
                ));
            }
            Ok(())
        },
    }
}

/// `link <switch column>,<row> <gate column>,<row>` with the value in `line[vs..ve]`.
#[verifier::spinoff_prover]
fn link_line(
    links: &mut Vec<Link>,
    n: usize,
    line: &Vec<char>,
    vs: usize,
    ve: usize,
    tiles: &Vec<Tile>,
    spawns: &Vec<Spawn>,
    w: usize,
    h: usize,
    Ghost(m): Ghost<Meta>,
    Ghost(sc): Ghost<Scan>,
) -> (r: Result<(), String>)
    requires
        vs <= ve <= line@.len(),
        m.links == old(links)@,
        sc.spawns == spawns@,
        sc.tiles == tiles@,
        tiles@.len() == w * h,
    ensures
        match r {
            Ok(_) => link_directive(
                m,
                n as nat,
                line@.subrange(vs as int, ve as int),
                sc,
                w as nat,
                h as nat,
            ) == Ok::<Meta, Seq<char>>(Meta { name: m.name, hints: m.hints, links: final(links)@ }),
            Err(e) => link_directive(
                m,
                n as nat,
                line@.subrange(vs as int, ve as int),
                sc,
                w as nat,
                h as nat,
            ) == Err::<Meta, Seq<char>>(e@),
        },
{
    let ghost l = line@;
    let (flo, fhi, tlo, thi) = match split_at_char(line, vs, ve, ' ') {
        Some(j) => (vs, j, j + 1, ve),
        None => (vs, ve, ve, ve),
    };
    proof {
        let value = l.subrange(vs as int, ve as int);
        assert((l.subrange(flo as int, fhi as int), l.subrange(tlo as int, thi as int))
            =~= split_or_all(value, ' '));
    }
    let switch = match coord(n, line, flo, fhi, w, h) {
        Ok(p) => p,
        Err(e) => {
            return Err(e);
        },
    };
    let (a, b) = trim_at(line, tlo, thi);
    let gate = match coord(n, line, a, b, w, h) {
        Ok(p) => p,
        Err(e) => {
            return Err(e);
        },
    };
    if !find_switch(spawns, switch) {
        let mut e = line_prefix(n);
        e.append("no switch 'S' at ");
        let a = at(switch.0, switch.1);
        e.append(a.as_str());
        proof {
            assert(e@ =~= line_msg(
                n as nat,
                "no switch 'S' at "@ + at_text(switch.0 as nat, switch.1 as nat),
            ));
        }
        return Err(e);
    }
    let nt = tiles.len();
    proof {
        crate::level::lemma_cell_in_bounds(w as int, h as int, gate.0 as int, gate.1 as int);
    }
    let k = gate.1 * w + gate.0;
    if tiles[k] != Tile::Gate {
        let mut e = line_prefix(n);
        e.append("no gate '!' at ");
        let a = at(gate.0, gate.1);
        e.append(a.as_str());
        proof {
            assert(e@ =~= line_msg(
                n as nat,
                "no gate '!' at "@ + at_text(gate.0 as nat, gate.1 as nat),
            ));
        }
        return Err(e);
    }
    links.push(Link { switch, gate });
    Ok(())
}

/// One metadata line: `name`, `hint` or `link`.
#[verifier::spinoff_prover]
fn directive_line(
    name: &mut String,
    hints: &mut Vec<String>,
    links: &mut Vec<Link>,
    n: usize,
    line: &Vec<char>,
    tiles: &Vec<Tile>,
    spawns: &Vec<Spawn>,
    w: usize,
    h: usize,
    Ghost(sc): Ghost<Scan>,
) -> (r: Result<(), String>)
    requires
        sc.tiles == tiles@,
        sc.spawns == spawns@,
        tiles@.len() == w * h,
        spawns_placed(spawns@, w as nat, h as nat, old(hints)@.len()),
    ensures
        final(hints)@.len() == old(hints)@.len(),
        match r {
            Ok(_) => directive(
                Meta { name: old(name)@, hints: texts(old(hints)@), links: old(links)@ },
                n as nat,
                line@,
                sc,
                w as nat,
                h as nat,
            ) == Ok::<Meta, Seq<char>>(
                Meta { name: final(name)@, hints: texts(final(hints)@), links: final(links)@ },
            ),
            Err(e) => directive(
                Meta { name: old(name)@, hints: texts(old(hints)@), links: old(links)@ },
                n as nat,
                line@,
                sc,
                w as nat,
                h as nat,
            ) == Err::<Meta, Seq<char>>(e@),
        },
{
    let len = line.len();
    let ghost l = line@;
    proof {
        assert(l.subrange(0, len as int) =~= l);
    }
    let (klo, khi, vs, ve) = match split_at_char(line, 0, len, ' ') {
        Some(i) => {
            let (a, b) = trim_at(line, i + 1, len);
            (0, i, a, b)
        },
        None => (0, len, len, len),
    };
    proof {
        assert(l.subrange(klo as int, khi as int) == key_of(l));
        assert(l.subrange(vs as int, ve as int) =~= value_of(l));
    }
    let ghost m0 = Meta { name: name@, hints: texts(hints@), links: links@ };
    if is_word(line, klo, khi, 'n', 'a', 'm', 'e') {
        if vs == ve {
            let mut e = line_prefix(n);
            e.append("'name' needs a value");
            proof {
                assert(e@ =~= line_msg(n as nat, "'name' needs a value"@));
            }
            return Err(e);
        }
        *name = string_of(line, vs, ve);
        Ok(())
    } else if is_word(line, klo, khi, 'h', 'i', 'n', 't') {
        hint_line(hints, n, line, vs, ve, spawns, w, h, Ghost(m0), Ghost(sc))
    } else if is_word(line, klo, khi, 'l', 'i', 'n', 'k') {
        link_line(links, n, line, vs, ve, tiles, spawns, w, h, Ghost(m0), Ghost(sc))
    } else {
        let mut e = line_prefix(n);
        e.append("unknown directive '");
        push_chars(&mut e, line, klo, khi);
        e.append("'");
        proof {
            assert(e@ =~= line_msg(n as nat, "unknown directive '"@ + key_of(l) + "'"@));
        }
        Err(e)
    }
}

proof fn lemma_directives_err(
    ms: Seq<(nat, Seq<char>)>,
    init: Meta,
    sc: Scan,
    w: nat,
    h: nat,
    k: int,
)
    requires
        0 <= k <= ms.len(),
        directives(ms.take(k), init, sc, w, h) is Err,
    ensures
        directives(ms, init, sc, w, h) == directives(ms.take(k), init, sc, w, h),
    decreases ms.len() - k,
{
    if k < ms.len() {
        assert(ms.take(k + 1).drop_last() =~= ms.take(k));
        lemma_directives_err(ms, init, sc, w, h, k + 1);
    } else {
        assert(ms.take(k) =~= ms);
    }
}

proof fn lemma_first_problem_found(
    spawns: Seq<Spawn>,
    hints: Seq<Seq<char>>,
    links: Seq<Link>,
    k: int,
)
    requires
        0 <= k <= spawns.len(),
        first_problem(spawns.take(k), hints, links) is Some,
    ensures
        first_problem(spawns, hints, links) == first_problem(spawns.take(k), hints, links),
    decreases spawns.len() - k,
{
    if k < spawns.len() {
        assert(spawns.take(k + 1).drop_last() =~= spawns.take(k));
        lemma_first_problem_found(spawns, hints, links, k + 1);
    } else {
        assert(spawns.take(k) =~= spawns);
    }
}

/// Whether some link starts at the switch (x, y).
fn is_linked(links: &Vec<Link>, x: usize, y: usize) -> (b: bool)
    ensures
        b == switch_linked(links@, x, y),
{
    let mut j: usize = 0;
    while j < links.len()
        invariant
            j <= links@.len(),
            forall|k: int| 0 <= k < j ==> (#[trigger] links@[k]).switch != (x, y),
        decreases links@.len() - j,
    {
        if links[j].switch.0 == x && links[j].switch.1 == y {
            proof {
                assert(links@[j as int].switch == (x, y));
            }
            return true;
        }
        j = j + 1;
    }
    false
}

/// The first hint globe without text or switch without link, as an error message.
fn spawn_check(spawns: &Vec<Spawn>, hints: &Vec<String>, links: &Vec<Link>, w: usize, h: usize) -> (r:
    Option<String>)
    requires
        spawns_placed(spawns@, w as nat, h as nat, hints@.len()),
    ensures
        match r {
            Some(e) => first_problem(spawns@, texts(hints@), links@) == Some(e@),
            None => first_problem(spawns@, texts(hints@), links@) is None,
        },
{
    let mut j: usize = 0;
    proof {
        assert(spawns@.take(0) =~= Seq::<Spawn>::empty());
    }
    while j < spawns.len()
        invariant
            j <= spawns@.len(),
            spawns_placed(spawns@, w as nat, h as nat, hints@.len()),
            first_problem(spawns@.take(j as int), texts(hints@), links@) is None,
        decreases spawns@.len() - j,
    {
        let s = spawns[j];
        proof {
            assert(spawns@.take(j + 1).drop_last() =~= spawns@.take(j as int));
            assert(spawns@.take(j + 1).last() == s);
        }
        match s.kind {
            SpawnKind::Hint(i) => {
                if hints[i].as_str().is_empty() {
                    let mut e = String::new();
                    e.append("the hint globe at ");
                    let a = at(s.x, s.y);
                    e.append(a.as_str());
                    e.append(" has no text");
                    proof {
                        assert(e@ =~= "the hint globe at "@ + at_text(s.x as nat, s.y as nat)
                            + " has no text"@);
                        lemma_first_problem_found(spawns@, texts(hints@), links@, j + 1);
                    }
                    return Some(e);
                }
            },
            SpawnKind::Switch => {
                if !is_linked(links, s.x, s.y) {
                    let mut e = String::new();
                    e.append("the switch at ");
                    let a = at(s.x, s.y);
                    e.append(a.as_str());
                    e.append(" has no link");
                    proof {
                        assert(e@ =~= "the switch at "@ + at_text(s.x as nat, s.y as nat)
                            + " has no link"@);
                        lemma_first_problem_found(spawns@, texts(hints@), links@, j + 1);
                    }
                    return Some(e);
                }
            },
            _ => {},
        }
        j = j + 1;
    }
    proof {
        assert(spawns@.take(spawns@.len() as int) =~= spawns@);
    }
    None
}

impl View for Level {
    type V = crate::parse::LevelModel;

    /// The level as plain values: `l@` is `l.model()`.
    open spec fn view(&self) -> crate::parse::LevelModel {
        self.model()
    }
}

impl Level {
    /// The level as plain values.
    pub open spec fn model(&self) -> crate::parse::LevelModel {
        crate::parse::LevelModel {
            name: self.name@,
            w: self.w,
            h: self.h,
            tiles: self.tiles@,
            player: self.player,
            spawns: self.spawns@,
            hints: texts(self.hints@),
            links: self.links@,
        }
    }

    /// Level file v2: the tile grid, then optionally a `---` line followed by metadata lines:
    /// `name <text>`, `hint <column>,<row> <text>`, `link <switch column>,<row> <gate column>,<row>`.
    /// Errors say which line (and column) is wrong.
    pub fn parse(text: &str) -> (r: Result<Level, String>)
        requires
            text@.len() < usize::MAX,
        ensures
            match r {
                Ok(l) => parse_spec(text@) == Ok::<crate::parse::LevelModel, Seq<char>>(l@)
                    && l.wf(),
                Err(e) => parse_spec(text@) == Err::<crate::parse::LevelModel, Seq<char>>(e@),
            },
    {
        let t = chars_of(text);
        let (rows, meta) = split_sections(&t);
        let h = rows.len();
        let w = if h > 0 {
            rows[0].1.len()
        } else {
            0
        };
        proof {
            if h > 0 {
                assert(lines_view(rows@)[0] == (rows@[0].0 as nat, rows@[0].1@));
            }
        }
        if h == 0 || w == 0 {
            let mut e = String::new();
            e.append("level is empty");
            return Err(e);
        }
        let (tiles, player, spawns, hint_count) = match scan_grid(&rows, w) {
            Ok(r) => r,
            Err(e) => {
                return Err(e);
            },
        };
        let ghost sc = Scan { tiles: tiles@, player, spawns: spawns@, hints: hint_count as nat };
        let p = match player {
            Some(p) => p,
            None => {
                let mut e = String::new();
                e.append("level has no player start 'P'");
                return Err(e);
            },
        };
        let mut name = String::new();
        name.append("UNNAMED");
        let mut hints: Vec<String> = Vec::new();
        let mut i: usize = 0;
        while i < hint_count
            invariant
                i <= hint_count,
                texts(hints@) == Seq::new(i as nat, |k: int| Seq::<char>::empty()),
            decreases hint_count - i,
        {
            let ghost before = hints@;
            let e = String::new();
            hints.push(e);
            i = i + 1;
            proof {
                assert(hints@ == before.push(e));
                assert(texts(before) == Seq::new((i - 1) as nat, |k: int| Seq::<char>::empty()));
                assert forall|k: int| 0 <= k < i implies texts(hints@)[k] == Seq::<char>::empty() by {
                    if k < i - 1 {
                        assert(texts(before)[k] == Seq::<char>::empty());
                        assert(hints@[k] == before[k]);
                    }
                }
                assert(texts(hints@) =~= Seq::new(i as nat, |k: int| Seq::<char>::empty()));
            }
        }
        let mut links: Vec<Link> = Vec::new();
        let ghost init = Meta { name: name@, hints: texts(hints@), links: links@ };
        let ghost mv = lines_view(meta@);
        proof {
            assert(name@ =~= crate::parse::unnamed());
            assert(links@ =~= Seq::<Link>::empty());
            assert(init == initial_meta(sc));
            assert(parse_spec(text@) == finish(
                directives(mv, init, sc, w as nat, h as nat),
                sc,
                p,
                w as nat,
                h as nat,
            ));
        }
        let mut k: usize = 0;
        proof {
            assert(mv.take(0) =~= Seq::<(nat, Seq<char>)>::empty());
        }
        while k < meta.len()
            invariant
                k <= meta@.len(),
                mv == lines_view(meta@),
                sc.tiles == tiles@,
                sc.spawns == spawns@,
                tiles@.len() == w * h,
                hints@.len() == hint_count,
                spawns_placed(spawns@, w as nat, h as nat, hint_count as nat),
                parse_spec(text@) == finish(
                    directives(mv, init, sc, w as nat, h as nat),
                    sc,
                    p,
                    w as nat,
                    h as nat,
                ),
                directives(mv.take(k as int), init, sc, w as nat, h as nat) == Ok::<
                    Meta,
                    Seq<char>,
                >(Meta { name: name@, hints: texts(hints@), links: links@ }),
            decreases meta@.len() - k,
        {
            proof {
                assert(mv.take(k + 1).drop_last() =~= mv.take(k as int));
                assert(mv.take(k + 1).last() == mv[k as int]);
            }
            let r = directive_line(
                &mut name,
                &mut hints,
                &mut links,
                meta[k].0,
                &meta[k].1,
                &tiles,
                &spawns,
                w,
                h,
                Ghost(sc),
            );
            match r {
                Ok(_) => {},
                Err(e) => {
                    proof {
                        lemma_directives_err(mv, init, sc, w as nat, h as nat, k + 1);
                    }
                    return Err(e);
                },
            }
            k = k + 1;
        }
        proof {
            assert(mv.take(meta@.len() as int) =~= mv);
        }
        match spawn_check(&spawns, &hints, &links, w, h) {
            Some(e) => {
                return Err(e);
            },
            None => {},
        }
        Ok(Level { name, w, h, tiles, player: p, spawns, hints, links })
    }
}

} // verus!
