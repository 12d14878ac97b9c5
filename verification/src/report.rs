//! The validator's messages: what the two searches touched, turned into errors and info for the
//! level designer.
use vstd::prelude::*;

use crate::level::{Color, Level, Spawn, SpawnKind, Tile, at, at_text, color_name, color_index, in_grid};
use crate::load::texts;
use crate::text::{decimal, push_decimal};

verus! {

/// " unless a crate or cracked wall is broken" when the search with breakables removed got
/// there, else `suffix`.
pub open spec fn why(loose_ok: bool, suffix: Seq<char>) -> Seq<char> {
    if loose_ok {
        " unless a crate or cracked wall is broken"@
    } else {
        suffix
    }
}

/// The error for a required thing `text` that the strict search never touched.
pub open spec fn not_reached(text: Seq<char>, loose_ok: bool, suffix: Seq<char>) -> Seq<char> {
    text + " cannot be reached"@ + why(loose_ok, suffix)
}

/// `errors` with the error for `text` added if the strict search never touched it.
pub open spec fn required(errors: Seq<Seq<char>>, text: Seq<char>, strict_ok: bool, loose_ok: bool, suffix: Seq<char>) -> Seq<Seq<char>> {
    if strict_ok {
        errors
    } else {
        errors.push(not_reached(text, loose_ok, suffix))
    }
}

/// A required thing the strict search never touched is an error; if the loose search reached
/// it, the message says breaking something is the way in.
pub fn require(errors: &mut Vec<String>, text: String, strict_ok: bool, loose_ok: bool, suffix: &str)
    ensures
        texts(final(errors)@) == required(texts(old(errors)@), text@, strict_ok, loose_ok, suffix@),
{
    if !strict_ok {
        let mut e = text;
        e.append(" cannot be reached");
        if loose_ok {
            e.append(" unless a crate or cracked wall is broken");
        } else {
            e.append(suffix);
        }
        let ghost before = errors@;
        errors.push(e);
        proof {
            assert(texts(errors@) =~= texts(before).push(e@));
        }
    } else {
        assert(texts(errors@) =~= texts(old(errors)@));
    }
}

/// Adding an error after earlier errors is adding it to the earlier ones.
proof fn lemma_required_after(e0: Seq<Seq<char>>, before: Seq<Seq<char>>, text: Seq<char>, strict_ok: bool, loose_ok: bool, suffix: Seq<char>)
    ensures
        required(e0 + before, text, strict_ok, loose_ok, suffix) == e0 + required(before, text, strict_ok, loose_ok, suffix),
{
    if !strict_ok {
        assert((e0 + before).push(not_reached(text, loose_ok, suffix)) =~= e0 + before.push(not_reached(text, loose_ok, suffix)));
    }
}

/// `the <color> key at <position>`.
pub open spec fn key_text(c: Color, s: Spawn) -> Seq<char> {
    "the "@ + color_name(c) + " key at "@ + at_text(s.x as nat, s.y as nat)
}

/// The errors for the first `k` items that are unreached keys.
pub open spec fn key_errors(items: Seq<Spawn>, strict: Seq<bool>, loose: Seq<bool>, k: nat) -> Seq<Seq<char>>
    decreases k,
{
    if k == 0 {
        seq![]
    } else {
        let before = key_errors(items, strict, loose, (k - 1) as nat);
        match items[k - 1].kind {
            SpawnKind::Key(c) => required(before, key_text(c, items[k - 1]), strict[k - 1], loose[k - 1], ""@),
            _ => before,
        }
    }
}

/// The errors for the first `k` items that are unreached switches.
pub open spec fn switch_errors(items: Seq<Spawn>, strict: Seq<bool>, loose: Seq<bool>, k: nat) -> Seq<Seq<char>>
    decreases k,
{
    if k == 0 {
        seq![]
    } else {
        let before = switch_errors(items, strict, loose, (k - 1) as nat);
        if items[k - 1].kind == SpawnKind::Switch {
            required(
                before,
                "the switch at "@ + at_text(items[k - 1].x as nat, items[k - 1].y as nat),
                strict[k - 1],
                loose[k - 1],
                ""@,
            )
        } else {
            before
        }
    }
}

/// Every item position can be written 1-based.
pub open spec fn positions_fit(items: Seq<Spawn>) -> bool {
    forall|i: int| 0 <= i < items.len() ==> #[trigger] items[i].x < usize::MAX && items[i].y < usize::MAX
}

/// Adds the errors for unreached keys (`switches` false) or unreached switches (true).
pub fn item_errors(errors: &mut Vec<String>, items: &Vec<Spawn>, strict: &Vec<bool>, loose: &Vec<bool>, switches: bool)
    requires
        positions_fit(items@),
        strict@.len() == items@.len(),
        loose@.len() == items@.len(),
    ensures
        texts(final(errors)@) == texts(old(errors)@) + if switches {
            switch_errors(items@, strict@, loose@, items@.len())
        } else {
            key_errors(items@, strict@, loose@, items@.len())
        },
{
    let n = items.len();
    let mut i: usize = 0;
    let ghost e0 = texts(errors@);
    proof {
        assert(e0 + seq![] =~= e0);
    }
    while i < n
        invariant
            n == items@.len() == strict@.len() == loose@.len(),
            i <= n,
            positions_fit(items@),
            texts(errors@) == e0 + if switches {
                switch_errors(items@, strict@, loose@, i as nat)
            } else {
                key_errors(items@, strict@, loose@, i as nat)
            },
        decreases n - i,
    {
        let s = items[i];
        let ghost before = if switches {
            switch_errors(items@, strict@, loose@, i as nat)
        } else {
            key_errors(items@, strict@, loose@, i as nat)
        };
        assert(s.x < usize::MAX && s.y < usize::MAX);
        if switches {
            if s.kind == SpawnKind::Switch {
                let mut text = String::new();
                text.append("the switch at ");
                let a = at(s.x, s.y);
                text.append(a.as_str());
                require(errors, text, strict[i], loose[i], "");
                proof {
                    assert(text@ =~= "the switch at "@ + at_text(s.x as nat, s.y as nat));
                }
            }
        } else {
            match s.kind {
                SpawnKind::Key(c) => {
                    let mut text = String::new();
                    text.append("the ");
                    text.append(c.name());
                    text.append(" key at ");
                    let a = at(s.x, s.y);
                    text.append(a.as_str());
                    proof {
                        assert(text@ =~= key_text(c, s));
                    }
                    require(errors, text, strict[i], loose[i], "");
                },
                _ => {},
            }
        }
        proof {
            let t = if switches {
                "the switch at "@ + at_text(s.x as nat, s.y as nat)
            } else {
                match s.kind {
                    SpawnKind::Key(c) => key_text(c, s),
                    _ => ""@,
                }
            };
            lemma_required_after(e0, before, t, strict@[i as int], loose@[i as int], ""@);
        }
        i = i + 1;
    }
}


/// The first position, in row-major order from index `i` on, where the grid holds `t`.
pub open spec fn first_from(g: Seq<Tile>, t: Tile, i: int) -> Option<int>
    decreases g.len() - i,
{
    if i < 0 || i >= g.len() {
        None
    } else if g[i] == t {
        Some(i)
    } else {
        first_from(g, t, i + 1)
    }
}

/// The first tile `t` of the level in reading order, as (column, row).
pub open spec fn first_tile(level: &Level, t: Tile) -> Option<(int, int)> {
    match first_from(level.grid(), t, 0) {
        Some(i) => Some((i % level.w as int, i / level.w as int)),
        None => None,
    }
}

/// `first_from` finds a tile `t` at or after `i`.
proof fn lemma_first_from_finds(g: Seq<Tile>, t: Tile, i: int)
    ensures
        first_from(g, t, i) matches Some(j) ==> i <= j < g.len() && g[j] == t,
    decreases g.len() - i,
{
    if 0 <= i < g.len() && g[i] != t {
        lemma_first_from_finds(g, t, i + 1);
    }
}

/// The first tile `t` of the level in reading order.
pub fn find_first(level: &Level, t: Tile) -> (r: Option<(usize, usize)>)
    requires
        level.wf(),
    ensures
        match r {
            Some((x, y)) => first_tile(level, t) == Some((x as int, y as int)) && x < level.w && y < level.h,
            None => first_tile(level, t) is None,
        },
{
    let n = level.tiles.len();
    let mut i: usize = 0;
    while i < n
        invariant
            n == level.grid().len() == level.w * level.h,
            i <= n,
            first_from(level.grid(), t, 0) == first_from(level.grid(), t, i as int),
        decreases n - i,
    {
        if level.tiles[i] == t {
            let w = level.w;
            proof {
                assert(w > 0) by (nonlinear_arith)
                    requires
                        i < w * level.h,
                ;
                vstd::arithmetic::div_mod::lemma_fundamental_div_mod(i as int, w as int);
                vstd::arithmetic::div_mod::lemma_mod_bound(i as int, w as int);
                assert(i / w < level.h) by (nonlinear_arith)
                    requires
                        i < w * level.h,
                        w > 0,
                        i == w * (i / w) + i % w,
                        0 <= i % w,
                ;
            }
            return Some((i % w, i / w));
        }
        i = i + 1;
    }
    None
}

/// The color at position `k` of `Color::ALL`.
pub open spec fn color_at(k: int) -> Color {
    if k == 0 {
        Color::Red
    } else if k == 1 {
        Color::Green
    } else if k == 2 {
        Color::Blue
    } else {
        Color::Yellow
    }
}

/// Some item is a key of color `c`.
pub open spec fn has_key(items: Seq<Spawn>, c: Color) -> bool {
    exists|i: int| 0 <= i < items.len() && #[trigger] items[i].kind == SpawnKind::Key(c)
}

/// `the <color> door at <position>`.
pub open spec fn door_text(c: Color, x: int, y: int) -> Seq<char> {
    "the "@ + color_name(c) + " door at "@ + at_text(x as nat, y as nat)
}

/// The errors about the first door of color `c`: it needs a key the level lacks, or it was
/// never reached.
pub open spec fn door_error(level: &Level, items: Seq<Spawn>, strict: Seq<bool>, loose: Seq<bool>, c: Color) -> Seq<Seq<char>> {
    match first_tile(level, Tile::Door(c)) {
        None => seq![],
        Some((x, y)) => if !has_key(items, c) {
            seq![door_text(c, x, y) + " needs a "@ + color_name(c) + " key, but the level has none"@]
        } else {
            required(seq![], door_text(c, x, y), strict[color_index(c) as int], loose[color_index(c) as int], ""@)
        },
    }
}

/// The door errors for the first `k` colors.
pub open spec fn door_errors(level: &Level, items: Seq<Spawn>, strict: Seq<bool>, loose: Seq<bool>, k: nat) -> Seq<Seq<char>>
    decreases k,
{
    if k == 0 {
        seq![]
    } else {
        door_errors(level, items, strict, loose, (k - 1) as nat) + door_error(level, items, strict, loose, color_at(k - 1))
    }
}

/// Some door has no key of its color in the level.
pub open spec fn missing_key(level: &Level, items: Seq<Spawn>) -> bool {
    exists|k: int| 0 <= k < 4 && (#[trigger] first_tile(level, Tile::Door(color_at(k)))) is Some && !has_key(items, color_at(k))
}

/// Whether some item is a key of color `c`.
fn find_key(items: &Vec<Spawn>, c: Color) -> (b: bool)
    ensures
        b == has_key(items@, c),
{
    let n = items.len();
    let mut i: usize = 0;
    while i < n
        invariant
            n == items@.len(),
            i <= n,
            forall|j: int| 0 <= j < i ==> items@[j].kind != SpawnKind::Key(c),
        decreases n - i,
    {
        if items[i].kind == SpawnKind::Key(c) {
            return true;
        }
        i = i + 1;
    }
    false
}

/// Adds the door errors; true if some door has no key of its color.
pub fn door_errors_of(errors: &mut Vec<String>, level: &Level, items: &Vec<Spawn>, strict: &Vec<bool>, loose: &Vec<bool>) -> (missing: bool)
    requires
        level.wf(),
        strict@.len() == 4,
        loose@.len() == 4,
    ensures
        texts(final(errors)@) == texts(old(errors)@) + door_errors(level, items@, strict@, loose@, 4),
        missing == missing_key(level, items@),
{
    let all = Color::ALL;
    let ghost e0 = texts(errors@);
    let mut missing = false;
    let mut k: usize = 0;
    proof {
        assert(e0 + seq![] =~= e0);
    }
    while k < 4
        invariant
            level.wf(),
            strict@.len() == 4,
            loose@.len() == 4,
            all@ == seq![Color::Red, Color::Green, Color::Blue, Color::Yellow],
            k <= 4,
            texts(errors@) == e0 + door_errors(level, items@, strict@, loose@, k as nat),
            missing == exists|j: int| 0 <= j < k && (#[trigger] first_tile(level, Tile::Door(color_at(j)))) is Some && !has_key(items@, color_at(j)),
        decreases 4 - k,
    {
        let c = all[k];
        assert(c == color_at(k as int));
        let ghost before = texts(errors@);
        let first = find_first(level, Tile::Door(c));
        match first {
            None => {},
            Some((x, y)) => {
                let mut text = String::new();
                text.append("the ");
                text.append(c.name());
                text.append(" door at ");
                let a = at(x, y);
                text.append(a.as_str());
                if !find_key(items, c) {
                    missing = true;
                    text.append(" needs a ");
                    text.append(c.name());
                    text.append(" key, but the level has none");
                    errors.push(text);
                    proof {
                        assert(texts(errors@) =~= before.push(text@));
                    }
                } else {
                    let i = c.index();
                    proof {
                        assert(text@ =~= door_text(c, x as int, y as int));
                        lemma_required_after(before, seq![], text@, strict@[i as int], loose@[i as int], ""@);
                        assert(before + seq![] =~= before);
                    }
                    require(errors, text, strict[i], loose[i], "");
                }
            },
        }
        proof {
            let d = door_error(level, items@, strict@, loose@, c);
            assert(texts(errors@) =~= before + d);
            assert(e0 + door_errors(level, items@, strict@, loose@, (k + 1) as nat) =~= (e0 + door_errors(level, items@, strict@, loose@, k as nat)) + d);
            if missing {
                if first is Some && !has_key(items@, c) {
                    assert(first_tile(level, Tile::Door(color_at(k as int))) is Some);
                }
            }
        }
        k = k + 1;
    }
    missing
}


/// Some item is a key.
pub open spec fn any_key(items: Seq<Spawn>) -> bool {
    exists|i: int| 0 <= i < items.len() && #[trigger] items[i].kind is Key
}

/// The strict search collected every key.
pub open spec fn all_keys_found(items: Seq<Spawn>, strict: Seq<bool>) -> bool {
    forall|i: int| 0 <= i < items.len() && #[trigger] items[i].kind is Key ==> strict[i]
}

/// The level has keys, all doors have theirs, and the strict search collected them all.
pub open spec fn with_keys(items: Seq<Spawn>, strict: Seq<bool>, missing: bool) -> bool {
    any_key(items) && !missing && all_keys_found(items, strict)
}

/// The error about the exit: the level has none, or the strict search never reached it.
pub open spec fn exit_errors(level: &Level, items: Seq<Spawn>, strict: Seq<bool>, strict_exit: bool, loose_exit: bool, missing: bool) -> Seq<Seq<char>> {
    match first_tile(level, Tile::Exit) {
        None => seq!["the level has no exit"@],
        Some((x, y)) => required(
            seq![],
            "the exit at "@ + at_text(x as nat, y as nat),
            strict_exit,
            loose_exit,
            if with_keys(items, strict, missing) {
                " even with the keys"@
            } else {
                ""@
            },
        ),
    }
}

/// Adds the error about the exit.
pub fn exit_errors_of(
    errors: &mut Vec<String>,
    level: &Level,
    items: &Vec<Spawn>,
    strict: &Vec<bool>,
    strict_exit: bool,
    loose_exit: bool,
    missing: bool,
)
    requires
        level.wf(),
        strict@.len() == items@.len(),
    ensures
        texts(final(errors)@) == texts(old(errors)@) + exit_errors(level, items@, strict@, strict_exit, loose_exit, missing),
{
    let ghost before = texts(errors@);
    match find_first(level, Tile::Exit) {
        None => {
            errors.push(String::from_str("the level has no exit"));
            proof {
                assert(texts(errors@) =~= before + seq!["the level has no exit"@]);
            }
        },
        Some((x, y)) => {
            let n = items.len();
            let mut any = false;
            let mut all = true;
            let mut i: usize = 0;
            while i < n
                invariant
                    n == items@.len() == strict@.len(),
                    i <= n,
                    any == exists|j: int| 0 <= j < i && #[trigger] items@[j].kind is Key,
                    all == forall|j: int| 0 <= j < i && #[trigger] items@[j].kind is Key ==> strict@[j],
                decreases n - i,
            {
                match items[i].kind {
                    SpawnKind::Key(_) => {
                        any = true;
                        all = all && strict[i];
                    },
                    _ => {},
                }
                i = i + 1;
            }
            let mut text = String::new();
            text.append("the exit at ");
            let a = at(x, y);
            text.append(a.as_str());
            proof {
                lemma_required_after(before, seq![], text@, strict_exit, loose_exit, if with_keys(items@, strict@, missing) {
                    " even with the keys"@
                } else {
                    ""@
                });
                assert(before + seq![] =~= before);
            }
            if any && !missing && all {
                require(errors, text, strict_exit, loose_exit, " even with the keys");
            } else {
                require(errors, text, strict_exit, loose_exit, "");
            }
        },
    }
}

/// `the secret area at <position>`.
pub open spec fn secret_text(s: Spawn) -> Seq<char> {
    "the secret area at "@ + at_text(s.x as nat, s.y as nat)
}

/// Errors for the first `k` items that are secret areas neither search reached.
pub open spec fn secret_errors(items: Seq<Spawn>, strict: Seq<bool>, loose: Seq<bool>, k: nat) -> Seq<Seq<char>>
    decreases k,
{
    if k == 0 {
        seq![]
    } else {
        let before = secret_errors(items, strict, loose, (k - 1) as nat);
        if items[k - 1].kind == SpawnKind::Secret && !strict[k - 1] && !loose[k - 1] {
            before.push(secret_text(items[k - 1]) + " cannot be reached"@)
        } else {
            before
        }
    }
}

/// Info for the first `k` items that are secret areas only the loose search reached.
pub open spec fn secret_infos(items: Seq<Spawn>, strict: Seq<bool>, loose: Seq<bool>, k: nat) -> Seq<Seq<char>>
    decreases k,
{
    if k == 0 {
        seq![]
    } else {
        let before = secret_infos(items, strict, loose, (k - 1) as nat);
        if items[k - 1].kind == SpawnKind::Secret && !strict[k - 1] && loose[k - 1] {
            before.push(secret_text(items[k - 1]) + " needs a crate or cracked wall broken"@)
        } else {
            before
        }
    }
}

/// Adds the errors and info about secret areas: behind a breakable wall is fine, sealed is not.
pub fn secrets_of(errors: &mut Vec<String>, info: &mut Vec<String>, items: &Vec<Spawn>, strict: &Vec<bool>, loose: &Vec<bool>)
    requires
        positions_fit(items@),
        strict@.len() == items@.len(),
        loose@.len() == items@.len(),
    ensures
        texts(final(errors)@) == texts(old(errors)@) + secret_errors(items@, strict@, loose@, items@.len()),
        texts(final(info)@) == texts(old(info)@) + secret_infos(items@, strict@, loose@, items@.len()),
{
    let ghost e0 = texts(errors@);
    let ghost i0 = texts(info@);
    proof {
        assert(e0 + seq![] =~= e0);
        assert(i0 + seq![] =~= i0);
    }
    let n = items.len();
    let mut i: usize = 0;
    while i < n
        invariant
            n == items@.len() == strict@.len() == loose@.len(),
            i <= n,
            positions_fit(items@),
            texts(errors@) == e0 + secret_errors(items@, strict@, loose@, i as nat),
            texts(info@) == i0 + secret_infos(items@, strict@, loose@, i as nat),
        decreases n - i,
    {
        let s = items[i];
        let ghost eb = texts(errors@);
        let ghost ib = texts(info@);
        assert(s.x < usize::MAX && s.y < usize::MAX);
        if s.kind == SpawnKind::Secret && !strict[i] {
            let mut text = String::new();
            text.append("the secret area at ");
            let a = at(s.x, s.y);
            text.append(a.as_str());
            if loose[i] {
                text.append(" needs a crate or cracked wall broken");
                info.push(text);
                proof {
                    assert(texts(info@) =~= ib.push(text@));
                    assert(text@ =~= secret_text(s) + " needs a crate or cracked wall broken"@);
                }
            } else {
                text.append(" cannot be reached");
                errors.push(text);
                proof {
                    assert(texts(errors@) =~= eb.push(text@));
                    assert(text@ =~= secret_text(s) + " cannot be reached"@);
                }
            }
        }
        proof {
            assert(e0 + secret_errors(items@, strict@, loose@, (i + 1) as nat) =~= texts(errors@));
            assert(i0 + secret_infos(items@, strict@, loose@, (i + 1) as nat) =~= texts(info@));
        }
        i = i + 1;
    }
}

/// The positions of the first `k` items of `kind` that the loose search (`behind` false) never
/// touched, or that only the loose search touched (`behind` true).
pub open spec fn spots(items: Seq<Spawn>, strict: Seq<bool>, loose: Seq<bool>, kind: SpawnKind, behind: bool, k: nat) -> Seq<Seq<char>>
    decreases k,
{
    if k == 0 {
        seq![]
    } else {
        let before = spots(items, strict, loose, kind, behind, (k - 1) as nat);
        let picked = if behind {
            loose[k - 1] && !strict[k - 1]
        } else {
            !loose[k - 1]
        };
        if items[k - 1].kind == kind && picked {
            before.push(at_text(items[k - 1].x as nat, items[k - 1].y as nat))
        } else {
            before
        }
    }
}

/// The parts separated by `sep`.
pub open spec fn join(parts: Seq<Seq<char>>, sep: Seq<char>) -> Seq<char>
    decreases parts.len(),
{
    if parts.len() == 0 {
        seq![]
    } else if parts.len() == 1 {
        parts[0]
    } else {
        join(parts.drop_last(), sep) + sep + parts.last()
    }
}

/// `<count> <name><what><positions>`.
pub open spec fn count_line(parts: Seq<Seq<char>>, name: Seq<char>, what: Seq<char>) -> Seq<char> {
    decimal(parts.len()) + " "@ + name + what + join(parts, "; "@)
}

/// Info about pickups of `kind`: those neither search reached, and those behind breakables.
pub open spec fn pickup_infos(items: Seq<Spawn>, strict: Seq<bool>, loose: Seq<bool>, kind: SpawnKind, name: Seq<char>) -> Seq<Seq<char>> {
    (if spots(items, strict, loose, kind, false, items.len()).len() > 0 {
        seq![count_line(spots(items, strict, loose, kind, false, items.len()), name, "(s) cannot be reached: "@)]
    } else {
        seq![]
    }) + (if spots(items, strict, loose, kind, true, items.len()).len() > 0 {
        seq![count_line(spots(items, strict, loose, kind, true, items.len()), name, "(s) need a crate or cracked wall broken: "@)]
    } else {
        seq![]
    })
}

fn spots_of(items: &Vec<Spawn>, strict: &Vec<bool>, loose: &Vec<bool>, kind: SpawnKind, behind: bool) -> (v: Vec<String>)
    requires
        positions_fit(items@),
        strict@.len() == items@.len(),
        loose@.len() == items@.len(),
    ensures
        texts(v@) == spots(items@, strict@, loose@, kind, behind, items@.len()),
{
    let mut v: Vec<String> = Vec::new();
    let n = items.len();
    let mut i: usize = 0;
    proof {
        assert(texts(v@) =~= seq![]);
    }
    while i < n
        invariant
            n == items@.len() == strict@.len() == loose@.len(),
            i <= n,
            positions_fit(items@),
            texts(v@) == spots(items@, strict@, loose@, kind, behind, i as nat),
        decreases n - i,
    {
        let s = items[i];
        assert(s.x < usize::MAX && s.y < usize::MAX);
        let picked = if behind {
            loose[i] && !strict[i]
        } else {
            !loose[i]
        };
        if s.kind == kind && picked {
            let ghost before = texts(v@);
            v.push(at(s.x, s.y));
            proof {
                assert(texts(v@) =~= before.push(at_text(s.x as nat, s.y as nat)));
            }
        }
        i = i + 1;
    }
    v
}

fn push_joined(out: &mut String, parts: &Vec<String>, sep: &str)
    ensures
        final(out)@ == old(out)@ + join(texts(parts@), sep@),
{
    let n = parts.len();
    let mut i: usize = 0;
    proof {
        assert(texts(parts@).take(0) =~= Seq::<Seq<char>>::empty());
        assert(old(out)@ + seq![] =~= old(out)@);
    }
    while i < n
        invariant
            n == parts@.len(),
            i <= n,
            out@ == old(out)@ + join(texts(parts@).take(i as int), sep@),
        decreases n - i,
    {
        let ghost before = out@;
        if i > 0 {
            out.append(sep);
        }
        out.append(parts[i].as_str());
        proof {
            let t = texts(parts@);
            assert(t.take(i + 1).drop_last() =~= t.take(i as int));
            if i == 0 {
                assert(join(t.take(1), sep@) == t.take(1)[0]);
            }
            assert(out@ =~= old(out)@ + join(t.take(i + 1), sep@));
        }
        i = i + 1;
    }
    proof {
        assert(texts(parts@).take(n as int) =~= texts(parts@));
    }
}

fn count_line_of(parts: &Vec<String>, name: &str, what: &str) -> (s: String)
    ensures
        s@ == count_line(texts(parts@), name@, what@),
{
    let mut s = String::new();
    push_decimal(&mut s, parts.len());
    s.append(" ");
    s.append(name);
    s.append(what);
    push_joined(&mut s, parts, "; ");
    proof {
        assert(s@ =~= count_line(texts(parts@), name@, what@));
    }
    s
}

/// Adds the info about pickups of `kind`, called `name` in the messages.
pub fn pickup_infos_of(info: &mut Vec<String>, items: &Vec<Spawn>, strict: &Vec<bool>, loose: &Vec<bool>, kind: SpawnKind, name: &str)
    requires
        positions_fit(items@),
        strict@.len() == items@.len(),
        loose@.len() == items@.len(),
    ensures
        texts(final(info)@) == texts(old(info)@) + pickup_infos(items@, strict@, loose@, kind, name@),
{
    let ghost i0 = texts(info@);
    let lost = spots_of(items, strict, loose, kind, false);
    let behind = spots_of(items, strict, loose, kind, true);
    if lost.len() > 0 {
        let line = count_line_of(&lost, name, "(s) cannot be reached: ");
        info.push(line);
    }
    let ghost i1 = texts(info@);
    if behind.len() > 0 {
        let line = count_line_of(&behind, name, "(s) need a crate or cracked wall broken: ");
        info.push(line);
    }
    proof {
        assert(texts(info@) =~= i0 + pickup_infos(items@, strict@, loose@, kind, name@));
    }
}

} // verus!
