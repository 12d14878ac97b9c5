//! Level validator: can the hero get from the start to every key, door, switch and the exit?
//!
//! Breadth-first search over standing positions (tile column, floor row) plus what the hero has
//! done so far (keys held, switches pressed). Each step is a short control script run through
//! the hero's physics, so jump height and reach come from the actual movement rules. This module
//! holds everything of the search but the motion itself: the scripts, the search frontier, what
//! a hero's box touches, the level as a set of pressed switches leaves it, and the report.
//!
//! Crates and cracked walls are solid here, so a required area must not depend on breaking
//! them. A second search with them removed tells "needs breaking" apart from "cannot be reached
//! at all".
use vstd::prelude::*;

use std::collections::HashSet;

use crate::game::Controls;
use crate::gates::links_opened;
use crate::level::{Color, Keys, Level, Link, Spawn, SpawnKind, Tile, at, at_text, cell, color_index, in_grid, key_bit, tile_solid};
use crate::load::texts;
use crate::report::{
    door_errors, door_errors_of, exit_errors, exit_errors_of, item_errors, key_errors, missing_key,
    pickup_infos, pickup_infos_of, positions_fit, secret_errors, secret_infos, secrets_of, switch_errors,
};
use crate::text::{decimal, push_decimal};

verus! {

/// Ticks a script may run before it counts as never landing.
pub const MAX_TICKS: u32 = 400;

/// A direction held for the whole flight.
pub const FOREVER: u32 = 4294967295;

/// The most switches a level may have: each pressed switch is one bit of the search state.
pub const MAX_SWITCHES: usize = 32;

/// Hold `dir` for `dir_ticks` ticks and jump for `jump_hold` ticks (0 = walk), until standing
/// again after at least `min_ticks`.
#[derive(Clone, Copy, PartialEq, Eq, Debug, Structural)]
pub struct Script {
    pub jump_hold: u32,
    pub dir: i32,
    pub dir_ticks: u32,
    pub min_ticks: u32,
}

/// A step of one tile, then either stop (drop straight down) or keep drifting until landing.
pub open spec fn step_scripts() -> Seq<Script> {
    seq![
        Script { jump_hold: 0, dir: -1i32, dir_ticks: 5, min_ticks: 5 },
        Script { jump_hold: 0, dir: -1i32, dir_ticks: FOREVER, min_ticks: 5 },
        Script { jump_hold: 0, dir: 1, dir_ticks: 5, min_ticks: 5 },
        Script { jump_hold: 0, dir: 1, dir_ticks: FOREVER, min_ticks: 5 },
    ]
}

/// A jump held for `hold` ticks: straight up, or drifting left or right for a while or the whole
/// flight.
pub open spec fn jump_scripts(hold: u32) -> Seq<Script> {
    seq![
        Script { jump_hold: hold, dir: 0, dir_ticks: 0, min_ticks: 1 },
        Script { jump_hold: hold, dir: -1i32, dir_ticks: 6, min_ticks: 1 },
        Script { jump_hold: hold, dir: -1i32, dir_ticks: 12, min_ticks: 1 },
        Script { jump_hold: hold, dir: -1i32, dir_ticks: FOREVER, min_ticks: 1 },
        Script { jump_hold: hold, dir: 1, dir_ticks: 6, min_ticks: 1 },
        Script { jump_hold: hold, dir: 1, dir_ticks: 12, min_ticks: 1 },
        Script { jump_hold: hold, dir: 1, dir_ticks: FOREVER, min_ticks: 1 },
    ]
}

/// Every move the search tries from a standing position: the steps, then jumps of four heights.
pub open spec fn all_scripts() -> Seq<Script> {
    step_scripts() + jump_scripts(2) + jump_scripts(5) + jump_scripts(8) + jump_scripts(12)
}

fn push_jumps(v: &mut Vec<Script>, hold: u32)
    ensures
        final(v)@ == old(v)@ + jump_scripts(hold),
{
    v.push(Script { jump_hold: hold, dir: 0, dir_ticks: 0, min_ticks: 1 });
    v.push(Script { jump_hold: hold, dir: -1, dir_ticks: 6, min_ticks: 1 });
    v.push(Script { jump_hold: hold, dir: -1, dir_ticks: 12, min_ticks: 1 });
    v.push(Script { jump_hold: hold, dir: -1, dir_ticks: FOREVER, min_ticks: 1 });
    v.push(Script { jump_hold: hold, dir: 1, dir_ticks: 6, min_ticks: 1 });
    v.push(Script { jump_hold: hold, dir: 1, dir_ticks: 12, min_ticks: 1 });
    v.push(Script { jump_hold: hold, dir: 1, dir_ticks: FOREVER, min_ticks: 1 });
    assert(v@ =~= old(v)@ + jump_scripts(hold));
}

/// The scripts tried from every standing position.
pub fn scripts() -> (v: Vec<Script>)
    ensures
        v@ == all_scripts(),
{
    let mut v: Vec<Script> = Vec::new();
    v.push(Script { jump_hold: 0, dir: -1, dir_ticks: 5, min_ticks: 5 });
    v.push(Script { jump_hold: 0, dir: -1, dir_ticks: FOREVER, min_ticks: 5 });
    v.push(Script { jump_hold: 0, dir: 1, dir_ticks: 5, min_ticks: 5 });
    v.push(Script { jump_hold: 0, dir: 1, dir_ticks: FOREVER, min_ticks: 5 });
    assert(v@ =~= step_scripts());
    push_jumps(&mut v, 2);
    push_jumps(&mut v, 5);
    push_jumps(&mut v, 8);
    push_jumps(&mut v, 12);
    v
}

impl Script {
    /// The controls held on tick `t` of the script.
    pub fn controls(&self, t: u32) -> (c: Controls)
        ensures
            c.jump == (t < self.jump_hold),
            c.left == (self.dir < 0 && t < self.dir_ticks),
            c.right == (self.dir > 0 && t < self.dir_ticks),
            !c.fire,
    {
        Controls {
            jump: t < self.jump_hold,
            left: self.dir < 0 && t < self.dir_ticks,
            right: self.dir > 0 && t < self.dir_ticks,
            fire: false,
        }
    }

    /// Whether the script is over once the hero stands after tick `t`.
    pub fn lands(&self, t: u32, on_ground: bool) -> (done: bool)
        ensures
            done == (on_ground && t + 1 >= self.min_ticks),
    {
        on_ground && t as u64 + 1 >= self.min_ticks as u64
    }
}

/// The standing still script that lets a hero placed above the ground drop onto it.
pub fn idle() -> (s: Script)
    ensures
        s == (Script { jump_hold: 0, dir: 0, dir_ticks: 0, min_ticks: 1 }),
{
    Script { jump_hold: 0, dir: 0, dir_ticks: 0, min_ticks: 1 }
}

/// What the validator found: errors make the level fail, info is for the level designer.
#[derive(Default, Debug)]
pub struct Report {
    pub errors: Vec<String>,
    pub info: Vec<String>,
}

impl Report {
    /// A level passes when there are no errors.
    pub fn is_ok(&self) -> (ok: bool)
        ensures
            ok == (self.errors@.len() == 0),
    {
        self.errors.len() == 0
    }
}

/// Where the hero stands and what he has done: the search graph's nodes.
#[derive(Clone, Copy, PartialEq, Eq, Debug, Structural)]
pub struct State {
    pub col: i32,
    pub feet: i32,
    pub keys: u8,
    pub switches: u32,
}

/// The seen states after a move reaches `st`: a new state joins the end.
pub open spec fn visited(seen: Seq<State>, st: State) -> Seq<State> {
    if seen.contains(st) {
        seen
    } else {
        seen.push(st)
    }
}

/// A search state packed into one number, each field in bits of its own: column, floor row,
/// keys, switches.
pub open spec fn state_key(s: State) -> u128 {
    ((s.col as u32 as u128) << 72u128) | ((s.feet as u32 as u128) << 40u128) | ((s.keys as u128) << 32u128) | (
    s.switches as u128)
}

fn key_of(s: State) -> (k: u128)
    ensures
        k == state_key(s),
{
    ((s.col as u32 as u128) << 72u128) | ((s.feet as u32 as u128) << 40u128) | ((s.keys as u128) << 32u128) | (
    s.switches as u128)
}

/// Different states have different keys.
proof fn lemma_state_key_injective(a: State, b: State)
    requires
        state_key(a) == state_key(b),
    ensures
        a == b,
{
    let (ac, af, ak, asw) = (a.col, a.feet, a.keys, a.switches);
    let (bc, bf, bk, bsw) = (b.col, b.feet, b.keys, b.switches);
    let (ac32, af32, bc32, bf32) = (ac as u32, af as u32, bc as u32, bf as u32);
    assert(((ac32 as u128) << 72u128) | ((af32 as u128) << 40u128) | ((ak as u128) << 32u128) | (asw as u128) == ((
    bc32 as u128) << 72u128) | ((bf32 as u128) << 40u128) | ((bk as u128) << 32u128) | (bsw as u128) ==> ac32 == bc32
        && af32 == bf32 && ak == bk && asw == bsw) by (bit_vector);
    assert(ac32 == bc32 ==> ac == bc) by (bit_vector)
        requires
            ac32 == ac as u32,
            bc32 == bc as u32,
    ;
    assert(af32 == bf32 ==> af == bf) by (bit_vector)
        requires
            af32 == af as u32,
            bf32 == bf as u32,
    ;
}

/// The frontier and the visited set of the breadth-first search. States are visited in the
/// order they were first seen; `next` is the first one not yet expanded; `index` holds the key of
/// every seen state, for a quick test of whether a state was seen.
pub struct Search {
    pub seen: Vec<State>,
    pub index: HashSet<u128>,
    pub next: usize,
}

impl Search {
    /// No state is seen twice, the frontier lies within the seen states, and the index holds
    /// exactly their keys.
    pub open spec fn wf(&self) -> bool {
        &&& self.next <= self.seen@.len()
        &&& forall|i: int, j: int|
            0 <= i < j < self.seen@.len() ==> #[trigger] self.seen@[i] != #[trigger] self.seen@[j]
        &&& forall|k: u128|
            #[trigger] self.index@.contains(k) <==> exists|i: int|
                0 <= i < self.seen@.len() && state_key(#[trigger] self.seen@[i]) == k
    }

    /// A search that has seen only the start.
    pub fn new(start: State) -> (s: Search)
        ensures
            s.wf(),
            s.seen@ == seq![start],
            s.next == 0,
    {
        broadcast use vstd::std_specs::hash::group_hash_axioms;
        let mut seen = Vec::new();
        seen.push(start);
        let mut index: HashSet<u128> = HashSet::new();
        index.insert(key_of(start));
        let s = Search { seen, index, next: 0 };
        assert forall|k: u128| #[trigger] s.index@.contains(k) <==> exists|i: int|
            0 <= i < s.seen@.len() && state_key(#[trigger] s.seen@[i]) == k by {
            if s.index@.contains(k) {
                assert(state_key(s.seen@[0]) == k);
            }
        }
        s
    }

    /// The next state to expand, first in first out; None once every seen state is expanded.
    pub fn pop(&mut self) -> (st: Option<State>)
        requires
            old(self).wf(),
        ensures
            final(self).wf(),
            final(self).seen@ == old(self).seen@,
            match st {
                Some(s) => old(self).next < old(self).seen@.len() && s == old(self).seen@[old(
                    self,
                ).next as int] && final(self).next == old(self).next + 1,
                None => old(self).next == old(self).seen@.len() && final(self).next == old(
                    self,
                ).next,
            },
    {
        if self.next < self.seen.len() {
            let s = self.seen[self.next];
            self.next = self.next + 1;
            Some(s)
        } else {
            None
        }
    }

    /// Records a state reached by a move: a new one joins the end of the frontier, a known one
    /// changes nothing. True if it was new.
    pub fn visit(&mut self, st: State) -> (added: bool)
        requires
            old(self).wf(),
        ensures
            final(self).wf(),
            final(self).next == old(self).next,
            added == !old(self).seen@.contains(st),
            final(self).seen@ == visited(old(self).seen@, st),
    {
        broadcast use vstd::std_specs::hash::group_hash_axioms;
        let k = key_of(st);
        if self.index.contains(&k) {
            proof {
                let i = choose|i: int| 0 <= i < self.seen@.len() && state_key(#[trigger] self.seen@[i]) == k;
                lemma_state_key_injective(self.seen@[i], st);
                assert(self.seen@.contains(st));
            }
            return false;
        }
        proof {
            if self.seen@.contains(st) {
                let i = choose|i: int| 0 <= i < self.seen@.len() && self.seen@[i] == st;
                assert(state_key(self.seen@[i]) == k);
            }
        }
        let ghost before = self.seen@;
        self.index.insert(k);
        self.seen.push(st);
        proof {
            assert forall|a: int, b: int| 0 <= a < b < self.seen@.len() implies #[trigger] self.seen@[a] != #[trigger] self.seen@[b] by {
                if b == before.len() {
                    assert(before.contains(before[a]));
                } else {
                    assert(self.seen@[a] == before[a] && self.seen@[b] == before[b]);
                }
            }
            assert forall|q: u128| #[trigger] self.index@.contains(q) <==> exists|i: int|
                0 <= i < self.seen@.len() && state_key(#[trigger] self.seen@[i]) == q by {
                if self.index@.contains(q) {
                    if q == k {
                        assert(state_key(self.seen@[before.len() as int]) == q);
                    } else {
                        let i = choose|i: int| 0 <= i < before.len() && state_key(#[trigger] before[i]) == q;
                        assert(self.seen@[i] == before[i]);
                    }
                }
                if exists|i: int| 0 <= i < self.seen@.len() && state_key(#[trigger] self.seen@[i]) == q {
                    let i = choose|i: int| 0 <= i < self.seen@.len() && state_key(#[trigger] self.seen@[i]) == q;
                    if i < before.len() {
                        assert(self.seen@[i] == before[i]);
                    }
                }
            }
        }
        true
    }

    /// The number of distinct states seen.
    pub fn reachable(&self) -> (n: usize)
        ensures
            n == self.seen@.len(),
    {
        self.seen.len()
    }
}

/// Visiting a state that was already seen changes nothing: visiting the same state twice is
/// the same as visiting it once, and afterwards it is seen.
pub proof fn lemma_visit_twice_is_visit_once(seen: Seq<State>, st: State)
    ensures
        visited(visited(seen, st), st) == visited(seen, st),
        visited(seen, st).contains(st),
{
    if !seen.contains(st) {
        assert(seen.push(st)[seen.len() as int] == st);
    }
}


/// Whether the hero can touch a spawn: everything but bots and hint globes.
pub open spec fn is_item(s: Spawn) -> bool {
    !(s.kind is Bot) && !(s.kind is Hint)
}

/// The touchable spawns, in level order.
pub open spec fn items_of(spawns: Seq<Spawn>) -> Seq<Spawn>
    decreases spawns.len(),
{
    if spawns.len() == 0 {
        spawns
    } else if is_item(spawns.last()) {
        items_of(spawns.drop_last()).push(spawns.last())
    } else {
        items_of(spawns.drop_last())
    }
}

/// The number of switches among `spawns`.
pub open spec fn switch_count(spawns: Seq<Spawn>) -> nat
    decreases spawns.len(),
{
    if spawns.len() == 0 {
        0
    } else {
        switch_count(spawns.drop_last()) + if spawns.last().kind == SpawnKind::Switch {
            1nat
        } else {
            0nat
        }
    }
}

/// The search-state bit of item `i`: the k-th switch sets bit k, other items none.
pub open spec fn switch_bit_of(items: Seq<Spawn>, i: int) -> u32 {
    if items[i].kind == SpawnKind::Switch {
        1u32 << (switch_count(items.take(i)) as u32)
    } else {
        0
    }
}

proof fn lemma_single_bit(a: u32)
    requires
        a < 32,
    ensures
        (1u32 << a) != 0,
        (1u32 << a) & (((1u32 << a) - 1) as u32) == 0,
{
    assert((1u32 << a) != 0 && (1u32 << a) & (((1u32 << a) - 1) as u32) == 0) by (bit_vector)
        requires
            a < 32,
    ;
}

proof fn lemma_bits_disjoint(a: u32, b: u32)
    requires
        a < 32,
        b < 32,
        a != b,
    ensures
        (1u32 << a) & (1u32 << b) == 0,
{
    assert((1u32 << a) & (1u32 << b) == 0) by (bit_vector)
        requires
            a < 32,
            b < 32,
            a != b,
    ;
}

/// Counting switches over a longer prefix counts at least as many.
proof fn lemma_switch_count_grows(s: Seq<Spawn>, a: int, b: int)
    requires
        0 <= a <= b <= s.len(),
    ensures
        switch_count(s.take(a)) <= switch_count(s.take(b)),
    decreases b - a,
{
    if a < b {
        lemma_switch_count_grows(s, a, b - 1);
        lemma_switch_count_prefix(s, b);
    }
}

/// Switch bits are distinct single bits: every switch gets a bit of its own, no two switches
/// share one, and other items get none. So the bits of a set of switches say exactly which of
/// them are pressed.
pub proof fn lemma_switch_bits_distinct(items: Seq<Spawn>)
    requires
        switch_count(items) <= MAX_SWITCHES,
    ensures
        forall|i: int|
            0 <= i < items.len() && items[i].kind != SpawnKind::Switch ==> #[trigger] switch_bit_of(items, i) == 0,
        forall|i: int|
            0 <= i < items.len() && items[i].kind == SpawnKind::Switch ==> #[trigger] switch_bit_of(items, i) != 0
                && switch_bit_of(items, i) & ((switch_bit_of(items, i) - 1) as u32) == 0,
        forall|i: int, j: int|
            0 <= i < items.len() && 0 <= j < items.len() && i != j && items[i].kind == SpawnKind::Switch
                && items[j].kind == SpawnKind::Switch ==> #[trigger] switch_bit_of(items, i) & #[trigger] switch_bit_of(
                items,
                j,
            ) == 0,
{
    assert forall|i: int| 0 <= i < items.len() && items[i].kind == SpawnKind::Switch implies switch_count(items.take(i))
        < 32 by {
        lemma_switch_count_prefix(items, i + 1);
        assert(items.take(items.len() as int) =~= items);
        lemma_switch_count_grows(items, i + 1, items.len() as int);
    }
    assert forall|i: int|
        0 <= i < items.len() && items[i].kind == SpawnKind::Switch implies #[trigger] switch_bit_of(items, i) != 0
            && switch_bit_of(items, i) & ((switch_bit_of(items, i) - 1) as u32) == 0 by {
        lemma_single_bit(switch_count(items.take(i)) as u32);
    }
    assert forall|i: int, j: int|
        0 <= i < items.len() && 0 <= j < items.len() && i != j && items[i].kind == SpawnKind::Switch
            && items[j].kind == SpawnKind::Switch implies #[trigger] switch_bit_of(items, i) & #[trigger] switch_bit_of(
            items,
            j,
        ) == 0 by {
        let (a, b) = if i < j {
            (i, j)
        } else {
            (j, i)
        };
        lemma_switch_count_prefix(items, a + 1);
        lemma_switch_count_grows(items, a + 1, b);
        let ka = switch_count(items.take(i)) as u32;
        let kb = switch_count(items.take(j)) as u32;
        lemma_bits_disjoint(ka, kb);
    }
}

/// The grid with every crate and cracked wall removed.
pub open spec fn breakables_opened(g: Seq<Tile>) -> Seq<Tile> {
    Seq::new(g.len(), |i: int| if g[i] is Crate || g[i] is Cracked { Tile::Empty } else { g[i] })
}

/// The last item lying on tile (x, y), if any: the one a touch of that tile finds.
pub open spec fn item_at(items: Seq<Spawn>, x: int, y: int) -> Option<int>
    decreases items.len(),
{
    if items.len() == 0 {
        None
    } else if items.last().x == x && items.last().y == y {
        Some(items.len() - 1)
    } else {
        item_at(items.drop_last(), x, y)
    }
}

/// `item_at` as stored per tile: 0 for none, else one more than the index.
pub open spec fn item_code(items: Seq<Spawn>, x: int, y: int) -> usize {
    match item_at(items, x, y) {
        Some(i) => (i + 1) as usize,
        None => 0,
    }
}

/// The grid after pressing the switches in `switches`: for each of the first `k` items whose
/// bit is set, in item order, its linked gates open.
pub open spec fn pressed_grid(
    g: Seq<Tile>,
    w: int,
    h: int,
    links: Seq<Link>,
    items: Seq<Spawn>,
    bits: Seq<u32>,
    switches: u32,
    k: nat,
) -> Seq<Tile>
    decreases k,
{
    if k == 0 {
        g
    } else {
        let before = pressed_grid(g, w, h, links, items, bits, switches, (k - 1) as nat);
        if bits[k - 1] & switches != 0 {
            links_opened(before, w, h, links, (items[k - 1].x, items[k - 1].y))
        } else {
            before
        }
    }
}

/// The level as the search sees it, and what the hero can touch in it.
pub struct Checker {
    /// The level with all gates closed (and, for the second search, breakables removed).
    pub base: Level,
    /// Everything the hero can touch: keys, health, gems, switches, secrets.
    pub items: Vec<Spawn>,
    /// Per item: the bit it sets in `State::switches` (0 if it is no switch).
    pub switch_bit: Vec<u32>,
    /// Per tile: `item_code` of the tile.
    pub item_grid: Vec<usize>,
}

impl Checker {
    pub open spec fn wf(&self) -> bool {
        &&& self.base.wf()
        &&& self.base.w <= i32::MAX
        &&& self.base.h <= i32::MAX
        &&& self.switch_bit@.len() == self.items@.len()
        &&& forall|i: int| 0 <= i < self.items@.len() ==> #[trigger] self.switch_bit@[i] == switch_bit_of(self.items@, i)
        &&& self.item_grid@.len() == self.base.w * self.base.h
        &&& forall|x: int, y: int|
            in_grid(self.base.w as int, self.base.h as int, x, y) ==> #[trigger] self.item_grid@[cell(
                self.base.w as int,
                x,
                y,
            )] == item_code(self.items@, x, y)
    }

    /// The checker of `level`; with `open_breakables` crates and cracked walls are gone.
    pub fn new(level: &Level, open_breakables: bool) -> (c: Checker)
        requires
            level.wf(),
            level.w <= i32::MAX,
            level.h <= i32::MAX,
            switch_count(level.spawns@) <= MAX_SWITCHES,
        ensures
            c.wf(),
            c.base.same_except_grid(level),
            c.base.grid() == if open_breakables {
                breakables_opened(level.grid())
            } else {
                level.grid()
            },
            c.items@ == items_of(level.spawns@),
            forall|i: int|
                0 <= i < c.items@.len() && c.items@[i].kind != SpawnKind::Switch ==> #[trigger] c.switch_bit@[i] == 0,
            forall|i: int|
                0 <= i < c.items@.len() && c.items@[i].kind == SpawnKind::Switch ==> #[trigger] c.switch_bit@[i] != 0 && c.switch_bit@[i] & ((c.switch_bit@[i]
                    - 1) as u32) == 0,
            forall|i: int, j: int|
                0 <= i < c.items@.len() && 0 <= j < c.items@.len() && i != j && c.items@[i].kind == SpawnKind::Switch && c.items@[j].kind
                    == SpawnKind::Switch ==> #[trigger] c.switch_bit@[i] & #[trigger] c.switch_bit@[j] == 0,
    {
        let mut base = level.clone();
        if open_breakables {
            let n = base.tiles.len();
            let mut i: usize = 0;
            while i < n
                invariant
                    n == base.tiles@.len() == level.grid().len(),
                    i <= n,
                    base.same_except_grid(level),
                    forall|j: int| 0 <= j < n ==> #[trigger] base.tiles@[j] == if j < i {
                        breakables_opened(level.grid())[j]
                    } else {
                        level.grid()[j]
                    },
                decreases n - i,
            {
                match base.tiles[i] {
                    Tile::Crate | Tile::Cracked => {
                        base.tiles.set(i, Tile::Empty);
                    },
                    _ => {},
                }
                i = i + 1;
            }
            assert(base.grid() =~= breakables_opened(level.grid()));
        }
        let (items, switch_bit) = Self::items(level);
        let cells = level.tiles.len();
        let item_grid = Self::index_items(&items, level.w, level.h);
        Checker { base, items, switch_bit, item_grid }
    }

    /// The touchable spawns of `level`, and the switch bit of each.
    pub fn items(level: &Level) -> (r: (Vec<Spawn>, Vec<u32>))
        requires
            switch_count(level.spawns@) <= MAX_SWITCHES,
        ensures
            r.0@ == items_of(level.spawns@),
            r.1@.len() == r.0@.len(),
            forall|i: int| 0 <= i < r.0@.len() ==> #[trigger] r.1@[i] == switch_bit_of(r.0@, i),
            forall|i: int|
                0 <= i < r.0@.len() && r.0@[i].kind != SpawnKind::Switch ==> #[trigger] r.1@[i] == 0,
            forall|i: int|
                0 <= i < r.0@.len() && r.0@[i].kind == SpawnKind::Switch ==> #[trigger] r.1@[i] != 0 && r.1@[i] & ((r.1@[i]
                    - 1) as u32) == 0,
            forall|i: int, j: int|
                0 <= i < r.0@.len() && 0 <= j < r.0@.len() && i != j && r.0@[i].kind == SpawnKind::Switch && r.0@[j].kind
                    == SpawnKind::Switch ==> #[trigger] r.1@[i] & #[trigger] r.1@[j] == 0,
    {
        let mut items: Vec<Spawn> = Vec::new();
        let mut bits: Vec<u32> = Vec::new();
        let mut next_bit: u32 = 0;
        let n = level.spawns.len();
        let mut k: usize = 0;
        proof {
            assert(level.spawns@.take(0) =~= Seq::<Spawn>::empty());
            assert(items@.take(0) =~= Seq::<Spawn>::empty());
        }
        while k < n
            invariant
                n == level.spawns@.len(),
                k <= n,
                switch_count(level.spawns@) <= MAX_SWITCHES,
                items@ == items_of(level.spawns@.take(k as int)),
                next_bit == switch_count(items@),
                next_bit <= switch_count(level.spawns@.take(k as int)),
                bits@.len() == items@.len(),
                forall|i: int| 0 <= i < items@.len() ==> #[trigger] bits@[i] == switch_bit_of(items@, i),
            decreases n - k,
        {
            let s = level.spawns[k];
            proof {
                let t = level.spawns@.take(k + 1);
                assert(t.drop_last() =~= level.spawns@.take(k as int));
                assert(t.last() == s);
                lemma_switch_count_prefix(level.spawns@, k + 1);
                lemma_items_switch_count(level.spawns@.take(k as int));
            }
            let item = match s.kind {
                SpawnKind::Bot | SpawnKind::Hint(_) => false,
                _ => true,
            };
            if item {
                let ghost old_items = items@;
                let bit: u32 = if s.kind == SpawnKind::Switch {
                    let b: u32 = 1u32 << next_bit;
                    next_bit = next_bit + 1;
                    b
                } else {
                    0
                };
                items.push(s);
                bits.push(bit);
                proof {
                    assert(items@.take(old_items.len() as int) =~= old_items);
                    assert(items@.drop_last() =~= old_items);
                    assert forall|i: int| 0 <= i < items@.len() implies #[trigger] bits@[i] == switch_bit_of(items@, i) by {
                        if i < old_items.len() {
                            assert(items@.take(i) =~= old_items.take(i));
                        }
                    }
                }
            }
            k = k + 1;
        }
        proof {
            assert(level.spawns@.take(n as int) =~= level.spawns@);
            lemma_items_switch_count(level.spawns@);
            lemma_switch_bits_distinct(items@);
        }
        (items, bits)
    }

    /// Per tile of a `w` x `h` grid, `item_code` of the tile.
    fn index_items(items: &Vec<Spawn>, w: usize, h: usize) -> (g: Vec<usize>)
        requires
            w * h <= usize::MAX,
        ensures
            g@.len() == w * h,
            forall|x: int, y: int| in_grid(w as int, h as int, x, y) ==> #[trigger] g@[cell(w as int, x, y)] == item_code(items@, x, y),
    {
        let n = w * h;
        let mut g: Vec<usize> = Vec::new();
        let mut i: usize = 0;
        while i < n
            invariant
                n == w * h,
                i <= n,
                g@.len() == i,
                forall|j: int| 0 <= j < i ==> g@[j] == 0,
            decreases n - i,
        {
            g.push(0);
            i = i + 1;
        }
        let m = items.len();
        let mut k: usize = 0;
        proof {
            assert(items@.take(0) =~= Seq::<Spawn>::empty());
            assert forall|x: int, y: int| in_grid(w as int, h as int, x, y) implies #[trigger] g@[cell(w as int, x, y)] == item_code(items@.take(0), x, y) by {
                crate::level::lemma_cell_in_bounds(w as int, h as int, x, y);
            }
        }
        while k < m
            invariant
                n == w * h,
                m == items@.len(),
                k <= m,
                g@.len() == n,
                forall|x: int, y: int|
                    in_grid(w as int, h as int, x, y) ==> #[trigger] g@[cell(w as int, x, y)] == item_code(
                        items@.take(k as int),
                        x,
                        y,
                    ),
            decreases m - k,
        {
            let s = items[k];
            let ghost g0 = g@;
            proof {
                assert(items@.take(k + 1).drop_last() =~= items@.take(k as int));
            }
            if s.x < w && s.y < h {
                proof {
                    crate::level::lemma_cell_in_bounds(w as int, h as int, s.x as int, s.y as int);
                }
                g.set(s.y * w + s.x, k + 1);
                proof {
                    assert forall|x: int, y: int| in_grid(w as int, h as int, x, y) implies #[trigger] g@[cell(w as int, x, y)] == item_code(items@.take(k + 1), x, y) by {
                        crate::level::lemma_cell_in_bounds(w as int, h as int, x, y);
                        if cell(w as int, x, y) == cell(w as int, s.x as int, s.y as int) {
                            crate::level::lemma_cell_unique(w as int, x, y, s.x as int, s.y as int);
                        }
                    }
                }
            } else {
                proof {
                    assert forall|x: int, y: int| in_grid(w as int, h as int, x, y) implies #[trigger] g@[cell(w as int, x, y)] == item_code(items@.take(k + 1), x, y) by {
                        assert(g@[cell(w as int, x, y)] == g0[cell(w as int, x, y)]);
                    }
                }
            }
            k = k + 1;
        }
        proof {
            assert(items@.take(m as int) =~= items@);
        }
        g
    }

    /// The level as it looks with the switches in `switches` pressed.
    pub fn level(&self, switches: u32) -> (l: Level)
        requires
            self.wf(),
        ensures
            l.wf(),
            l.same_except_grid(&self.base),
            l.grid() == pressed_grid(
                self.base.grid(),
                self.base.w as int,
                self.base.h as int,
                self.base.links@,
                self.items@,
                self.switch_bit@,
                switches,
                self.items@.len(),
            ),
    {
        let mut l = self.base.clone();
        let n = self.items.len();
        let mut i: usize = 0;
        while i < n
            invariant
                self.wf(),
                n == self.items@.len(),
                i <= n,
                l.wf(),
                l.same_except_grid(&self.base),
                l.grid() == pressed_grid(
                    self.base.grid(),
                    self.base.w as int,
                    self.base.h as int,
                    self.base.links@,
                    self.items@,
                    self.switch_bit@,
                    switches,
                    i as nat,
                ),
            decreases n - i,
        {
            if self.switch_bit[i] & switches != 0 {
                let s = self.items[i];
                l.open_linked_gates((s.x, s.y));
            }
            i = i + 1;
        }
        l
    }
}

/// Prefixes count switches one spawn at a time.
proof fn lemma_switch_count_prefix(s: Seq<Spawn>, k: int)
    requires
        0 < k <= s.len(),
    ensures
        switch_count(s.take(k)) == switch_count(s.take(k - 1)) + if s[k - 1].kind == SpawnKind::Switch {
            1nat
        } else {
            0nat
        },
        switch_count(s.take(k)) <= switch_count(s),
    decreases s.len() - k,
{
    assert(s.take(k).drop_last() =~= s.take(k - 1));
    if k < s.len() {
        lemma_switch_count_prefix(s, k + 1);
    } else {
        assert(s.take(k) =~= s);
    }
}

/// Every switch is an item, so the items hold as many switches as the spawns.
proof fn lemma_items_switch_count(s: Seq<Spawn>)
    ensures
        switch_count(items_of(s)) == switch_count(s),
    decreases s.len(),
{
    if s.len() > 0 {
        lemma_items_switch_count(s.drop_last());
        if is_item(s.last()) {
            assert(items_of(s).drop_last() =~= items_of(s.drop_last()));
        }
    }
}


/// What the search has touched so far, in any state: per item, per door color, and the exit.
pub struct Found {
    pub item: Vec<bool>,
    /// Indexed by `Color::index`.
    pub door: Vec<bool>,
    pub exit: bool,
}

impl Found {
    /// Nothing touched yet, for `n` items.
    pub fn new(n: usize) -> (f: Found)
        ensures
            f.item@ == Seq::new(n as nat, |i: int| false),
            f.door@ == seq![false, false, false, false],
            !f.exit,
    {
        let mut item: Vec<bool> = Vec::new();
        let mut i: usize = 0;
        while i < n
            invariant
                i <= n,
                item@ == Seq::new(i as nat, |j: int| false),
            decreases n - i,
        {
            item.push(false);
            i = i + 1;
            proof {
                assert(item@ =~= Seq::new(i as nat, |j: int| false));
            }
        }
        let mut door: Vec<bool> = Vec::new();
        door.push(false);
        door.push(false);
        door.push(false);
        door.push(false);
        assert(door@ =~= seq![false, false, false, false]);
        Found { item, door, exit: false }
    }
}

/// What a script touched that changes the state.
#[derive(Clone, Copy, PartialEq, Eq, Debug, Structural)]
pub struct Touched {
    pub keys: u8,
    pub switches: u32,
}

impl Touched {
    /// Everything either touched: keys and switches joined bit by bit.
    pub fn merge(&self, other: Touched) -> (t: Touched)
        ensures
            t == (Touched { keys: self.keys | other.keys, switches: self.switches | other.switches }),
    {
        Touched { keys: self.keys | other.keys, switches: self.switches | other.switches }
    }
}

/// The result of one search: what it touched, and how many states it reached.
pub struct Outcome {
    pub found: Found,
    pub reachable: usize,
}

/// The box spanning tiles x0..=x1, y0..=y1 touches item `i`: the item lies in it and is the last
/// item on its tile.
pub open spec fn touches_item(items: Seq<Spawn>, i: int, x0: int, x1: int, y0: int, y1: int) -> bool {
    &&& item_at(items, items[i].x as int, items[i].y as int) == Some(i)
    &&& x0 <= items[i].x <= x1
    &&& y0 <= items[i].y <= y1
}

/// Some tile t lies in the span x0..=x1, y0..=y1.
pub open spec fn tile_in(level: &Level, t: Tile, x0: int, x1: int, y0: int, y1: int) -> bool {
    exists|tx: int, ty: int| x0 <= tx <= x1 && y0 <= ty <= y1 && #[trigger] level.tile(tx, ty) == Some(t)
}

/// The keys of the touched key items among the first `k` items.
pub open spec fn keys_touched(items: Seq<Spawn>, x0: int, x1: int, y0: int, y1: int, k: nat) -> u8
    decreases k,
{
    if k == 0 {
        0
    } else {
        let before = keys_touched(items, x0, x1, y0, y1, (k - 1) as nat);
        match items[k - 1].kind {
            SpawnKind::Key(c) => if touches_item(items, k - 1, x0, x1, y0, y1) {
                before | key_bit(c)
            } else {
                before
            },
            _ => before,
        }
    }
}

/// The bits of the touched switches among the first `k` items.
pub open spec fn switches_touched(
    items: Seq<Spawn>,
    bits: Seq<u32>,
    x0: int,
    x1: int,
    y0: int,
    y1: int,
    k: nat,
) -> u32
    decreases k,
{
    if k == 0 {
        0
    } else {
        let before = switches_touched(items, bits, x0, x1, y0, y1, (k - 1) as nat);
        if items[k - 1].kind == SpawnKind::Switch && touches_item(items, k - 1, x0, x1, y0, y1) {
            before | bits[k - 1]
        } else {
            before
        }
    }
}

/// `item_at` finds an item that lies on the tile.
proof fn lemma_item_at_lies_there(items: Seq<Spawn>, x: int, y: int)
    ensures
        item_at(items, x, y) matches Some(i) ==> 0 <= i < items.len() && items[i].x == x && items[i].y == y,
    decreases items.len(),
{
    if items.len() > 0 {
        lemma_item_at_lies_there(items.drop_last(), x, y);
    }
}

impl Checker {
    /// The last item on tile (tx, ty), if any.
    pub fn item_index(&self, tx: i32, ty: i32) -> (r: Option<usize>)
        requires
            self.wf(),
        ensures
            match r {
                Some(i) => item_at(self.items@, tx as int, ty as int) == Some(i as int),
                None => item_at(self.items@, tx as int, ty as int) is None,
            },
    {
        let w = self.base.w;
        let h = self.base.h;
        if tx >= 0 && ty >= 0 && (tx as usize) < w && (ty as usize) < h {
            let n = self.item_grid.len();
            let m = self.items.len();
            proof {
                crate::level::lemma_cell_in_bounds(w as int, h as int, tx as int, ty as int);
                lemma_item_at_lies_there(self.items@, tx as int, ty as int);
                assert(self.item_grid@[cell(w as int, tx as int, ty as int)] == item_code(self.items@, tx as int, ty as int));
            }
            let code = self.item_grid[ty as usize * w + tx as usize];
            if code == 0 {
                None
            } else {
                Some(code - 1)
            }
        } else {
            let mut j = self.items.len();
            proof {
                assert(self.items@.take(j as int) =~= self.items@);
            }
            while j > 0
                invariant
                    j <= self.items@.len(),
                    item_at(self.items@, tx as int, ty as int) == item_at(self.items@.take(j as int), tx as int, ty as int),
                decreases j,
            {
                let s = self.items[j - 1];
                proof {
                    assert(self.items@.take(j as int).drop_last() =~= self.items@.take(j - 1));
                }
                if tx >= 0 && ty >= 0 && s.x == tx as usize && s.y == ty as usize {
                    return Some(j - 1);
                }
                j = j - 1;
            }
            None
        }
    }

    /// Marks the items on row `ty`, columns x0..=x1, as hit; true if an exit lies there.
    fn mark_row(&self, level: &Level, ty: i32, x0: i32, x1: i32, hit: &mut Vec<bool>) -> (exit: bool)
        requires
            self.wf(),
            level.wf(),
            old(hit)@.len() == self.items@.len(),
        ensures
            final(hit)@.len() == old(hit)@.len(),
            forall|i: int|
                0 <= i < self.items@.len() ==> #[trigger] final(hit)@[i] == (old(hit)@[i] || touches_item(
                    self.items@,
                    i,
                    x0 as int,
                    x1 as int,
                    ty as int,
                    ty as int,
                )),
            exit == tile_in(level, Tile::Exit, x0 as int, x1 as int, ty as int, ty as int),
    {
        let mut exit = false;
        let mut tx: i64 = x0 as i64;
        while tx <= x1 as i64
            invariant
                self.wf(),
                level.wf(),
                x0 <= tx <= x1 + 1 || tx == x0,
                hit@.len() == self.items@.len(),
                forall|i: int|
                    0 <= i < self.items@.len() ==> #[trigger] hit@[i] == (old(hit)@[i] || touches_item(
                        self.items@,
                        i,
                        x0 as int,
                        tx - 1,
                        ty as int,
                        ty as int,
                    )),
                exit == tile_in(level, Tile::Exit, x0 as int, tx - 1, ty as int, ty as int),
            decreases x1 + 1 - tx,
        {
            let ghost before = hit@;
            let here = self.item_index(tx as i32, ty);
            proof {
                lemma_item_at_lies_there(self.items@, tx as int, ty as int);
            }
            match here {
                Some(i) => {
                    hit.set(i, true);
                },
                None => {},
            }
            proof {
                assert forall|i: int| 0 <= i < self.items@.len() implies #[trigger] hit@[i] == (old(hit)@[i] || touches_item(
                    self.items@,
                    i,
                    x0 as int,
                    tx as int,
                    ty as int,
                    ty as int,
                )) by {
                    assert(before[i] == (old(hit)@[i] || touches_item(self.items@, i, x0 as int, tx - 1, ty as int, ty as int)));
                    if self.items@[i].x == tx && self.items@[i].y == ty && item_at(self.items@, tx as int, ty as int) == Some(i) {
                        assert(here == Some(i as usize));
                    }
                }
            }
            let t = level.get(tx as i32, ty);
            match t {
                Some(Tile::Exit) => {
                    exit = true;
                },
                _ => {},
            }
            proof {
                if exit && t != Some(Tile::Exit) {
                    let (a, b) = choose|a: int, b: int| x0 <= a <= tx - 1 && ty <= b <= ty && #[trigger] level.tile(a, b) == Some(Tile::Exit);
                    assert(x0 <= a <= tx && ty <= b <= ty && level.tile(a, b) == Some(Tile::Exit));
                }
                if t == Some(Tile::Exit) {
                    assert(level.tile(tx as int, ty as int) == Some(Tile::Exit));
                }
                if tile_in(level, Tile::Exit, x0 as int, tx as int, ty as int, ty as int) && t != Some(Tile::Exit) {
                    let (a, b) = choose|a: int, b: int| x0 <= a <= tx && ty <= b <= ty && #[trigger] level.tile(a, b) == Some(Tile::Exit);
                    assert(a != tx);
                    assert(x0 <= a <= tx - 1 && level.tile(a, b) == Some(Tile::Exit));
                }
            }
            tx = tx + 1;
        }
        exit
    }
}

/// Marks the door colors found on row `ty`, columns d0..=d1.
fn doors_in_row(level: &Level, ty: i32, d0: i32, d1: i32, door: &mut Vec<bool>)
    requires
        level.wf(),
        old(door)@.len() == 4,
    ensures
        final(door)@.len() == 4,
        forall|c: Color| #[trigger] final(door)@[color_index(c) as int] == (old(door)@[color_index(c) as int] || tile_in(
            level,
            Tile::Door(c),
            d0 as int,
            d1 as int,
            ty as int,
            ty as int,
        )),
{
    let mut tx: i64 = d0 as i64;
    while tx <= d1 as i64
        invariant
            level.wf(),
            d0 <= tx <= d1 + 1 || tx == d0,
            door@.len() == 4,
            forall|c: Color| #[trigger] door@[color_index(c) as int] == (old(door)@[color_index(c) as int] || tile_in(
                level,
                Tile::Door(c),
                d0 as int,
                tx - 1,
                ty as int,
                ty as int,
            )),
        decreases d1 + 1 - tx,
    {
        let ghost before = door@;
        let t = level.get(tx as i32, ty);
        match t {
            Some(Tile::Door(c)) => {
                door.set(c.index(), true);
            },
            _ => {},
        }
        proof {
            assert forall|c: Color| #[trigger] door@[color_index(c) as int] == (old(door)@[color_index(c) as int] || tile_in(
                level,
                Tile::Door(c),
                d0 as int,
                tx as int,
                ty as int,
                ty as int,
            )) by {
                assert(before[color_index(c) as int] == (old(door)@[color_index(c) as int] || tile_in(level, Tile::Door(c), d0 as int, tx - 1, ty as int, ty as int)));
                if t == Some(Tile::Door(c)) {
                    assert(level.tile(tx as int, ty as int) == Some(Tile::Door(c)));
                }
                if tile_in(level, Tile::Door(c), d0 as int, tx as int, ty as int, ty as int) && t != Some(Tile::Door(c)) {
                    let (a, b) = choose|a: int, b: int| d0 <= a <= tx && ty <= b <= ty && #[trigger] level.tile(a, b) == Some(Tile::Door(c));
                    assert(a != tx);
                    assert(d0 <= a <= tx - 1 && level.tile(a, b) == Some(Tile::Door(c)));
                }
                if tile_in(level, Tile::Door(c), d0 as int, tx - 1, ty as int, ty as int) {
                    let (a, b) = choose|a: int, b: int| d0 <= a <= tx - 1 && ty <= b <= ty && #[trigger] level.tile(a, b) == Some(Tile::Door(c));
                    assert(d0 <= a <= tx && level.tile(a, b) == Some(Tile::Door(c)));
                }
                match t {
                    Some(Tile::Door(d)) => {
                        if d != c {
                            assert(color_index(d) != color_index(c));
                        }
                    },
                    _ => {},
                }
            }
        }
        tx = tx + 1;
    }
}


impl Checker {
    /// Records everything a hero's box touches and returns what changes the search state. The
    /// box covers tiles x0..=x1 by y0..=y1; standing against a door counts as reaching it, so
    /// doors count in the wider columns d0..=d1.
    pub fn touch(&self, level: &Level, x0: i32, x1: i32, y0: i32, y1: i32, d0: i32, d1: i32, found: &mut Found) -> (t: Touched)
        requires
            self.wf(),
            level.wf(),
            old(found).item@.len() == self.items@.len(),
            old(found).door@.len() == 4,
        ensures
            final(found).item@.len() == old(found).item@.len(),
            final(found).door@.len() == 4,
            forall|i: int|
                0 <= i < self.items@.len() ==> #[trigger] final(found).item@[i] == (old(found).item@[i] || touches_item(
                    self.items@,
                    i,
                    x0 as int,
                    x1 as int,
                    y0 as int,
                    y1 as int,
                )),
            final(found).exit == (old(found).exit || tile_in(level, Tile::Exit, x0 as int, x1 as int, y0 as int, y1 as int)),
            forall|c: Color| #[trigger] final(found).door@[color_index(c) as int] == (old(found).door@[color_index(c) as int] || tile_in(
                level,
                Tile::Door(c),
                d0 as int,
                d1 as int,
                y0 as int,
                y1 as int,
            )),
            t.keys == keys_touched(self.items@, x0 as int, x1 as int, y0 as int, y1 as int, self.items@.len()),
            t.switches == switches_touched(
                self.items@,
                self.switch_bit@,
                x0 as int,
                x1 as int,
                y0 as int,
                y1 as int,
                self.items@.len(),
            ),
    {
        let n = self.items.len();
        let mut hit: Vec<bool> = Vec::new();
        let mut i: usize = 0;
        while i < n
            invariant
                n == self.items@.len(),
                i <= n,
                hit@.len() == i,
                forall|j: int| 0 <= j < i ==> !hit@[j],
            decreases n - i,
        {
            hit.push(false);
            i = i + 1;
        }
        let ghost found0 = *found;
        let mut ty: i64 = y0 as i64;
        while ty <= y1 as i64
            invariant
                self.wf(),
                level.wf(),
                n == self.items@.len(),
                y0 <= ty <= y1 + 1 || ty == y0,
                hit@.len() == n,
                found.item@ == found0.item@,
                found.door@.len() == 4,
                forall|j: int|
                    0 <= j < n ==> #[trigger] hit@[j] == touches_item(self.items@, j, x0 as int, x1 as int, y0 as int, ty - 1),
                found.exit == (found0.exit || tile_in(level, Tile::Exit, x0 as int, x1 as int, y0 as int, ty - 1)),
                forall|c: Color| #[trigger] found.door@[color_index(c) as int] == (found0.door@[color_index(c) as int] || tile_in(
                    level,
                    Tile::Door(c),
                    d0 as int,
                    d1 as int,
                    y0 as int,
                    ty - 1,
                )),
            decreases y1 + 1 - ty,
        {
            let ghost hit0 = hit@;
            let ghost exit0 = found.exit;
            let ghost door0 = found.door@;
            let exit_here = self.mark_row(level, ty as i32, x0, x1, &mut hit);
            doors_in_row(level, ty as i32, d0, d1, &mut found.door);
            found.exit = found.exit || exit_here;
            proof {
                assert forall|j: int| 0 <= j < n implies #[trigger] hit@[j] == touches_item(self.items@, j, x0 as int, x1 as int, y0 as int, ty as int) by {
                    assert(hit0[j] == touches_item(self.items@, j, x0 as int, x1 as int, y0 as int, ty - 1));
                }
                lemma_tile_in_rows(level, Tile::Exit, x0 as int, x1 as int, y0 as int, ty as int);
                assert forall|c: Color| #[trigger] found.door@[color_index(c) as int] == (found0.door@[color_index(c) as int] || tile_in(
                    level,
                    Tile::Door(c),
                    d0 as int,
                    d1 as int,
                    y0 as int,
                    ty as int,
                )) by {
                    assert(door0[color_index(c) as int] == (found0.door@[color_index(c) as int] || tile_in(level, Tile::Door(c), d0 as int, d1 as int, y0 as int, ty - 1)));
                    lemma_tile_in_rows(level, Tile::Door(c), d0 as int, d1 as int, y0 as int, ty as int);
                }
            }
            ty = ty + 1;
        }
        proof {
            assert forall|j: int| 0 <= j < n implies #[trigger] hit@[j] == touches_item(self.items@, j, x0 as int, x1 as int, y0 as int, y1 as int) by {
                assert(hit@[j] == touches_item(self.items@, j, x0 as int, x1 as int, y0 as int, ty - 1));
            }
            if y1 < y0 {
                if tile_in(level, Tile::Exit, x0 as int, x1 as int, y0 as int, y1 as int) {
                    let (a, b) = choose|a: int, b: int| x0 <= a <= x1 && y0 <= b <= y1 && #[trigger] level.tile(a, b) == Some(Tile::Exit);
                }
                assert forall|c: Color| !tile_in(level, Tile::Door(c), d0 as int, d1 as int, y0 as int, y1 as int) by {
                    if tile_in(level, Tile::Door(c), d0 as int, d1 as int, y0 as int, y1 as int) {
                        let (a, b) = choose|a: int, b: int| d0 <= a <= d1 && y0 <= b <= y1 && #[trigger] level.tile(a, b) == Some(Tile::Door(c));
                    }
                }
                assert forall|c: Color| !tile_in(level, Tile::Door(c), d0 as int, d1 as int, y0 as int, ty - 1) by {
                    if tile_in(level, Tile::Door(c), d0 as int, d1 as int, y0 as int, ty - 1) {
                        let (a, b) = choose|a: int, b: int| d0 <= a <= d1 && y0 <= b <= ty - 1 && #[trigger] level.tile(a, b) == Some(Tile::Door(c));
                    }
                }
                if tile_in(level, Tile::Exit, x0 as int, x1 as int, y0 as int, ty - 1) {
                    let (a, b) = choose|a: int, b: int| x0 <= a <= x1 && y0 <= b <= ty - 1 && #[trigger] level.tile(a, b) == Some(Tile::Exit);
                }
            }
        }
        let ghost door1 = found.door@;
        let ghost exit1 = found.exit;
        let mut keys: u8 = 0;
        let mut switches: u32 = 0;
        let mut k: usize = 0;
        while k < n
            invariant
                self.wf(),
                n == self.items@.len(),
                k <= n,
                hit@.len() == n,
                found.item@.len() == n,
                found.door@.len() == 4,
                forall|j: int|
                    0 <= j < n ==> #[trigger] hit@[j] == touches_item(self.items@, j, x0 as int, x1 as int, y0 as int, y1 as int),
                forall|j: int|
                    0 <= j < n ==> #[trigger] found.item@[j] == (found0.item@[j] || (j < k && hit@[j])),
                found.door@ == door1,
                found.exit == exit1,
                keys == keys_touched(self.items@, x0 as int, x1 as int, y0 as int, y1 as int, k as nat),
                switches == switches_touched(self.items@, self.switch_bit@, x0 as int, x1 as int, y0 as int, y1 as int, k as nat),
            decreases n - k,
        {
            if hit[k] {
                found.item.set(k, true);
                match self.items[k].kind {
                    SpawnKind::Key(c) => {
                        keys = Keys(keys).with(c).0;
                    },
                    SpawnKind::Switch => {
                        switches = switches | self.switch_bit[k];
                    },
                    _ => {},
                }
            }
            k = k + 1;
        }
        Touched { keys, switches }
    }
}

/// A span of rows y0..=ty holds the tile exactly when rows y0..=ty-1 or row ty hold it.
proof fn lemma_tile_in_rows(level: &Level, t: Tile, x0: int, x1: int, y0: int, ty: int)
    requires
        y0 <= ty,
    ensures
        tile_in(level, t, x0, x1, y0, ty) == (tile_in(level, t, x0, x1, y0, ty - 1) || tile_in(level, t, x0, x1, ty, ty)),
{
    if tile_in(level, t, x0, x1, y0, ty) {
        let (a, b) = choose|a: int, b: int| x0 <= a <= x1 && y0 <= b <= ty && #[trigger] level.tile(a, b) == Some(t);
        if b < ty {
            assert(x0 <= a <= x1 && y0 <= b <= ty - 1 && level.tile(a, b) == Some(t));
        } else {
            assert(x0 <= a <= x1 && ty <= b <= ty && level.tile(a, b) == Some(t));
        }
    }
    if tile_in(level, t, x0, x1, y0, ty - 1) {
        let (a, b) = choose|a: int, b: int| x0 <= a <= x1 && y0 <= b <= ty - 1 && #[trigger] level.tile(a, b) == Some(t);
        assert(x0 <= a <= x1 && y0 <= b <= ty && level.tile(a, b) == Some(t));
    }
    if tile_in(level, t, x0, x1, ty, ty) {
        let (a, b) = choose|a: int, b: int| x0 <= a <= x1 && ty <= b <= ty && #[trigger] level.tile(a, b) == Some(t);
        assert(x0 <= a <= x1 && y0 <= b <= ty && level.tile(a, b) == Some(t));
    }
}


impl State {
    /// The state after a move that lands at (col, feet) having touched `t`: keys and pressed
    /// switches are kept and gain what was touched.
    pub fn after(&self, col: i32, feet: i32, t: Touched) -> (next: State)
        ensures
            next == (State { col, feet, keys: self.keys | t.keys, switches: self.switches | t.switches }),
    {
        State { col, feet, keys: self.keys | t.keys, switches: self.switches | t.switches }
    }
}

/// Along a move nothing is lost: every key held and every switch pressed before is still held
/// and pressed after.
pub proof fn lemma_moves_keep_progress(st: State, col: i32, feet: i32, t: Touched)
    ensures
        (st.keys | t.keys) & st.keys == st.keys,
        (st.switches | t.switches) & st.switches == st.switches,
{
    let (a, b, c, d) = (st.keys, t.keys, st.switches, t.switches);
    assert((a | b) & a == a) by (bit_vector);
    assert((c | d) & c == c) by (bit_vector);
}

/// Whether the tile under a hero's feet at column `c` carries him: solid for his keys, or
/// outside the level.
pub open spec fn ground_at(level: &Level, keys: Keys, c: int, feet: int) -> bool {
    match level.tile(c, feet) {
        Some(t) => tile_solid(t, keys),
        None => true,
    }
}

/// The standing column of a hero whose feet rest on row `feet` and whose box starts in column
/// `c0`, reaching into `c0 + 1` when `straddles`: of the columns with ground under them the
/// nearer one (`right_nearer` says whether `c0 + 1` is strictly nearer), else `c0`.
pub open spec fn standing_col(level: &Level, keys: Keys, c0: i32, feet: i32, straddles: bool, right_nearer: bool) -> int {
    let left = ground_at(level, keys, c0 as int, feet as int);
    let right = straddles && ground_at(level, keys, c0 + 1, feet as int);
    if right && (!left || right_nearer) {
        c0 + 1
    } else {
        c0 as int
    }
}

/// The column part of the nearest tile-aligned standing position.
pub fn node_col(level: &Level, keys: Keys, c0: i32, feet: i32, straddles: bool, right_nearer: bool) -> (c: i32)
    requires
        level.wf(),
        c0 < i32::MAX,
    ensures
        c == standing_col(level, keys, c0, feet, straddles, right_nearer),
{
    let left = match level.get(c0, feet) {
        Some(t) => t.is_solid(keys),
        None => true,
    };
    let right = straddles && match level.get(c0 + 1, feet) {
        Some(t) => t.is_solid(keys),
        None => true,
    };
    if right && (!left || right_nearer) {
        c0 + 1
    } else {
        c0
    }
}

/// The number of switches in the level.
pub fn switch_total(level: &Level) -> (n: usize)
    ensures
        n == switch_count(level.spawns@),
{
    let m = level.spawns.len();
    let mut n: usize = 0;
    let mut i: usize = 0;
    proof {
        assert(level.spawns@.take(0) =~= Seq::<Spawn>::empty());
    }
    while i < m
        invariant
            m == level.spawns@.len(),
            i <= m,
            n == switch_count(level.spawns@.take(i as int)),
            n <= i,
        decreases m - i,
    {
        proof {
            assert(level.spawns@.take(i + 1).drop_last() =~= level.spawns@.take(i as int));
        }
        if level.spawns[i].kind == SpawnKind::Switch {
            n = n + 1;
        }
        i = i + 1;
    }
    proof {
        assert(level.spawns@.take(m as int) =~= level.spawns@);
    }
    n
}

/// The level has a crate or a cracked wall.
pub open spec fn breakable_in(g: Seq<Tile>) -> bool {
    exists|i: int| 0 <= i < g.len() && (#[trigger] g[i] is Crate || g[i] is Cracked)
}

/// Whether the level has a crate or a cracked wall, so a second search is worth it.
pub fn has_breakables(level: &Level) -> (b: bool)
    ensures
        b == breakable_in(level.grid()),
{
    let n = level.tiles.len();
    let mut i: usize = 0;
    while i < n
        invariant
            n == level.grid().len(),
            i <= n,
            forall|j: int| 0 <= j < i ==> !(#[trigger] level.grid()[j] is Crate || level.grid()[j] is Cracked),
        decreases n - i,
    {
        match level.tiles[i] {
            Tile::Crate | Tile::Cracked => {
                return true;
            },
            _ => {},
        }
        i = i + 1;
    }
    false
}

/// An outcome fits the level's items.
pub open spec fn fits(o: Outcome, items: Seq<Spawn>) -> bool {
    o.found.item@.len() == items.len() && o.found.door@.len() == 4
}

/// The errors of a level both searches ran on.
pub open spec fn report_errors(level: &Level, strict: Outcome, loose: Outcome) -> Seq<Seq<char>> {
    key_errors(items_of(level.spawns@), strict.found.item@, loose.found.item@, items_of(level.spawns@).len())
        + door_errors(level, items_of(level.spawns@), strict.found.door@, loose.found.door@, 4)
        + switch_errors(items_of(level.spawns@), strict.found.item@, loose.found.item@, items_of(level.spawns@).len())
        + exit_errors(
        level,
        items_of(level.spawns@),
        strict.found.item@,
        strict.found.exit,
        loose.found.exit,
        missing_key(level, items_of(level.spawns@)),
    ) + secret_errors(items_of(level.spawns@), strict.found.item@, loose.found.item@, items_of(level.spawns@).len())
}

/// The info of a level both searches ran on.
pub open spec fn report_info(level: &Level, strict: Outcome, loose: Outcome) -> Seq<Seq<char>> {
    secret_infos(items_of(level.spawns@), strict.found.item@, loose.found.item@, items_of(level.spawns@).len())
        + pickup_infos(items_of(level.spawns@), strict.found.item@, loose.found.item@, SpawnKind::Gem, "gem"@)
        + pickup_infos(
        items_of(level.spawns@),
        strict.found.item@,
        loose.found.item@,
        SpawnKind::Health,
        "health pickup"@,
    ) + seq![decimal(strict.reachable as nat) + " standing positions reachable"@]
}

/// The one error when the level has more switches than the search state holds.
pub open spec fn switch_limit_error(n: nat) -> Seq<char> {
    "the level has "@ + decimal(n) + " switches, the validator handles "@ + decimal(MAX_SWITCHES as nat)
}

/// The one error when the hero never lands from the start.
pub open spec fn start_error(level: &Level) -> Seq<char> {
    "the player start ("@ + at_text(level.player.0 as nat, level.player.1 as nat) + ") is not above solid ground"@
}

/// The report: too many switches; or a start in the air (no strict outcome); or the findings of
/// the strict search, with the loose search (breakables removed) telling what breaking opens.
/// Without a loose outcome the strict one stands in for it.
pub open spec fn checked(level: &Level, strict: Option<Outcome>, loose: Option<Outcome>) -> (Seq<Seq<char>>, Seq<Seq<char>>) {
    if switch_count(level.spawns@) > MAX_SWITCHES {
        (seq![switch_limit_error(switch_count(level.spawns@))], seq![])
    } else {
        match strict {
            None => (seq![start_error(level)], seq![]),
            Some(s) => {
                let l = match loose {
                    Some(l) => l,
                    None => s,
                };
                (report_errors(level, s, l), report_info(level, s, l))
            },
        }
    }
}

/// Positions that fit stay fitting among the items.
proof fn lemma_items_fit(s: Seq<Spawn>)
    requires
        positions_fit(s),
    ensures
        positions_fit(items_of(s)),
    decreases s.len(),
{
    if s.len() > 0 {
        assert(positions_fit(s.drop_last())) by {
            assert forall|i: int| 0 <= i < s.drop_last().len() implies #[trigger] s.drop_last()[i].x < usize::MAX && s.drop_last()[i].y < usize::MAX by {
                assert(s.drop_last()[i] == s[i]);
            }
        }
        lemma_items_fit(s.drop_last());
        let p = items_of(s.drop_last());
        if is_item(s.last()) {
            assert forall|i: int| 0 <= i < p.push(s.last()).len() implies #[trigger] p.push(s.last())[i].x < usize::MAX && p.push(s.last())[i].y < usize::MAX by {
                if i < p.len() {
                    assert(p.push(s.last())[i] == p[i]);
                }
            }
        }
    }
}

/// Builds the report of a level from the outcomes of its two searches: the strict one (None if
/// the hero never lands from the start) and the one with breakables removed (None if it was
/// not run, as when the level has no breakables).
pub fn check(level: &Level, strict: Option<Outcome>, loose: Option<Outcome>) -> (r: Report)
    requires
        level.wf(),
        positions_fit(level.spawns@),
        strict is None ==> level.player.0 < usize::MAX && level.player.1 < usize::MAX,
        strict matches Some(o) ==> fits(o, items_of(level.spawns@)),
        loose matches Some(o) ==> fits(o, items_of(level.spawns@)),
    ensures
        texts(r.errors@) == checked(level, strict, loose).0,
        texts(r.info@) == checked(level, strict, loose).1,
{
    let mut errors: Vec<String> = Vec::new();
    let mut info: Vec<String> = Vec::new();
    let switches = switch_total(level);
    if switches > MAX_SWITCHES {
        let mut e = String::new();
        e.append("the level has ");
        push_decimal(&mut e, switches);
        e.append(" switches, the validator handles ");
        push_decimal(&mut e, MAX_SWITCHES);
        errors.push(e);
        proof {
            assert(texts(errors@) =~= seq![switch_limit_error(switch_count(level.spawns@))]);
            assert(texts(info@) =~= seq![]);
        }
        return Report { errors, info };
    }
    let strict = match strict {
        None => {
            let mut e = String::new();
            e.append("the player start (");
            let a = at(level.player.0, level.player.1);
            e.append(a.as_str());
            e.append(") is not above solid ground");
            errors.push(e);
            proof {
                assert(texts(errors@) =~= seq![start_error(level)]);
                assert(texts(info@) =~= seq![]);
            }
            return Report { errors, info };
        },
        Some(o) => o,
    };
    let loose_ref: &Outcome = match &loose {
        Some(o) => o,
        None => &strict,
    };
    let (items, _) = Checker::items(level);
    proof {
        lemma_items_fit(level.spawns@);
        assert(texts(errors@) =~= seq![]);
        assert(texts(info@) =~= seq![]);
    }
    item_errors(&mut errors, &items, &strict.found.item, &loose_ref.found.item, false);
    let missing = door_errors_of(&mut errors, level, &items, &strict.found.door, &loose_ref.found.door);
    item_errors(&mut errors, &items, &strict.found.item, &loose_ref.found.item, true);
    exit_errors_of(&mut errors, level, &items, &strict.found.item, strict.found.exit, loose_ref.found.exit, missing);
    secrets_of(&mut errors, &mut info, &items, &strict.found.item, &loose_ref.found.item);
    pickup_infos_of(&mut info, &items, &strict.found.item, &loose_ref.found.item, SpawnKind::Gem, "gem");
    pickup_infos_of(&mut info, &items, &strict.found.item, &loose_ref.found.item, SpawnKind::Health, "health pickup");
    let mut last = String::new();
    push_decimal(&mut last, strict.reachable);
    last.append(" standing positions reachable");
    let ghost before = texts(info@);
    info.push(last);
    proof {
        assert(texts(info@) =~= before.push(last@));
        assert(texts(errors@) =~= report_errors(level, strict, *loose_ref));
        assert(texts(info@) =~= report_info(level, strict, *loose_ref));
    }
    Report { errors, info }
}


/// With no switch pressed the search sees the level with every gate closed.
pub proof fn lemma_nothing_pressed_is_base(
    g: Seq<Tile>,
    w: int,
    h: int,
    links: Seq<Link>,
    items: Seq<Spawn>,
    bits: Seq<u32>,
    k: nat,
)
    ensures
        pressed_grid(g, w, h, links, items, bits, 0, k) == g,
    decreases k,
{
    if k > 0 {
        lemma_nothing_pressed_is_base(g, w, h, links, items, bits, (k - 1) as nat);
        let b = bits[k - 1];
        assert(b & 0u32 == 0u32) by (bit_vector);
    }
}


/// Whether tile `t` lies in columns x0..=x1 of row `ty`.
fn tile_in_row(level: &Level, t: Tile, x0: i32, x1: i32, ty: i32) -> (b: bool)
    requires
        level.wf(),
    ensures
        b == tile_in(level, t, x0 as int, x1 as int, ty as int, ty as int),
{
    let mut tx: i64 = x0 as i64;
    while tx <= x1 as i64
        invariant
            level.wf(),
            x0 <= tx <= x1 + 1 || tx == x0,
            !tile_in(level, t, x0 as int, tx - 1, ty as int, ty as int),
        decreases x1 + 1 - tx,
    {
        if level.get(tx as i32, ty) == Some(t) {
            assert(level.tile(tx as int, ty as int) == Some(t));
            return true;
        }
        proof {
            if tile_in(level, t, x0 as int, tx as int, ty as int, ty as int) {
                let (a, b) = choose|a: int, b: int| x0 <= a <= tx && ty <= b <= ty && #[trigger] level.tile(a, b) == Some(t);
                assert(x0 <= a <= tx - 1 && level.tile(a, b) == Some(t));
            }
        }
        tx = tx + 1;
    }
    proof {
        if tile_in(level, t, x0 as int, x1 as int, ty as int, ty as int) {
            let (a, b) = choose|a: int, b: int| x0 <= a <= x1 && ty <= b <= ty && #[trigger] level.tile(a, b) == Some(t);
            assert(x0 <= a <= tx - 1 && level.tile(a, b) == Some(t));
        }
    }
    false
}

/// Whether tile `t` lies anywhere in columns x0..=x1 of rows y0..=y1: the hero's box reaching
/// the exit, for one.
pub fn tile_in_span(level: &Level, t: Tile, x0: i32, x1: i32, y0: i32, y1: i32) -> (b: bool)
    requires
        level.wf(),
    ensures
        b == tile_in(level, t, x0 as int, x1 as int, y0 as int, y1 as int),
{
    let mut ty: i64 = y0 as i64;
    while ty <= y1 as i64
        invariant
            level.wf(),
            y0 <= ty <= y1 + 1 || ty == y0,
            !tile_in(level, t, x0 as int, x1 as int, y0 as int, ty - 1),
        decreases y1 + 1 - ty,
    {
        proof {
            lemma_tile_in_rows(level, t, x0 as int, x1 as int, y0 as int, ty as int);
        }
        if tile_in_row(level, t, x0, x1, ty as i32) {
            return true;
        }
        ty = ty + 1;
    }
    proof {
        if tile_in(level, t, x0 as int, x1 as int, y0 as int, y1 as int) {
            let (a, b) = choose|a: int, b: int| x0 <= a <= x1 && y0 <= b <= y1 && #[trigger] level.tile(a, b) == Some(t);
            assert(x0 <= a <= x1 && y0 <= b <= ty - 1 && level.tile(a, b) == Some(t));
        }
    }
    false
}

} // verus!
