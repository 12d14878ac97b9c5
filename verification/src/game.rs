//! The game rules that involve no motion: controls, the random source, what crates hold, what
//! pickups do, the hint row and the banners.
use vstd::prelude::*;

use crate::level::{Color, Keys, Level, Tile, cell, key_bit};
use crate::render::{Rgb, hex, hex_rgb};

verus! {

/// What the player asks for in one tick.
#[derive(Default, Clone, Copy, PartialEq, Eq, Debug, Structural)]
pub struct Controls {
    pub left: bool,
    pub right: bool,
    pub jump: bool,
    pub fire: bool,
}

/// The Park–Miller modulus, the prime 2^31 - 1.
pub const LCG_MODULUS: u64 = 2147483647;

/// The Park–Miller multiplier.
pub const LCG_MULTIPLIER: u64 = 16807;

/// Park–Miller LCG: small, seedable, reproducible.
pub struct Rng(u64);

impl Rng {
    /// The generator's state.
    pub closed spec fn state(&self) -> u64 {
        self.0
    }

    /// A generator seeded with `seed`; a zero seed would stay zero forever, so it becomes 1.
    pub fn new(seed: u64) -> (r: Rng)
        ensures
            r.state() == if seed >= 1 {
                seed
            } else {
                1
            },
    {
        Rng(if seed >= 1 {
            seed
        } else {
            1
        })
    }

    /// Steps the generator and returns its new state, the numerator of the next number in
    /// [0, 1) over the modulus.
    pub fn advance(&mut self) -> (v: u64)
        requires
            old(self).state() * LCG_MULTIPLIER <= u64::MAX,
        ensures
            final(self).state() == old(self).state() * LCG_MULTIPLIER % (LCG_MODULUS as int),
            v == final(self).state(),
    {
        self.0 = self.0 * LCG_MULTIPLIER % LCG_MODULUS;
        self.0
    }
}

/// From a state in [1, modulus) the generator steps to a state in [1, modulus) again: it never
/// falls into the zero state and can always be stepped once more.
pub proof fn lemma_advance_stays_in_range(r: Rng)
    requires
        1 <= r.state() < LCG_MODULUS,
    ensures
        r.state() * LCG_MULTIPLIER <= u64::MAX,
        1 <= r.state() * LCG_MULTIPLIER % (LCG_MODULUS as int) < LCG_MODULUS,
{
    let s = r.state() as int;
    let m = LCG_MODULUS as int;
    assert(s * 16807 <= u64::MAX) by (nonlinear_arith)
        requires
            1 <= s < 2147483647,
    ;
    lemma_lcg_product_not_multiple(s);
}

/// `16807` is invertible modulo the prime: `16807 * 1407677000 == 1 + 11017 * m`. So a product
/// `s * 16807` with 0 < s < m is never a multiple of m.
proof fn lemma_lcg_product_not_multiple(s: int)
    requires
        0 < s < 2147483647,
    ensures
        (s * 16807) % 2147483647 != 0,
{
    let m: int = 2147483647;
    let p = s * 16807;
    vstd::arithmetic::div_mod::lemma_fundamental_div_mod(p, m);
    let q = p / m;
    if p % m == 0 {
        assert(16807 * 1407677000 == 1 + 11017 * m);
        let z = q * 1407677000 - s * 11017;
        assert(s == m * z) by (nonlinear_arith)
            requires
                p == s * 16807,
                p == m * q,
                16807 * 1407677000 == 1 + 11017 * m,
                z == q * 1407677000 - s * 11017,
        ;
        assert(false) by (nonlinear_arith)
            requires
                s == m * z,
                0 < s < m,
        ;
    }
}

/// 0..=9, fixed per crate position: decides what the crate holds.
pub open spec fn crate_roll_spec(tx: i32, ty: i32) -> u32 {
    ((tx as u32).wrapping_mul(73856093u32) ^ (ty as u32).wrapping_mul(19349663u32)) % 10
}

/// 0..=9, fixed per crate position: decides what the crate holds.
pub fn crate_roll(tx: i32, ty: i32) -> (r: u32)
    ensures
        r == crate_roll_spec(tx, ty),
        r < 10,
{
    ((tx as u32).wrapping_mul(73856093) ^ (ty as u32).wrapping_mul(19349663)) % 10
}

/// What breaking a tile gives.
#[derive(Clone, Copy, PartialEq, Eq, Debug, Structural)]
pub enum Broken {
    /// The tile was no crate or cracked wall: nothing happens.
    Nothing,
    /// A cracked wall crumbled.
    Wall,
    /// A crate held a gem.
    Gem,
    /// A crate held health.
    Health,
    /// A crate held a bomb.
    Bomb,
}

/// What a crate at (tx, ty) holds: a gem (rolls 0..=4), health (5..=7) or a bomb (8, 9).
pub open spec fn crate_drop(tx: i32, ty: i32) -> Broken {
    let roll = crate_roll_spec(tx, ty);
    if roll <= 4 {
        Broken::Gem
    } else if roll <= 7 {
        Broken::Health
    } else {
        Broken::Bomb
    }
}

/// What a shot into a tile (or outside the level, None) breaks.
pub open spec fn broken_by(t: Option<Tile>, tx: i32, ty: i32) -> Broken {
    match t {
        Some(Tile::Cracked) => Broken::Wall,
        Some(Tile::Crate) => crate_drop(tx, ty),
        _ => Broken::Nothing,
    }
}

/// A shot hit the solid tile (tx, ty): crates and cracked walls break and leave an empty tile.
/// A crate drops a gem (50%), health (30%) or a bomb (20%), fixed per crate position so levels
/// stay repeatable.
pub fn break_tile(map: &mut Level, tx: i32, ty: i32) -> (b: Broken)
    requires
        old(map).wf(),
    ensures
        final(map).wf(),
        final(map).same_except_grid(old(map)),
        b == broken_by(old(map).tile(tx as int, ty as int), tx, ty),
        !(old(map).tile(tx as int, ty as int) == Some(Tile::Crate) || old(map).tile(tx as int, ty as int) == Some(
            Tile::Cracked,
        )) ==> b == Broken::Nothing && final(map).grid() == old(map).grid(),
        old(map).tile(tx as int, ty as int) == Some(Tile::Cracked) ==> b == Broken::Wall,
        old(map).tile(tx as int, ty as int) == Some(Tile::Crate) ==> (b == Broken::Gem || b == Broken::Health || b
            == Broken::Bomb),
        b != Broken::Nothing ==> final(map).tile(tx as int, ty as int) == Some(Tile::Empty),
        final(map).grid() == if b == Broken::Nothing {
            old(map).grid()
        } else {
            old(map).grid().update(cell(old(map).w as int, tx as int, ty as int), Tile::Empty)
        },
{
    let tile = map.get(tx, ty);
    match tile {
        Some(Tile::Crate) => {},
        Some(Tile::Cracked) => {},
        _ => {
            return Broken::Nothing;
        },
    }
    map.set(tx, ty, Tile::Empty);
    proof {
        crate::level::lemma_cell_in_bounds(map.w as int, map.h as int, tx as int, ty as int);
        assert(map.tile(tx as int, ty as int) == Some(Tile::Empty));
    }
    match tile {
        Some(Tile::Crate) => {
            let roll = crate_roll(tx, ty);
            if roll <= 4 {
                Broken::Gem
            } else if roll <= 7 {
                Broken::Health
            } else {
                Broken::Bomb
            }
        },
        _ => Broken::Wall,
    }
}

/// A shot breaks only crates and cracked walls: on any other tile, or outside the level, it
/// breaks nothing; a cracked wall crumbles, and a crate always drops one of its three contents.
pub proof fn lemma_only_breakables_break(t: Option<Tile>, tx: i32, ty: i32)
    ensures
        !(t == Some(Tile::Crate) || t == Some(Tile::Cracked)) ==> broken_by(t, tx, ty) == Broken::Nothing,
        t == Some(Tile::Cracked) ==> broken_by(t, tx, ty) == Broken::Wall,
        t == Some(Tile::Crate) ==> broken_by(t, tx, ty) != Broken::Nothing && broken_by(t, tx, ty)
            != Broken::Wall,
{
}

/// The hero's health when full.
pub const MAX_HP: i32 = 4;

/// A pickup lying in the level.
#[derive(Clone, Copy, PartialEq, Eq, Debug, Structural)]
pub enum Pickup {
    Key(Color),
    Health,
    Gem,
}

/// Keys, health and score after collecting `p`: a key is kept and scores 250, health heals two
/// points up to the maximum, a gem scores 100.
pub open spec fn collected(p: Pickup, keys: Keys, hp: i32, score: u32) -> (Keys, int, int) {
    match p {
        Pickup::Key(c) => (Keys(keys.0 | key_bit(c)), hp as int, score + 250),
        Pickup::Health => (keys, if hp + 2 <= MAX_HP {
            hp + 2
        } else {
            MAX_HP as int
        }, score as int),
        Pickup::Gem => (keys, hp as int, score + 100),
    }
}

/// The effect of touching a pickup on the hero's keys, health and the score.
pub fn collect(p: Pickup, keys: Keys, hp: i32, score: u32) -> (r: (Keys, i32, u32))
    requires
        hp <= i32::MAX - 2,
        p is Key ==> score + 250 <= u32::MAX,
        p is Gem ==> score + 100 <= u32::MAX,
    ensures
        r.0 == collected(p, keys, hp, score).0,
        r.1 == collected(p, keys, hp, score).1,
        r.2 == collected(p, keys, hp, score).2,
{
    match p {
        Pickup::Key(c) => (keys.with(c), hp, score + 250),
        Pickup::Health => {
            let healed = hp + 2;
            (keys, if healed <= MAX_HP {
                healed
            } else {
                MAX_HP
            }, score)
        },
        Pickup::Gem => (keys, hp, score + 100),
    }
}

/// Ticks a hint stays in the hint row after the hero leaves its globe.
pub const HINT_TICKS: u32 = 180;

/// The hint row one tick later: the text stays while ticks are left.
pub open spec fn ticked(hint: Option<(String, u32)>) -> Option<(String, u32)> {
    match hint {
        Some((t, n)) => if n > 1 {
            Some((t, (n - 1) as u32))
        } else {
            None
        },
        None => None,
    }
}

/// The hint row `k` ticks later.
pub open spec fn ticked_times(hint: Option<(String, u32)>, k: nat) -> Option<(String, u32)>
    decreases k,
{
    if k == 0 {
        hint
    } else {
        ticked(ticked_times(hint, (k - 1) as nat))
    }
}

/// One tick of the hint row: the text stays while ticks are left.
pub fn tick_hint(hint: Option<(String, u32)>) -> (r: Option<(String, u32)>)
    ensures
        r == ticked(hint),
{
    match hint {
        Some((t, n)) => {
            if n > 1 {
                Some((t, n - 1))
            } else {
                None
            }
        },
        None => None,
    }
}

/// Touching a hint globe (or finding a secret) shows `text` in the hint row for the full time,
/// keeping the text already shown when it is the same.
pub fn show_hint(hint: Option<(String, u32)>, text: &String) -> (r: Option<(String, u32)>)
    ensures
        r matches Some((t, n)) && t@ == text@ && n == HINT_TICKS,
{
    match hint {
        Some((t, _)) => {
            if t == *text {
                Some((t, HINT_TICKS))
            } else {
                Some((text.clone(), HINT_TICKS))
            }
        },
        None => Some((text.clone(), HINT_TICKS)),
    }
}

/// A message across the middle of the screen, shown for a number of ticks before the level
/// restarts.
pub struct Banner {
    pub text: &'static str,
    pub ticks: u32,
    /// Whether the score survives the restart.
    pub keep_score: bool,
    pub color: Rgb,
}

impl Banner {
    /// Shown when the hero dies; the score is lost.
    pub fn died() -> (b: Banner)
        ensures
            b.text@ == "YOU DIED"@,
            b.ticks == 110,
            !b.keep_score,
            b.color == hex_rgb(0xff4d4d),
    {
        Banner { text: "YOU DIED", ticks: 110, keep_score: false, color: hex(0xff4d4d) }
    }

    /// Shown when the hero reaches the exit; the score is kept.
    pub fn cleared() -> (b: Banner)
        ensures
            b.text@ == "LEVEL CLEAR"@,
            b.ticks == 150,
            b.keep_score,
            b.color == hex_rgb(0x3ddc84),
    {
        Banner { text: "LEVEL CLEAR", ticks: 150, keep_score: true, color: hex(0x3ddc84) }
    }

    /// One tick of the banner; true once it has run out and the level restarts.
    pub fn tick(&mut self) -> (done: bool)
        ensures
            final(self).text == old(self).text,
            final(self).keep_score == old(self).keep_score,
            final(self).color == old(self).color,
            final(self).ticks == if old(self).ticks > 0 {
                old(self).ticks - 1
            } else {
                0
            },
            done == (final(self).ticks == 0),
    {
        if self.ticks > 0 {
            self.ticks = self.ticks - 1;
        }
        self.ticks == 0
    }
}


/// Points for reaching the exit.
pub const EXIT_POINTS: u32 = 1000;

/// Points for destroying a bot.
pub const BOT_POINTS: u32 = 500;

/// Standing on the exit while no banner shows clears the level: `EXIT_POINTS` and the cleared
/// banner. With a banner already up, or off the exit, score and banner stay as they are, so the
/// points come once.
pub fn reach_exit(on_exit: bool, score: u32, banner: Option<Banner>) -> (r: (u32, Option<Banner>))
    requires
        on_exit && banner is None ==> score + EXIT_POINTS <= u32::MAX,
    ensures
        on_exit && banner is None ==> r.0 == score + EXIT_POINTS && (r.1 matches Some(b) && b.text@
            == "LEVEL CLEAR"@ && b.ticks == 150 && b.keep_score && b.color == hex_rgb(0x3ddc84)),
        !(on_exit && banner is None) ==> r == (score, banner),
{
    if on_exit && banner.is_none() {
        (score + EXIT_POINTS, Some(Banner::cleared()))
    } else {
        (score, banner)
    }
}

/// Touching a switch turns it on; it counts as pressed (its gates open) only the first time.
/// Returns the switch's new state and whether it was pressed now.
pub fn press_switch(on: bool) -> (r: (bool, bool))
    ensures
        r == (true, !on),
{
    (true, !on)
}

/// Touching a secret area: the first time it is marked found, counted, and announced in the hint
/// row; after that nothing changes. Returns (found, number found, hint row).
pub fn touch_secret(found: bool, count: u32, hint: Option<(String, u32)>) -> (r: (bool, u32, Option<(String, u32)>))
    requires
        !found ==> count < u32::MAX,
    ensures
        r.0,
        found ==> r.1 == count && r.2 == hint,
        !found ==> r.1 == count + 1 && (r.2 matches Some((t, n)) && t@ == "SECRET AREA FOUND!"@ && n
            == HINT_TICKS),
{
    if found {
        (true, count, hint)
    } else {
        let text = String::from_str("SECRET AREA FOUND!");
        (true, count + 1, show_hint(hint, &text))
    }
}

/// A bullet hits a bot that still has `hp` > 0: it loses one hit point, and when that was its
/// last the score gains `BOT_POINTS`. Returns (hit points left, score).
pub fn hit_bot(hp: i32, score: u32) -> (r: (i32, u32))
    requires
        hp > 0,
        hp == 1 ==> score + BOT_POINTS <= u32::MAX,
    ensures
        r.0 == hp - 1,
        r.1 == if hp - 1 <= 0 {
            score + BOT_POINTS
        } else {
            score as int
        },
{
    let left = hp - 1;
    if left <= 0 {
        (left, score + BOT_POINTS)
    } else {
        (left, score)
    }
}

/// A hint shown for `n` ticks stays exactly that long: after k < n ticks it still shows the same
/// text with n - k ticks left, after n ticks the row is empty.
pub proof fn lemma_hint_lasts(t: String, n: u32, k: nat)
    requires
        n >= 1,
    ensures
        ticked_times(Some((t, n)), k) == if k < n {
            Some((t, (n - k) as u32))
        } else {
            None::<(String, u32)>
        },
    decreases k,
{
    if k > 0 {
        lemma_hint_lasts(t, n, (k - 1) as nat);
    }
}

/// Health never rises above the maximum and the score never falls: collecting keeps a hero
/// with at most full health at most at full health, and the score only grows.
pub proof fn lemma_pickups_keep_bounds(p: Pickup, keys: Keys, hp: i32, score: u32)
    requires
        hp <= MAX_HP,
    ensures
        collected(p, keys, hp, score).1 <= MAX_HP,
        collected(p, keys, hp, score).2 >= score,
        collected(p, keys, hp, score).1 >= hp,
{
}

/// What breaks once breaks only once: the broken tile is empty, so a second shot into it breaks
/// nothing.
pub proof fn lemma_breaking_twice_breaks_nothing(map: Level, tx: i32, ty: i32, g: Seq<Tile>)
    requires
        map.wf(),
        broken_by(map.tile(tx as int, ty as int), tx, ty) != Broken::Nothing,
        g == map.grid().update(cell(map.w as int, tx as int, ty as int), Tile::Empty),
    ensures
        broken_by(
            if crate::level::in_grid(map.w as int, map.h as int, tx as int, ty as int) {
                Some(crate::level::grid_at(g, map.w as int, tx as int, ty as int))
            } else {
                None
            },
            tx,
            ty,
        ) == Broken::Nothing,
{
    crate::level::lemma_cell_in_bounds(map.w as int, map.h as int, tx as int, ty as int);
}

} // verus!
