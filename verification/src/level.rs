//! The level: a static tile grid plus the markers of everything that moves or can be picked up.
use vstd::prelude::*;

use crate::text::{decimal, push_decimal};

verus! {

/// Pixels per tile side.
pub const TILE: i32 = 4;

#[derive(Clone, Copy, PartialEq, Eq, Debug, Structural)]
pub enum Color {
    Red,
    Green,
    Blue,
    Yellow,
}

/// Position of a color in `Color::ALL`.
pub open spec fn color_index(c: Color) -> nat {
    match c {
        Color::Red => 0,
        Color::Green => 1,
        Color::Blue => 2,
        Color::Yellow => 3,
    }
}

/// The color's lower-case name.
pub open spec fn color_name(c: Color) -> Seq<char> {
    match c {
        Color::Red => "red"@,
        Color::Green => "green"@,
        Color::Blue => "blue"@,
        Color::Yellow => "yellow"@,
    }
}

/// The bit that a key of this color sets in `Keys`.
pub open spec fn key_bit(c: Color) -> u8 {
    match c {
        Color::Red => 1,
        Color::Green => 2,
        Color::Blue => 4,
        Color::Yellow => 8,
    }
}

impl Color {
    pub const ALL: [Color; 4] = [Color::Red, Color::Green, Color::Blue, Color::Yellow];

    pub fn name(self) -> (s: &'static str)
        ensures
            s@ == color_name(self),
    {
        match self {
            Color::Red => "red",
            Color::Green => "green",
            Color::Blue => "blue",
            Color::Yellow => "yellow",
        }
    }

    /// Position in `Color::ALL` (0 red, 1 green, 2 blue, 3 yellow).
    pub fn index(self) -> (i: usize)
        ensures
            i == color_index(self),
    {
        match self {
            Color::Red => 0,
            Color::Green => 1,
            Color::Blue => 2,
            Color::Yellow => 3,
        }
    }
}

/// The key colors the hero holds: bit `color_index(c)` set means the key of color `c` is held.
#[derive(Clone, Copy, PartialEq, Eq, Debug, Structural)]
pub struct Keys(pub u8);

pub open spec fn holds(k: Keys, c: Color) -> bool {
    k.0 & key_bit(c) != 0
}

impl Default for Keys {
    fn default() -> (k: Keys)
        ensures
            k.0 == 0,
    {
        Keys(0)
    }
}

impl Keys {
    pub fn has(self, c: Color) -> (b: bool)
        ensures
            b == holds(self, c),
    {
        let bit: u8 = match c {
            Color::Red => 1,
            Color::Green => 2,
            Color::Blue => 4,
            Color::Yellow => 8,
        };
        self.0 & bit != 0
    }

    pub fn with(self, c: Color) -> (k: Keys)
        ensures
            k.0 == self.0 | key_bit(c),
    {
        let bit: u8 = match c {
            Color::Red => 1,
            Color::Green => 2,
            Color::Blue => 4,
            Color::Yellow => 8,
        };
        Keys(self.0 | bit)
    }
}

/// Taking a key adds exactly that key: the new color is held, every other color is held
/// exactly when it was held before.
pub proof fn lemma_with_adds_one_key(k: Keys, c: Color, d: Color)
    ensures
        holds(Keys(k.0 | key_bit(c)), c),
        d != c ==> (holds(Keys(k.0 | key_bit(c)), d) == holds(k, d)),
{
    let x = k.0;
    assert((x | 1u8) & 1u8 != 0 && (x | 2u8) & 2u8 != 0 && (x | 4u8) & 4u8 != 0 && (x | 8u8) & 8u8 != 0)
        by (bit_vector);
    assert(((x | 1u8) & 2u8 != 0) == (x & 2u8 != 0) && ((x | 1u8) & 4u8 != 0) == (x & 4u8 != 0)
        && ((x | 1u8) & 8u8 != 0) == (x & 8u8 != 0)) by (bit_vector);
    assert(((x | 2u8) & 1u8 != 0) == (x & 1u8 != 0) && ((x | 2u8) & 4u8 != 0) == (x & 4u8 != 0)
        && ((x | 2u8) & 8u8 != 0) == (x & 8u8 != 0)) by (bit_vector);
    assert(((x | 4u8) & 1u8 != 0) == (x & 1u8 != 0) && ((x | 4u8) & 2u8 != 0) == (x & 2u8 != 0)
        && ((x | 4u8) & 8u8 != 0) == (x & 8u8 != 0)) by (bit_vector);
    assert(((x | 8u8) & 1u8 != 0) == (x & 1u8 != 0) && ((x | 8u8) & 2u8 != 0) == (x & 2u8 != 0)
        && ((x | 8u8) & 4u8 != 0) == (x & 4u8 != 0)) by (bit_vector);
}

#[derive(Clone, Copy, PartialEq, Eq, Debug, Structural)]
pub enum Tile {
    Empty,
    Brick,
    Girder,
    /// Solid until the hero holds the key of its color.
    Door(Color),
    Exit,
    /// Solid until its switch is pressed.
    Gate,
    /// Solid; a shot breaks it and it drops an item.
    Crate,
    /// Looks like cracked brick; a shot breaks it (secret passages).
    Cracked,
}

/// Whether a tile blocks the hero who holds `keys`.
pub open spec fn tile_solid(t: Tile, keys: Keys) -> bool {
    match t {
        Tile::Brick | Tile::Girder | Tile::Gate | Tile::Crate | Tile::Cracked => true,
        Tile::Door(c) => !holds(keys, c),
        Tile::Empty | Tile::Exit => false,
    }
}

impl Tile {
    pub fn is_solid(self, keys: Keys) -> (b: bool)
        ensures
            b == tile_solid(self, keys),
    {
        match self {
            Tile::Brick | Tile::Girder | Tile::Gate | Tile::Crate | Tile::Cracked => true,
            Tile::Door(c) => !keys.has(c),
            Tile::Empty | Tile::Exit => false,
        }
    }
}

/// What a spawn marker in the tile grid turns into at runtime.
#[derive(Clone, Copy, PartialEq, Eq, Debug, Structural)]
pub enum SpawnKind {
    Bot,
    Key(Color),
    Health,
    Gem,
    Switch,
    /// Index into `Level::hints`.
    Hint(usize),
    /// Invisible; touching it counts a secret area as found.
    Secret,
}

/// An entity marker in tile coordinates.
#[derive(Clone, Copy, PartialEq, Eq, Debug, Structural)]
pub struct Spawn {
    pub kind: SpawnKind,
    pub x: usize,
    pub y: usize,
}

/// Pressing the switch at `switch` opens the group of gate tiles that contains `gate`.
#[derive(Clone, Copy, PartialEq, Eq, Debug)]
pub struct Link {
    pub switch: (usize, usize),
    pub gate: (usize, usize),
}

/// A level as the game sees it, regardless of where it came from (text file, later a generator).
/// Tiles are the static grid; everything that moves or can be picked up is a spawn.
pub struct Level {
    pub name: String,
    pub w: usize,
    pub h: usize,
    /// The tile grid, row by row (`w * h` tiles).
    pub tiles: Vec<Tile>,
    /// Player start in tile coordinates.
    pub player: (usize, usize),
    pub spawns: Vec<Spawn>,
    pub hints: Vec<String>,
    pub links: Vec<Link>,
}

/// Whether (x, y) is a tile of a `w` x `h` grid.
pub open spec fn in_grid(w: int, h: int, x: int, y: int) -> bool {
    0 <= x < w && 0 <= y < h
}

/// Row-major position of tile (x, y) in a grid of width `w`.
pub open spec fn cell(w: int, x: int, y: int) -> int {
    y * w + x
}

/// The tile at (x, y) of the row-major grid `g` of width `w`.
pub open spec fn grid_at(g: Seq<Tile>, w: int, x: int, y: int) -> Tile {
    g[cell(w, x, y)]
}

pub proof fn lemma_cell_in_bounds(w: int, h: int, x: int, y: int)
    requires
        in_grid(w, h, x, y),
    ensures
        0 <= y * w <= cell(w, x, y) < w * h,
{
    assert(0 <= y * w) by (nonlinear_arith)
        requires
            0 <= y,
            0 <= w,
    ;
    assert(y * w + x < w * h) by (nonlinear_arith)
        requires
            0 <= x < w,
            0 <= y < h,
    ;
}

pub proof fn lemma_cell_unique(w: int, x1: int, y1: int, x2: int, y2: int)
    requires
        0 <= x1 < w,
        0 <= x2 < w,
        0 <= y1,
        0 <= y2,
        cell(w, x1, y1) == cell(w, x2, y2),
    ensures
        x1 == x2 && y1 == y2,
{
    if y1 < y2 {
        assert(y1 * w + w <= y2 * w) by (nonlinear_arith)
            requires
                y1 < y2,
                0 <= w,
        ;
    } else if y2 < y1 {
        assert(y2 * w + w <= y1 * w) by (nonlinear_arith)
            requires
                y2 < y1,
                0 <= w,
        ;
    }
}

/// `column <x + 1>, row <y + 1>`: a 0-based tile position written 1-based.
pub open spec fn at_text(x: nat, y: nat) -> Seq<char> {
    "column "@ + decimal(x + 1) + ", row "@ + decimal(y + 1)
}

/// `column <x + 1>, row <y + 1>`: a 0-based tile position as the loader's errors and the level
/// file's metadata write it.
pub fn at(x: usize, y: usize) -> (s: String)
    requires
        x < usize::MAX,
        y < usize::MAX,
    ensures
        s@ == at_text(x as nat, y as nat),
{
    let mut s = String::new();
    s.append("column ");
    push_decimal(&mut s, x + 1);
    s.append(", row ");
    push_decimal(&mut s, y + 1);
    s
}

impl Clone for Level {
    fn clone(&self) -> (c: Level)
        ensures
            c.same_except_grid(self),
            c.grid() == self.grid(),
    {
        let tiles = self.tiles.clone();
        let spawns = self.spawns.clone();
        let links = self.links.clone();
        let hints = self.hints.clone();
        proof {
            assert(tiles@ =~= self.tiles@);
            assert(spawns@ =~= self.spawns@);
            assert(links@ =~= self.links@);
            assert(hints@ =~= self.hints@);
        }
        Level {
            name: self.name.clone(),
            w: self.w,
            h: self.h,
            tiles,
            player: self.player,
            spawns,
            hints,
            links,
        }
    }
}

impl Level {
    /// The tile grid, row by row.
    pub open spec fn grid(&self) -> Seq<Tile> {
        self.tiles@
    }

    /// The grid holds exactly `w * h` tiles.
    pub open spec fn wf(&self) -> bool {
        self.grid().len() == self.w * self.h
    }

    /// The tile at (x, y), or None outside the level.
    pub open spec fn tile(&self, x: int, y: int) -> Option<Tile> {
        if in_grid(self.w as int, self.h as int, x, y) {
            Some(grid_at(self.grid(), self.w as int, x, y))
        } else {
            None
        }
    }

    /// Everything but the grid is the same in both levels.
    pub open spec fn same_except_grid(&self, other: &Level) -> bool {
        &&& self.name@ == other.name@
        &&& self.w == other.w
        &&& self.h == other.h
        &&& self.player == other.player
        &&& self.spawns@ == other.spawns@
        &&& self.hints@ == other.hints@
        &&& self.links@ == other.links@
    }

    pub fn get(&self, tx: i32, ty: i32) -> (t: Option<Tile>)
        requires
            self.wf(),
        ensures
            t == self.tile(tx as int, ty as int),
    {
        if tx < 0 || ty < 0 || tx as usize >= self.w || ty as usize >= self.h {
            return None;
        }
        let n = self.tiles.len();
        proof {
            lemma_cell_in_bounds(self.w as int, self.h as int, tx as int, ty as int);
        }
        Some(self.tiles[ty as usize * self.w + tx as usize])
    }

    pub fn set(&mut self, tx: i32, ty: i32, t: Tile)
        requires
            old(self).wf(),
        ensures
            final(self).wf(),
            final(self).same_except_grid(old(self)),
            final(self).grid() == (if in_grid(old(self).w as int, old(self).h as int, tx as int, ty as int) {
                old(self).grid().update(cell(old(self).w as int, tx as int, ty as int), t)
            } else {
                old(self).grid()
            }),
    {
        if self.get(tx, ty).is_some() {
            let n = self.tiles.len();
            proof {
                lemma_cell_in_bounds(self.w as int, self.h as int, tx as int, ty as int);
            }
            let i = ty as usize * self.w + tx as usize;
            self.tiles.set(i, t);
        }
    }

    pub fn width_px(&self) -> (px: i32)
        requires
            self.w * 4 <= i32::MAX,
        ensures
            px == self.w * 4,
    {
        self.w as i32 * TILE
    }

    pub fn height_px(&self) -> (px: i32)
        requires
            self.h * 4 <= i32::MAX,
        ensures
            px == self.h * 4,
    {
        self.h as i32 * TILE
    }
}


/// Reading a tile back gives what `set` wrote there, and every other tile is as before.
pub proof fn lemma_tile_after_set(l: Level, l2: Level, tx: int, ty: int, t: Tile, x: int, y: int)
    requires
        l.wf(),
        l2.w == l.w,
        l2.h == l.h,
        in_grid(l.w as int, l.h as int, tx, ty),
        l2.grid() == l.grid().update(cell(l.w as int, tx, ty), t),
    ensures
        l2.tile(tx, ty) == Some(t),
        (x != tx || y != ty) ==> l2.tile(x, y) == l.tile(x, y),
{
    lemma_cell_in_bounds(l.w as int, l.h as int, tx, ty);
    if in_grid(l.w as int, l.h as int, x, y) && (x != tx || y != ty) {
        lemma_cell_in_bounds(l.w as int, l.h as int, x, y);
        if cell(l.w as int, x, y) == cell(l.w as int, tx, ty) {
            lemma_cell_unique(l.w as int, x, y, tx, ty);
        }
    }
}

} // verus!
