//! Gate groups: a switch opens every gate tile connected to the linked one.
use vstd::prelude::*;

use crate::level::{Level, Link, Tile, cell, grid_at, in_grid};

verus! {

/// (x, y) is a gate tile of the grid `g` (`w` x `h`).
pub open spec fn is_gate(g: Seq<Tile>, w: int, h: int, p: (int, int)) -> bool {
    in_grid(w, h, p.0, p.1) && grid_at(g, w, p.0, p.1) == Tile::Gate
}

/// The two tiles share a side.
pub open spec fn adjacent(a: (int, int), b: (int, int)) -> bool {
    ||| a.0 == b.0 && (a.1 == b.1 + 1 || a.1 + 1 == b.1)
    ||| a.1 == b.1 && (a.0 == b.0 + 1 || a.0 + 1 == b.0)
}

pub open spec fn path_step(path: Seq<(int, int)>, i: int) -> bool {
    adjacent(path[i], path[i + 1])
}

/// A walk through gate tiles, each one next to the one before.
pub open spec fn gate_path(g: Seq<Tile>, w: int, h: int, path: Seq<(int, int)>) -> bool {
    &&& path.len() > 0
    &&& forall|i: int| 0 <= i < path.len() ==> is_gate(g, w, h, #[trigger] path[i])
    &&& forall|i: int| 0 <= i < path.len() - 1 ==> #[trigger] path_step(path, i)
}

/// `b` belongs to the group of gate tiles that contains `a`.
pub open spec fn gate_connected(g: Seq<Tile>, w: int, h: int, a: (int, int), b: (int, int)) -> bool {
    exists|path: Seq<(int, int)>|
        #[trigger] gate_path(g, w, h, path) && path[0] == a && path[path.len() - 1] == b
}

pub open spec fn pt(q: (i32, i32)) -> (int, int) {
    (q.0 as int, q.1 as int)
}

/// Some gate walk leads from a queued tile to `p`.
pub open spec fn from_queue(g: Seq<Tile>, w: int, h: int, q: Seq<(i32, i32)>, p: (int, int)) -> bool {
    exists|i: int, path: Seq<(int, int)>|
        #![trigger q[i], gate_path(g, w, h, path)]
        0 <= i < q.len() && gate_path(g, w, h, path) && path[0] == pt(q[i]) && path[path.len()
            - 1] == p
}

/// Number of gate tiles in the grid.
pub open spec fn gate_count(g: Seq<Tile>) -> nat
    decreases g.len(),
{
    if g.len() == 0 {
        0
    } else {
        gate_count(g.drop_last()) + if g.last() == Tile::Gate {
            1nat
        } else {
            0nat
        }
    }
}

proof fn lemma_gate_count_update(g: Seq<Tile>, i: int)
    requires
        0 <= i < g.len(),
        g[i] == Tile::Gate,
    ensures
        gate_count(g.update(i, Tile::Empty)) + 1 == gate_count(g),
    decreases g.len(),
{
    let u = g.update(i, Tile::Empty);
    if i == g.len() - 1 {
        assert(u.drop_last() =~= g.drop_last());
    } else {
        assert(u.drop_last() =~= g.drop_last().update(i, Tile::Empty));
        lemma_gate_count_update(g.drop_last(), i);
    }
}

/// The position of the last visit of `t` in the path.
proof fn lemma_last_visit(path: Seq<(int, int)>, t: (int, int)) -> (k: int)
    requires
        path.contains(t),
    ensures
        0 <= k < path.len(),
        path[k] == t,
        forall|j: int| k < j < path.len() ==> path[j] != t,
    decreases path.len(),
{
    if path.last() == t {
        path.len() - 1
    } else {
        let i = choose|i: int| 0 <= i < path.len() && path[i] == t;
        assert(path.drop_last()[i] == t);
        let k = lemma_last_visit(path.drop_last(), t);
        assert forall|j: int| k < j < path.len() implies path[j] != t by {
            if j < path.len() - 1 {
                assert(path[j] == path.drop_last()[j]);
            }
        }
        k
    }
}

impl Level {
    /// Opens the whole connected group of gate tiles that contains (x, y).
    pub fn open_gate(&mut self, x: usize, y: usize)
        requires
            old(self).wf(),
            old(self).w <= i32::MAX,
            old(self).h <= i32::MAX,
        ensures
            final(self).wf(),
            final(self).same_except_grid(old(self)),
            final(self).grid() == gate_opened(old(self).grid(), old(self).w as int, old(self).h as int, x, y),
            forall|tx: int, ty: int|
                in_grid(old(self).w as int, old(self).h as int, tx, ty) ==> #[trigger] grid_at(
                    final(self).grid(),
                    old(self).w as int,
                    tx,
                    ty,
                ) == if gate_connected(
                    old(self).grid(),
                    old(self).w as int,
                    old(self).h as int,
                    (x as i32 as int, y as i32 as int),
                    (tx, ty),
                ) {
                    Tile::Empty
                } else {
                    grid_at(old(self).grid(), old(self).w as int, tx, ty)
                },
    {
        let ghost g0 = self.grid();
        let ghost w = self.w as int;
        let ghost h = self.h as int;
        let ghost s = (x as i32 as int, y as i32 as int);
        let ghost at_start = *self;
        let mut pending: Vec<(i32, i32)> = Vec::new();
        pending.push((x as i32, y as i32));
        proof {
            assert forall|p: (int, int)|
                gate_connected(g0, w, h, s, p) && is_gate(g0, w, h, p) implies from_queue(g0, w, h, pending@, p) by {
                let path = choose|path: Seq<(int, int)>|
                    #[trigger] gate_path(g0, w, h, path) && path[0] == s && path[path.len() - 1]
                        == p;
                assert(pt(pending@[0]) == s);
            }
            if is_gate(g0, w, h, s) {
                let path = seq![s];
                assert(gate_path(g0, w, h, path));
            }
        }
        while pending.len() > 0
            invariant
                self.wf(),
                self.same_except_grid(&at_start),
                at_start.wf(),
                g0 == at_start.grid(),
                w == self.w,
                h == self.h,
                w <= i32::MAX,
                h <= i32::MAX,
                forall|tx: int, ty: int|
                    in_grid(w, h, tx, ty) ==> (#[trigger] grid_at(self.grid(), w, tx, ty) == grid_at(
                        g0,
                        w,
                        tx,
                        ty,
                    ) || (gate_connected(g0, w, h, s, (tx, ty)) && grid_at(self.grid(), w, tx, ty)
                        == Tile::Empty)),
                forall|i: int|
                    0 <= i < pending@.len() && is_gate(self.grid(), w, h, pt(#[trigger] pending@[i]))
                        ==> gate_connected(g0, w, h, s, pt(pending@[i])),
                forall|p: (int, int)|
                    gate_connected(g0, w, h, s, p) && is_gate(self.grid(), w, h, p) ==> from_queue(self.grid(), w, h, pending@, p),
            decreases gate_count(self.grid()), pending@.len(),
        {
            let ghost g = self.grid();
            let ghost old_pending = pending@;
            let (cx, cy) = pending.pop().unwrap();
            let ghost t = (cx as int, cy as int);
            assert(pt(old_pending[old_pending.len() - 1]) == t);
            let here = self.get(cx, cy);
            let is_gate_here = match here {
                Some(Tile::Gate) => true,
                _ => false,
            };
            if !is_gate_here {
                proof {
                    assert(!is_gate(g, w, h, t));
                    assert forall|p: (int, int)|
                        gate_connected(g0, w, h, s, p) && is_gate(g, w, h, p) implies from_queue(g, w, h, pending@, p) by {
                        let (i, path) = choose|i: int, path: Seq<(int, int)>|
                            #![trigger old_pending[i], gate_path(g, w, h, path)]
                            0 <= i < old_pending.len() && gate_path(g, w, h, path)
                                && path[0] == pt(old_pending[i]) && path[path.len() - 1] == p;
                        assert(is_gate(g, w, h, path[0]));
                        assert(i < old_pending.len() - 1);
                        assert(pending@[i] == old_pending[i]);
                    }
                    assert forall|i: int|
                        0 <= i < pending@.len() && is_gate(self.grid(), w, h, pt(#[trigger] pending@[i]))
                            implies gate_connected(g0, w, h, s, pt(pending@[i])) by {
                        assert(pending@[i] == old_pending[i]);
                    }
                }
            } else {
                proof {
                    lemma_cell_bounds_i32(w, h, cx as int, cy as int);
                }
                self.set(cx, cy, Tile::Empty);
                let ghost g1 = self.grid();
                proof {
                    crate::level::lemma_cell_in_bounds(w, h, t.0, t.1);
                    lemma_gate_count_update(g, cell(w, t.0, t.1));
                    assert(gate_connected(g0, w, h, s, t));
                }
                let ghost mid = pending@;
                pending.push((cx + 1, cy));
                pending.push((cx - 1, cy));
                pending.push((cx, cy + 1));
                pending.push((cx, cy - 1));
                proof {
                    let n = mid.len() as int;
                    assert(pt(pending@[n]) == (t.0 + 1, t.1));
                    assert(pt(pending@[n + 1]) == (t.0 - 1, t.1));
                    assert(pt(pending@[n + 2]) == (t.0, t.1 + 1));
                    assert(pt(pending@[n + 3]) == (t.0, t.1 - 1));
                    // Only the popped tile changed.
                    assert forall|q: (int, int)| q != t && in_grid(w, h, q.0, q.1) implies grid_at(
                        g1,
                        w,
                        q.0,
                        q.1,
                    ) == grid_at(g, w, q.0, q.1) by {
                        crate::level::lemma_cell_in_bounds(w, h, q.0, q.1);
                        if cell(w, q.0, q.1) == cell(w, t.0, t.1) {
                            crate::level::lemma_cell_unique(w, q.0, q.1, t.0, t.1);
                        }
                    }
                    assert(grid_at(g1, w, t.0, t.1) == Tile::Empty);
                    // What the tiles look like now.
                    assert forall|tx: int, ty: int| in_grid(w, h, tx, ty) implies (#[trigger] grid_at(
                        g1,
                        w,
                        tx,
                        ty,
                    ) == grid_at(g0, w, tx, ty) || (gate_connected(g0, w, h, s, (tx, ty))
                        && grid_at(g1, w, tx, ty) == Tile::Empty)) by {
                        if (tx, ty) != t {
                            crate::level::lemma_cell_in_bounds(w, h, tx, ty);
                            if cell(w, tx, ty) == cell(w, t.0, t.1) {
                                crate::level::lemma_cell_unique(w, tx, ty, t.0, t.1);
                            }
                            assert(grid_at(g1, w, tx, ty) == grid_at(g, w, tx, ty));
                        }
                    }
                    // Every queued gate tile belongs to the group.
                    assert forall|i: int|
                        0 <= i < pending@.len() && is_gate(g1, w, h, pt(#[trigger] pending@[i]))
                            implies gate_connected(g0, w, h, s, pt(pending@[i])) by {
                        let q = pt(pending@[i]);
                        if i < n {
                            assert(pending@[i] == old_pending[i]);
                            assert(q != t);
                            assert(is_gate(g, w, h, q));
                        } else {
                            assert(adjacent(t, q));
                            assert(q != t);
                            assert(is_gate(g, w, h, q));
                            // A gate tile now is an untouched gate tile of the grid before opening.
                            assert(grid_at(g, w, q.0, q.1) == grid_at(g0, w, q.0, q.1));
                            let path = choose|path: Seq<(int, int)>|
                                #[trigger] gate_path(g0, w, h, path) && path[0] == s && path[path.len()
                                    - 1] == t;
                            let longer = path.push(q);
                            assert(path_step(longer, path.len() - 1));
                            assert forall|j: int| 0 <= j < longer.len() - 1 implies #[trigger] path_step(
                                longer,
                                j,
                            ) by {
                                if j < path.len() - 1 {
                                    assert(path_step(path, j));
                                }
                            }
                            assert(gate_path(g0, w, h, longer));
                        }
                    }
                    // Every gate tile of the group is still reachable from a queued tile.
                    assert forall|p: (int, int)|
                        gate_connected(g0, w, h, s, p) && is_gate(g1, w, h, p) implies from_queue(g1, w, h, pending@, p) by {
                        assert(p != t);
                        assert(is_gate(g, w, h, p));
                        let (i, path) = choose|i: int, path: Seq<(int, int)>|
                            #![trigger old_pending[i], gate_path(g, w, h, path)]
                            0 <= i < old_pending.len() && gate_path(g, w, h, path)
                                && path[0] == pt(old_pending[i]) && path[path.len() - 1] == p;
                        if path.contains(t) {
                            let k = lemma_last_visit(path, t);
                            let rest = path.subrange(k + 1, path.len() as int);
                            assert(path_step(path, k));
                            let q = rest[0];
                            assert(adjacent(t, q));
                            let j: int = if q == (t.0 + 1, t.1) {
                                n
                            } else if q == (t.0 - 1, t.1) {
                                n + 1
                            } else if q == (t.0, t.1 + 1) {
                                n + 2
                            } else {
                                n + 3
                            };
                            assert(pt(pending@[j]) == q);
                            assert forall|m: int| 0 <= m < rest.len() implies is_gate(
                                g1,
                                w,
                                h,
                                #[trigger] rest[m],
                            ) by {
                                assert(rest[m] == path[k + 1 + m]);
                                assert(is_gate(g, w, h, path[k + 1 + m]));
                            }
                            assert forall|m: int| 0 <= m < rest.len() - 1 implies #[trigger] path_step(
                                rest,
                                m,
                            ) by {
                                assert(path_step(path, k + 1 + m));
                            }
                            assert(gate_path(g1, w, h, rest));
                        } else {
                            assert(is_gate(g, w, h, path[0]));
                            assert(i < n) by {
                                if i == n {
                                    assert(path[0] == t);
                                }
                            }
                            assert(pending@[i] == old_pending[i]);
                            assert forall|m: int| 0 <= m < path.len() implies is_gate(
                                g1,
                                w,
                                h,
                                #[trigger] path[m],
                            ) by {
                                assert(path[m] != t);
                                assert(is_gate(g, w, h, path[m]));
                            }
                            assert(gate_path(g1, w, h, path));
                        }
                    }
                }
            }
        }
        proof {
            assert forall|tx: int, ty: int| in_grid(w, h, tx, ty) implies #[trigger] grid_at(
                self.grid(),
                w,
                tx,
                ty,
            ) == if gate_connected(g0, w, h, s, (tx, ty)) {
                Tile::Empty
            } else {
                grid_at(g0, w, tx, ty)
            } by {
                if gate_connected(g0, w, h, s, (tx, ty)) {
                    let path = choose|path: Seq<(int, int)>|
                        #[trigger] gate_path(g0, w, h, path) && path[0] == s && path[path.len() - 1]
                            == (tx, ty);
                    assert(is_gate(g0, w, h, path[path.len() - 1]));
                    if is_gate(self.grid(), w, h, (tx, ty)) {
                        assert(false);
                    }
                }
            }
            lemma_open_gate_grid(g0, self.grid(), w, h, x, y);
        }
    }
}

proof fn lemma_cell_bounds_i32(w: int, h: int, x: int, y: int)
    requires
        in_grid(w, h, x, y),
        w <= i32::MAX,
        h <= i32::MAX,
    ensures
        x + 1 <= i32::MAX,
        y + 1 <= i32::MAX,
{
}


/// The grid `g` (`w` x `h`) with the whole gate group containing (x, y) opened.
pub open spec fn gate_opened(g: Seq<Tile>, w: int, h: int, x: usize, y: usize) -> Seq<Tile> {
    Seq::new(
        g.len(),
        |i: int|
            if gate_connected(g, w, h, (x as i32 as int, y as i32 as int), (i % w, i / w)) {
                Tile::Empty
            } else {
                g[i]
            },
    )
}

/// The grid once the switch at `sw` is pressed: every gate group that one of `links` ties to
/// this switch is open, the links taken in turn.
pub open spec fn links_opened(g: Seq<Tile>, w: int, h: int, links: Seq<Link>, sw: (usize, usize)) -> Seq<Tile>
    decreases links.len(),
{
    if links.len() == 0 {
        g
    } else {
        let before = links_opened(g, w, h, links.drop_last(), sw);
        if links.last().switch == sw {
            gate_opened(before, w, h, links.last().gate.0, links.last().gate.1)
        } else {
            before
        }
    }
}

/// Gate walks of a grid stay gate walks in a grid that has the same tiles or empty ones.
proof fn lemma_connected_before_opening(g: Seq<Tile>, g2: Seq<Tile>, w: int, h: int, a: (int, int), b: (int, int))
    requires
        w >= 0,
        h >= 0,
        g.len() == w * h,
        g2.len() == g.len(),
        forall|i: int| 0 <= i < g.len() ==> g2[i] == g[i] || g2[i] == Tile::Empty,
        gate_connected(g2, w, h, a, b),
    ensures
        gate_connected(g, w, h, a, b),
{
    let path = choose|path: Seq<(int, int)>| #[trigger] gate_path(g2, w, h, path) && path[0] == a && path[path.len() - 1] == b;
    assert forall|k: int| 0 <= k < path.len() implies is_gate(g, w, h, #[trigger] path[k]) by {
        assert(is_gate(g2, w, h, path[k]));
        crate::level::lemma_cell_in_bounds(w, h, path[k].0, path[k].1);
    }
    assert(gate_path(g, w, h, path));
}

/// Pressing the switch at `sw` only opens gates: every tile stays or becomes empty. A tile that
/// becomes empty lies in a gate group linked to the switch at `sw`, matched on column
/// and row. Gate groups linked only to other switches keep their tiles.
pub proof fn lemma_press_opens_only_linked_gates(g: Seq<Tile>, w: int, h: int, links: Seq<Link>, sw: (usize, usize))
    requires
        w >= 0,
        h >= 0,
        g.len() == w * h,
    ensures
        links_opened(g, w, h, links, sw).len() == g.len(),
        forall|i: int|
            0 <= i < g.len() ==> #[trigger] links_opened(g, w, h, links, sw)[i] == g[i] || links_opened(
                g,
                w,
                h,
                links,
                sw,
            )[i] == Tile::Empty,
        forall|i: int|
            0 <= i < g.len() && #[trigger] links_opened(g, w, h, links, sw)[i] != g[i] ==> exists|j: int|
                0 <= j < links.len() && (#[trigger] links[j]).switch.0 == sw.0 && links[j].switch.1 == sw.1
                    && gate_connected(
                    g,
                    w,
                    h,
                    (links[j].gate.0 as i32 as int, links[j].gate.1 as i32 as int),
                    (i % w, i / w),
                ),
    decreases links.len(),
{
    if links.len() > 0 {
        let d = links.drop_last();
        lemma_press_opens_only_linked_gates(g, w, h, d, sw);
        let before = links_opened(g, w, h, d, sw);
        let after = links_opened(g, w, h, links, sw);
        let l = links.last();
        assert forall|i: int| 0 <= i < g.len() && #[trigger] after[i] != g[i] implies exists|j: int|
            0 <= j < links.len() && (#[trigger] links[j]).switch.0 == sw.0 && links[j].switch.1 == sw.1
                && gate_connected(
                g,
                w,
                h,
                (links[j].gate.0 as i32 as int, links[j].gate.1 as i32 as int),
                (i % w, i / w),
            ) by {
            if before[i] != g[i] {
                let j = choose|j: int|
                    0 <= j < d.len() && (#[trigger] d[j]).switch.0 == sw.0 && d[j].switch.1 == sw.1
                        && gate_connected(
                        g,
                        w,
                        h,
                        (d[j].gate.0 as i32 as int, d[j].gate.1 as i32 as int),
                        (i % w, i / w),
                    );
                assert(links[j] == d[j]);
            } else {
                assert(l.switch == sw);
                let a = (l.gate.0 as i32 as int, l.gate.1 as i32 as int);
                assert(gate_connected(before, w, h, a, (i % w, i / w)));
                lemma_connected_before_opening(g, before, w, h, a, (i % w, i / w));
                assert(links[links.len() - 1] == l);
            }
        }
    }
}

/// Pressing the switch at `sw` opens every gate linked to it: no linked gate tile inside the
/// grid is a gate afterwards.
pub proof fn lemma_press_opens_linked_gates(g: Seq<Tile>, w: int, h: int, links: Seq<Link>, sw: (usize, usize))
    requires
        w >= 0,
        h >= 0,
        w <= i32::MAX,
        h <= i32::MAX,
        g.len() == w * h,
    ensures
        forall|j: int|
            0 <= j < links.len() && (#[trigger] links[j]).switch.0 == sw.0 && links[j].switch.1 == sw.1 && in_grid(
                w,
                h,
                links[j].gate.0 as int,
                links[j].gate.1 as int,
            ) ==> links_opened(g, w, h, links, sw)[cell(w, links[j].gate.0 as int, links[j].gate.1 as int)]
                != Tile::Gate,
    decreases links.len(),
{
    if links.len() > 0 {
        let d = links.drop_last();
        lemma_press_opens_linked_gates(g, w, h, d, sw);
        lemma_press_opens_only_linked_gates(g, w, h, d, sw);
        let before = links_opened(g, w, h, d, sw);
        let after = links_opened(g, w, h, links, sw);
        let l = links.last();
        assert forall|j: int|
            0 <= j < links.len() && (#[trigger] links[j]).switch.0 == sw.0 && links[j].switch.1 == sw.1 && in_grid(
                w,
                h,
                links[j].gate.0 as int,
                links[j].gate.1 as int,
            ) implies after[cell(w, links[j].gate.0 as int, links[j].gate.1 as int)] != Tile::Gate by {
            let k = cell(w, links[j].gate.0 as int, links[j].gate.1 as int);
            crate::level::lemma_cell_in_bounds(w, h, links[j].gate.0 as int, links[j].gate.1 as int);
            if l.switch == sw {
                let a = (l.gate.0 as i32 as int, l.gate.1 as i32 as int);
                if j == links.len() - 1 {
                    assert(a == (l.gate.0 as int, l.gate.1 as int));
                    vstd::arithmetic::div_mod::lemma_fundamental_div_mod_converse(
                        k,
                        w,
                        l.gate.1 as int,
                        l.gate.0 as int,
                    );
                    if before[k] == Tile::Gate {
                        let path = seq![a];
                        assert(is_gate(before, w, h, path[0]));
                        assert(gate_path(before, w, h, path));
                        assert(gate_connected(before, w, h, a, (k % w, k / w)));
                    }
                } else {
                    assert(links[j] == d[j]);
                }
            } else {
                assert(links[j] == d[j]);
                assert(j != links.len() - 1);
            }
        }
    }
}

impl Level {
    /// Presses the switch at `switch`: every gate group linked to it opens.
    pub fn open_linked_gates(&mut self, switch: (usize, usize))
        requires
            old(self).wf(),
            old(self).w <= i32::MAX,
            old(self).h <= i32::MAX,
        ensures
            final(self).wf(),
            final(self).same_except_grid(old(self)),
            final(self).grid() == links_opened(
                old(self).grid(),
                old(self).w as int,
                old(self).h as int,
                old(self).links@,
                switch,
            ),
            forall|i: int|
                0 <= i < old(self).grid().len() && #[trigger] final(self).grid()[i] != old(self).grid()[i]
                    ==> final(self).grid()[i] == Tile::Empty && exists|j: int|
                    0 <= j < old(self).links@.len() && (#[trigger] old(self).links@[j]).switch.0 == switch.0
                        && old(self).links@[j].switch.1 == switch.1 && gate_connected(
                        old(self).grid(),
                        old(self).w as int,
                        old(self).h as int,
                        (old(self).links@[j].gate.0 as i32 as int, old(self).links@[j].gate.1 as i32 as int),
                        (i % (old(self).w as int), i / (old(self).w as int)),
                    ),
            forall|j: int|
                0 <= j < old(self).links@.len() && (#[trigger] old(self).links@[j]).switch.0 == switch.0
                    && old(self).links@[j].switch.1 == switch.1 && in_grid(
                    old(self).w as int,
                    old(self).h as int,
                    old(self).links@[j].gate.0 as int,
                    old(self).links@[j].gate.1 as int,
                ) ==> final(self).tile(old(self).links@[j].gate.0 as int, old(self).links@[j].gate.1 as int)
                    != Some(Tile::Gate),
    {
        let ghost at_start = *self;
        let ghost w = self.w as int;
        let ghost h = self.h as int;
        let n = self.links.len();
        let mut i: usize = 0;
        proof {
            assert(at_start.links@.take(0) =~= Seq::<Link>::empty());
        }
        while i < n
            invariant
                i <= n == at_start.links@.len(),
                self.wf(),
                self.same_except_grid(&at_start),
                w == self.w,
                h == self.h,
                w <= i32::MAX,
                h <= i32::MAX,
                self.grid() == links_opened(at_start.grid(), w, h, at_start.links@.take(i as int), switch),
            decreases n - i,
        {
            let link = self.links[i];
            proof {
                assert(at_start.links@.take(i + 1).drop_last() =~= at_start.links@.take(i as int));
                assert(at_start.links@.take(i + 1).last() == link);
            }
            if link.switch.0 == switch.0 && link.switch.1 == switch.1 {
                let ghost g = self.grid();
                self.open_gate(link.gate.0, link.gate.1);
                proof {
                    lemma_open_gate_grid(g, self.grid(), w, h, link.gate.0, link.gate.1);
                }
            }
            i = i + 1;
        }
        proof {
            assert(at_start.links@.take(n as int) =~= at_start.links@);
            lemma_press_opens_only_linked_gates(at_start.grid(), w, h, at_start.links@, switch);
            lemma_press_opens_linked_gates(at_start.grid(), w, h, at_start.links@, switch);
        }
    }
}

/// What `open_gate` states tile by tile, as a whole grid.
proof fn lemma_open_gate_grid(g: Seq<Tile>, g2: Seq<Tile>, w: int, h: int, x: usize, y: usize)
    requires
        g.len() == w * h,
        g2.len() == w * h,
        w >= 0,
        h >= 0,
        forall|tx: int, ty: int|
            in_grid(w, h, tx, ty) ==> #[trigger] grid_at(g2, w, tx, ty) == if gate_connected(
                g,
                w,
                h,
                (x as i32 as int, y as i32 as int),
                (tx, ty),
            ) {
                Tile::Empty
            } else {
                grid_at(g, w, tx, ty)
            },
    ensures
        g2 == gate_opened(g, w, h, x, y),
{
    assert forall|i: int| 0 <= i < g.len() implies g2[i] == gate_opened(g, w, h, x, y)[i] by {
        let tx = i % w;
        let ty = i / w;
        if w <= 0 {
            assert(w * h == 0) by (nonlinear_arith)
                requires
                    w <= 0,
                    w >= 0,
            ;
        }
        vstd::arithmetic::div_mod::lemma_fundamental_div_mod(i, w);
        vstd::arithmetic::div_mod::lemma_mod_bound(i, w);
        assert(ty < h) by (nonlinear_arith)
            requires
                i == w * ty + tx,
                0 <= tx,
                i < w * h,
                w > 0,
        ;
        assert(0 <= ty) by (nonlinear_arith)
            requires
                i == w * ty + tx,
                tx < w,
                i >= 0,
                w > 0,
        ;
        assert(cell(w, tx, ty) == i) by (nonlinear_arith)
            requires
                i == w * ty + tx,
        ;
        assert(grid_at(g2, w, tx, ty) == g2[i]);
    }
    assert(g2 =~= gate_opened(g, w, h, x, y));
}


/// Opening from a tile that is no gate changes nothing.
proof fn lemma_open_non_gate(g: Seq<Tile>, w: int, h: int, x: usize, y: usize)
    requires
        !is_gate(g, w, h, (x as i32 as int, y as i32 as int)),
    ensures
        gate_opened(g, w, h, x, y) == g,
{
    let s = (x as i32 as int, y as i32 as int);
    assert forall|i: int| 0 <= i < g.len() implies gate_opened(g, w, h, x, y)[i] == g[i] by {
        if gate_connected(g, w, h, s, (i % w, i / w)) {
            let path = choose|path: Seq<(int, int)>|
                #[trigger] gate_path(g, w, h, path) && path[0] == s && path[path.len() - 1] == (i % w, i / w);
            assert(is_gate(g, w, h, path[0]));
        }
    }
    assert(gate_opened(g, w, h, x, y) =~= g);
}

/// Pressing a switch twice is the same as pressing it once: a gate group, once open, stays as
/// it is when opened again. `Level::open_gate` leaves the grid `gate_opened`, so a second call
/// on the same tile changes nothing.
pub proof fn lemma_open_gate_twice(g: Seq<Tile>, w: int, h: int, x: usize, y: usize)
    requires
        g.len() == w * h,
        w >= 0,
        h >= 0,
    ensures
        gate_opened(gate_opened(g, w, h, x, y), w, h, x, y) == gate_opened(g, w, h, x, y),
{
    let s = (x as i32 as int, y as i32 as int);
    if !is_gate(g, w, h, s) {
        lemma_open_non_gate(g, w, h, x, y);
        lemma_open_non_gate(g, w, h, x, y);
    } else {
        let g1 = gate_opened(g, w, h, x, y);
        let k = cell(w, s.0, s.1);
        crate::level::lemma_cell_in_bounds(w, h, s.0, s.1);
        assert(k == s.1 * w + s.0) by (nonlinear_arith)
            requires
                k == cell(w, s.0, s.1),
        ;
        vstd::arithmetic::div_mod::lemma_fundamental_div_mod_converse(k, w, s.1, s.0);
        let path = seq![s];
        assert(gate_path(g, w, h, path));
        assert(gate_connected(g, w, h, s, (k % w, k / w)));
        assert(g1[k] == Tile::Empty);
        assert(!is_gate(g1, w, h, s));
        lemma_open_non_gate(g1, w, h, x, y);
    }
}

} // verus!
