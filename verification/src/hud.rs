//! The heads-up display: health, score, keys and secrets on the top row, the hint or the controls
//! and the frame rate on the bottom row, a banner across the middle.
use vstd::prelude::*;
use vstd::string::StringSliceAdditionalSpecFns;

use crate::game::MAX_HP;
use crate::level::{Color, Keys, holds};
use crate::render::{Cell, Rgb, Screen, hex, hex_rgb, text_cells};
use crate::text::{decimal, push_decimal};
use crate::tiles::{key_color, key_color_hex};

verus! {

/// One drawing step on the screen.
pub enum Paint {
    /// Row `row` filled with spaces on `bg`.
    Fill { row: int, bg: Rgb },
    /// `s` written from column `col` of row `row`, clipped at the right edge.
    Text { col: int, row: int, s: Seq<char>, fg: Rgb, bg: Rgb },
}

/// The cells of a `cols`-wide screen after the step `p`.
pub open spec fn painted(cells: Seq<Cell>, cols: int, p: Paint) -> Seq<Cell> {
    match p {
        Paint::Fill { row, bg } => Seq::new(
            cells.len(),
            |i: int|
                if row * cols <= i < (row + 1) * cols {
                    Cell { ch: ' ', fg: bg, bg }
                } else {
                    cells[i]
                },
        ),
        Paint::Text { col, row, s, fg, bg } => Seq::new(
            cells.len(),
            |i: int| text_cells(cells, row * cols, col, cols, s.len() as int, s, fg, bg, i),
        ),
    }
}

/// The cells after the steps `ps`, in order.
pub open spec fn paint_all(cells: Seq<Cell>, cols: int, ps: Seq<Paint>) -> Seq<Cell>
    decreases ps.len(),
{
    if ps.len() == 0 {
        cells
    } else {
        painted(paint_all(cells, cols, ps.drop_last()), cols, ps.last())
    }
}

proof fn lemma_paint_one_more(cells: Seq<Cell>, cols: int, ps: Seq<Paint>, p: Paint)
    ensures
        paint_all(cells, cols, ps.push(p)) == painted(paint_all(cells, cols, ps), cols, p),
{
    assert(ps.push(p).drop_last() =~= ps);
}

fn fill(s: &mut Screen, row: usize, bg: Rgb)
    requires
        old(s).wf(),
        row < old(s).rows,
    ensures
        final(s).wf(),
        final(s).same_frame(old(s)),
        final(s).cells@ == painted(old(s).cells@, old(s).cols as int, Paint::Fill { row: row as int, bg }),
{
    s.fill_row(row, bg);
    assert(s.cells@ =~= painted(old(s).cells@, old(s).cols as int, Paint::Fill { row: row as int, bg }));
}

fn write(s: &mut Screen, col: usize, row: usize, t: &str, fg: Rgb, bg: Rgb) -> (next: usize)
    requires
        old(s).wf(),
        col + t@.len() <= usize::MAX,
        row < old(s).rows,
    ensures
        final(s).wf(),
        final(s).same_frame(old(s)),
        next == col + t@.len(),
        final(s).cells@ == painted(
            old(s).cells@,
            old(s).cols as int,
            Paint::Text { col: col as int, row: row as int, s: t@, fg, bg },
        ),
{
    let next = s.text(col, row, t, fg, bg);
    assert(s.cells@ =~= painted(
        old(s).cells@,
        old(s).cols as int,
        Paint::Text { col: col as int, row: row as int, s: t@, fg, bg },
    ));
    next
}

/// The hero's and the level's numbers that the HUD shows.
#[derive(Clone, Copy, PartialEq, Eq, Debug, Structural)]
pub struct Status {
    pub hp: i32,
    pub score: u32,
    pub keys: Keys,
    pub secrets_found: u32,
    pub secrets_total: u32,
}

pub open spec fn label_color() -> Rgb {
    hex_rgb(0x8b93a7)
}

pub open spec fn hud_bg() -> Rgb {
    hex_rgb(0x0c0e14)
}

pub open spec fn off_color() -> Rgb {
    hex_rgb(0x3a3f50)
}

pub open spec fn accent_color() -> Rgb {
    hex_rgb(0xe8a33d)
}

/// `n` zeros.
pub open spec fn zeros(n: nat) -> Seq<char> {
    Seq::new(n, |i: int| '0')
}

/// `n` in decimal, padded with zeros to at least six digits.
pub open spec fn six_digits(n: nat) -> Seq<char> {
    if decimal(n).len() < 6 {
        zeros((6 - decimal(n).len()) as nat) + decimal(n)
    } else {
        decimal(n)
    }
}

/// The health marks: a full block per point, filled red up to the hero's health.
pub open spec fn health_marks(hp: i32, col: int, k: nat) -> Seq<Paint>
    decreases k,
{
    if k == 0 {
        seq![]
    } else {
        health_marks(hp, col, (k - 1) as nat).push(
            Paint::Text {
                col: col + 2 * (k - 1),
                row: 0,
                s: "█ "@,
                fg: if (k - 1) < hp {
                    hex_rgb(0xe23b3b)
                } else {
                    off_color()
                },
                bg: hud_bg(),
            },
        )
    }
}

/// The key marks of the first `k` colors: a block in the key's color if held, else a dot.
pub open spec fn key_marks(keys: Keys, col: int, k: nat) -> Seq<Paint>
    decreases k,
{
    if k == 0 {
        seq![]
    } else {
        key_marks(keys, col, (k - 1) as nat).push(
            Paint::Text {
                col: col + 2 * (k - 1),
                row: 0,
                s: if holds(keys, crate::report::color_at(k - 1)) {
                    "█ "@
                } else {
                    "· "@
                },
                fg: if holds(keys, crate::report::color_at(k - 1)) {
                    hex_rgb(key_color_hex(crate::report::color_at(k - 1)))
                } else {
                    off_color()
                },
                bg: hud_bg(),
            },
        )
    }
}

/// The top row after its fill: health, score, keys, and the secrets if the level has any.
pub open spec fn top_paints(st: Status) -> Seq<Paint> {
    seq![Paint::Text { col: 1, row: 0, s: "HEALTH "@, fg: label_color(), bg: hud_bg() }] + health_marks(st.hp, 8, 4) + seq![
        Paint::Text { col: 16, row: 0, s: "  SCORE "@, fg: label_color(), bg: hud_bg() },
        Paint::Text { col: 24, row: 0, s: six_digits(st.score as nat), fg: accent_color(), bg: hud_bg() },
        Paint::Text {
            col: 24 + six_digits(st.score as nat).len() as int,
            row: 0,
            s: "   KEYS "@,
            fg: label_color(),
            bg: hud_bg(),
        },
    ] + key_marks(st.keys, 32 + six_digits(st.score as nat).len() as int, 4) + if st.secrets_total > 0 {
        seq![
            Paint::Text {
                col: 40 + six_digits(st.score as nat).len() as int,
                row: 0,
                s: "  SECRETS "@,
                fg: label_color(),
                bg: hud_bg(),
            },
            Paint::Text {
                col: 50 + six_digits(st.score as nat).len() as int,
                row: 0,
                s: decimal(st.secrets_found as nat) + "/"@ + decimal(st.secrets_total as nat),
                fg: accent_color(),
                bg: hud_bg(),
            },
        ]
    } else {
        seq![]
    }
}

/// Every step of the HUD, in order: both rows filled, the top row, the level name right-aligned,
/// the hint (or the controls) and the frame rate on the bottom row, and the banner if any.
pub open spec fn hud_paints(
    st: Status,
    name: Seq<char>,
    hint: Option<Seq<char>>,
    banner: Option<(Seq<char>, nat, Rgb)>,
    fps: u32,
    cols: int,
    rows: int,
) -> Seq<Paint> {
    seq![Paint::Fill { row: 0, bg: hud_bg() }, Paint::Fill { row: rows - 1, bg: hud_bg() }] + top_paints(st) + seq![
        Paint::Text { col: cols - (name.len() + 2), row: 0, s: name + "  "@, fg: label_color(), bg: hud_bg() },
        match hint {
            Some(t) => Paint::Text { col: 1, row: rows - 1, s: t, fg: accent_color(), bg: hud_bg() },
            None => Paint::Text {
                col: 0,
                row: rows - 1,
                s: " ← → move   Z jump   X fire   Esc quit"@,
                fg: label_color(),
                bg: hud_bg(),
            },
        },
        Paint::Text {
            col: cols - (decimal(fps as nat).len() + 5),
            row: rows - 1,
            s: decimal(fps as nat) + " fps "@,
            fg: hex_rgb(0x4d5468),
            bg: hud_bg(),
        },
    ] + match banner {
        Some((t, bytes, color)) => seq![
            Paint::Text {
                col: (cols - (bytes + 4)) / 2,
                row: rows / 2 - 1,
                s: "  "@ + t + "  "@,
                fg: color,
                bg: hud_bg(),
            },
        ],
        None => seq![],
    }
}


/// The hint as text.
pub open spec fn hint_view(hint: Option<&str>) -> Option<Seq<char>> {
    match hint {
        Some(t) => Some(t@),
        None => None,
    }
}

/// The banner as text, its length in bytes, and its color.
pub open spec fn banner_view(banner: Option<(&str, Rgb)>) -> Option<(Seq<char>, nat, Rgb)> {
    match banner {
        Some((t, c)) => Some((t@, t.spec_bytes().len(), c)),
        None => None,
    }
}

/// 10 to the power `k`.
pub open spec fn ten_to(k: nat) -> nat
    decreases k,
{
    if k == 0 {
        1
    } else {
        10 * ten_to((k - 1) as nat)
    }
}

proof fn lemma_decimal_short(n: nat, k: nat)
    requires
        1 <= k,
        n < ten_to(k),
    ensures
        decimal(n).len() <= k,
    decreases k,
{
    if n >= 10 {
        if k == 1 {
            reveal_with_fuel(ten_to, 2);
            assert(ten_to(1) == 10);
        } else {
            let t = ten_to((k - 1) as nat);
            assert(n / 10 < t) by (nonlinear_arith)
                requires
                    n < 10 * t,
            ;
            lemma_decimal_short(n / 10, (k - 1) as nat);
        }
    }
}

/// A `u32` has at most ten digits, so its six-digit form too.
proof fn lemma_six_digits_short(n: u32)
    ensures
        decimal(n as nat).len() <= 10,
        six_digits(n as nat).len() <= 10,
{
    reveal_with_fuel(ten_to, 11);
    assert(ten_to(10) == 10000000000);
    lemma_decimal_short(n as nat, 10);
}

/// `n` in decimal, padded with zeros to at least six digits.
fn six_digits_of(n: u32) -> (s: String)
    ensures
        s@ == six_digits(n as nat),
{
    let mut d = String::new();
    push_decimal(&mut d, n as usize);
    assert(d@ =~= decimal(n as nat));
    let len = d.as_str().unicode_len();
    let mut s = String::new();
    let mut k = len;
    while k < 6
        invariant
            len == decimal(n as nat).len(),
            len <= k <= 6 || k == len,
            s@ == zeros((k - len) as nat),
        decreases 6 - k,
    {
        s.push('0');
        k = k + 1;
        assert(s@ =~= zeros((k - len) as nat));
    }
    s.append(d.as_str());
    proof {
        if len >= 6 {
            assert(s@ =~= decimal(n as nat));
        } else {
            assert(s@ =~= zeros((6 - len) as nat) + decimal(n as nat));
        }
    }
    s
}

/// Painting a list, then another, is painting both in order.
proof fn lemma_paint_concat(cells: Seq<Cell>, cols: int, a: Seq<Paint>, b: Seq<Paint>)
    ensures
        paint_all(cells, cols, a + b) == paint_all(paint_all(cells, cols, a), cols, b),
    decreases b.len(),
{
    if b.len() == 0 {
        assert(a + b =~= a);
    } else {
        lemma_paint_concat(cells, cols, a, b.drop_last());
        assert((a + b).drop_last() =~= a + b.drop_last());
    }
}

/// The top row after its fill: health, score, keys and secrets.
fn top_row(s: &mut Screen, st: Status)
    requires
        old(s).wf(),
        old(s).rows >= 1,
    ensures
        final(s).wf(),
        final(s).same_frame(old(s)),
        final(s).cells@ == paint_all(old(s).cells@, old(s).cols as int, top_paints(st)),
{
    let ghost c0 = s.cells@;
    let ghost cols = s.cols as int;
    let ghost rows = s.rows as int;
    let ghost start = *s;
    let bg = hex(0x0c0e14);
    let label = hex(0x8b93a7);
    let accent = hex(0xe8a33d);
    let off = hex(0x3a3f50);
    proof {
        reveal_strlit("HEALTH ");
        reveal_strlit("█ ");
        reveal_strlit("· ");
        reveal_strlit("  SCORE ");
        reveal_strlit("   KEYS ");
        reveal_strlit("  SECRETS ");
        reveal_strlit("/");
    }
    let mut c = write(s, 1, 0, "HEALTH ", label, bg);
    let ghost mut ps: Seq<Paint> = seq![Paint::Text { col: 1, row: 0, s: "HEALTH "@, fg: label_color(), bg: hud_bg() }];
    proof {
        lemma_paint_one_more(c0, cols, Seq::empty(), ps[0]);
        assert(Seq::<Paint>::empty().push(ps[0]) =~= ps);
    }
    let ghost before_hearts = ps;
    let mut i: i32 = 0;
    while i < MAX_HP
        invariant
            0 <= i <= MAX_HP,
            s.wf(),
            s.same_frame(&start),
            s.cols == cols,
            s.rows == rows,
            rows >= 1,
            c == 8 + 2 * i,
            "█ "@.len() == 2,
            bg == hud_bg(),
            off == off_color(),
            ps == before_hearts + health_marks(st.hp, 8, i as nat),
            s.cells@ == paint_all(c0, cols, ps),
        decreases MAX_HP - i,
    {
        let fg = if i < st.hp {
            hex(0xe23b3b)
        } else {
            off
        };
        c = write(s, c, 0, "█ ", fg, bg);
        proof {
            let p = Paint::Text { col: 8 + 2 * i, row: 0, s: "█ "@, fg, bg: hud_bg() };
            lemma_paint_one_more(c0, cols, ps, p);
            ps = ps.push(p);
            assert(ps =~= before_hearts + health_marks(st.hp, 8, (i + 1) as nat));
        }
        i = i + 1;
    }
    c = write(s, c, 0, "  SCORE ", label, bg);
    proof {
        let p = Paint::Text { col: 16, row: 0, s: "  SCORE "@, fg: label_color(), bg: hud_bg() };
        lemma_paint_one_more(c0, cols, ps, p);
        ps = ps.push(p);
    }
    let score = six_digits_of(st.score);
    proof {
        lemma_six_digits_short(st.score);
    }
    c = write(s, c, 0, score.as_str(), accent, bg);
    proof {
        let p = Paint::Text { col: 24, row: 0, s: six_digits(st.score as nat), fg: accent_color(), bg: hud_bg() };
        lemma_paint_one_more(c0, cols, ps, p);
        ps = ps.push(p);
    }
    c = write(s, c, 0, "   KEYS ", label, bg);
    proof {
        let p = Paint::Text { col: 24 + six_digits(st.score as nat).len() as int, row: 0, s: "   KEYS "@, fg: label_color(), bg: hud_bg() };
        lemma_paint_one_more(c0, cols, ps, p);
        ps = ps.push(p);
    }
    let ghost before_keys = ps;
    let ghost key_col = 32 + six_digits(st.score as nat).len() as int;
    let all = Color::ALL;
    let mut k: usize = 0;
    while k < 4
        invariant
            0 <= k <= 4,
            all@ == seq![Color::Red, Color::Green, Color::Blue, Color::Yellow],
            s.wf(),
            s.same_frame(&start),
            s.cols == cols,
            s.rows == rows,
            rows >= 1,
            c == key_col + 2 * k,
            key_col == 32 + six_digits(st.score as nat).len() as int,
            six_digits(st.score as nat).len() <= 10,
            "█ "@.len() == 2,
            "· "@.len() == 2,
            bg == hud_bg(),
            off == off_color(),
            ps == before_keys + key_marks(st.keys, key_col, k as nat),
            s.cells@ == paint_all(c0, cols, ps),
        decreases 4 - k,
    {
        let color = all[k];
        assert(color == crate::report::color_at(k as int));
        let has = st.keys.has(color);
        let mark = if has {
            "█ "
        } else {
            "· "
        };
        let fg = if has {
            key_color(color)
        } else {
            off
        };
        c = write(s, c, 0, mark, fg, bg);
        proof {
            let p = Paint::Text { col: key_col + 2 * k, row: 0, s: mark@, fg, bg: hud_bg() };
            lemma_paint_one_more(c0, cols, ps, p);
            ps = ps.push(p);
            assert(ps =~= before_keys + key_marks(st.keys, key_col, (k + 1) as nat));
        }
        k = k + 1;
    }
    if st.secrets_total > 0 {
        c = write(s, c, 0, "  SECRETS ", label, bg);
        proof {
            let p = Paint::Text { col: 40 + six_digits(st.score as nat).len() as int, row: 0, s: "  SECRETS "@, fg: label_color(), bg: hud_bg() };
            lemma_paint_one_more(c0, cols, ps, p);
            ps = ps.push(p);
            lemma_six_digits_short(st.secrets_found);
            lemma_six_digits_short(st.secrets_total);
        }
        let mut t = String::new();
        push_decimal(&mut t, st.secrets_found as usize);
        t.append("/");
        push_decimal(&mut t, st.secrets_total as usize);
        write(s, c, 0, t.as_str(), accent, bg);
        proof {
            let p = Paint::Text {
                col: 50 + six_digits(st.score as nat).len() as int,
                row: 0,
                s: decimal(st.secrets_found as nat) + "/"@ + decimal(st.secrets_total as nat),
                fg: accent_color(),
                bg: hud_bg(),
            };
            assert(t@ =~= decimal(st.secrets_found as nat) + "/"@ + decimal(st.secrets_total as nat));
            lemma_paint_one_more(c0, cols, ps, p);
            ps = ps.push(p);
        }
    }
    proof {
        assert(ps =~= top_paints(st));
    }
}

/// HUD on the top row, controls + fps on the bottom row, banner in the middle.
pub fn hud(s: &mut Screen, st: Status, name: &str, hint: Option<&str>, banner: Option<(&str, Rgb)>, fps: u32)
    requires
        old(s).wf(),
        old(s).rows >= 1,
        old(s).cols >= name@.len() + 2,
        old(s).cols >= decimal(fps as nat).len() + 5,
        hint matches Some(t) ==> t@.len() < usize::MAX,
        banner matches Some((t, c)) ==> old(s).rows >= 2 && old(s).cols >= t.spec_bytes().len() + 4 && t@.len() + 4
            <= usize::MAX / 2,
    ensures
        final(s).wf(),
        final(s).same_frame(old(s)),
        final(s).cells@ == paint_all(
            old(s).cells@,
            old(s).cols as int,
            hud_paints(st, name@, hint_view(hint), banner_view(banner), fps, old(s).cols as int, old(s).rows as int),
        ),
{
    let ghost c0 = s.cells@;
    let ghost cols = s.cols as int;
    let ghost rows = s.rows as int;
    let bg = hex(0x0c0e14);
    let label = hex(0x8b93a7);
    let accent = hex(0xe8a33d);
    let bottom = s.rows - 1;
    proof {
        reveal_strlit("  ");
        reveal_strlit(" fps ");
        reveal_strlit(" ← → move   Z jump   X fire   Esc quit");
    }
    fill(s, 0, bg);
    fill(s, bottom, bg);
    let ghost fills = seq![Paint::Fill { row: 0, bg: hud_bg() }, Paint::Fill { row: rows - 1, bg: hud_bg() }];
    proof {
        lemma_paint_one_more(c0, cols, Seq::empty(), fills[0]);
        assert(Seq::<Paint>::empty().push(fills[0]) =~= seq![fills[0]]);
        lemma_paint_one_more(c0, cols, seq![fills[0]], fills[1]);
        assert(seq![fills[0]].push(fills[1]) =~= fills);
    }
    let ghost c1 = s.cells@;
    top_row(s, st);
    proof {
        lemma_paint_concat(c0, cols, fills, top_paints(st));
    }
    let ghost mut ps = fills + top_paints(st);
    let mut nm = String::new();
    nm.append(name);
    nm.append("  ");
    let nl = nm.as_str().unicode_len();
    write(s, s.cols - nl, 0, nm.as_str(), label, bg);
    proof {
        let p = Paint::Text { col: cols - (name@.len() + 2), row: 0, s: name@ + "  "@, fg: label_color(), bg: hud_bg() };
        lemma_paint_one_more(c0, cols, ps, p);
        ps = ps.push(p);
    }
    match hint {
        Some(t) => {
            write(s, 1, bottom, t, accent, bg);
        },
        None => {
            write(s, 0, bottom, " ← → move   Z jump   X fire   Esc quit", label, bg);
        },
    }
    proof {
        let p = match hint_view(hint) {
            Some(t) => Paint::Text { col: 1, row: rows - 1, s: t, fg: accent_color(), bg: hud_bg() },
            None => Paint::Text {
                col: 0,
                row: rows - 1,
                s: " ← → move   Z jump   X fire   Esc quit"@,
                fg: label_color(),
                bg: hud_bg(),
            },
        };
        lemma_paint_one_more(c0, cols, ps, p);
        ps = ps.push(p);
    }
    let mut f = String::new();
    push_decimal(&mut f, fps as usize);
    f.append(" fps ");
    let fl = f.as_str().unicode_len();
    write(s, s.cols - fl, bottom, f.as_str(), hex(0x4d5468), bg);
    proof {
        let p = Paint::Text {
            col: cols - (decimal(fps as nat).len() + 5),
            row: rows - 1,
            s: decimal(fps as nat) + " fps "@,
            fg: hex_rgb(0x4d5468),
            bg: hud_bg(),
        };
        lemma_paint_one_more(c0, cols, ps, p);
        ps = ps.push(p);
    }
    match banner {
        Some((t, color)) => {
            let mut bt = String::new();
            bt.append("  ");
            bt.append(t);
            bt.append("  ");
            let bytes = t.as_bytes_vec().len() + 4;
            let col = (s.cols - bytes) / 2;
            write(s, col, s.rows / 2 - 1, bt.as_str(), color, bg);
            proof {
                let p = Paint::Text {
                    col: (cols - (t.spec_bytes().len() + 4)) / 2,
                    row: rows / 2 - 1,
                    s: "  "@ + t@ + "  "@,
                    fg: color,
                    bg: hud_bg(),
                };
                lemma_paint_one_more(c0, cols, ps, p);
                ps = ps.push(p);
            }
        },
        None => {},
    }
    proof {
        assert(ps =~= hud_paints(st, name@, hint_view(hint), banner_view(banner), fps, cols, rows));
    }
}

/// The step `p` leaves row `r` alone: it fills or writes another row, from a column inside it.
pub open spec fn spares(p: Paint, r: int) -> bool {
    match p {
        Paint::Fill { row, .. } => row != r,
        Paint::Text { col, row, .. } => row != r && col >= 0,
    }
}

proof fn lemma_painted_spares(cells: Seq<Cell>, cols: int, p: Paint, r: int, c: int)
    requires
        spares(p, r),
        0 <= c < cols,
        0 <= r * cols + c < cells.len(),
    ensures
        painted(cells, cols, p).len() == cells.len(),
        painted(cells, cols, p)[r * cols + c] == cells[r * cols + c],
{
    let i = r * cols + c;
    match p {
        Paint::Fill { row, bg } => {
            if row < r {
                assert(row * cols + cols <= r * cols) by (nonlinear_arith)
                    requires
                        row < r,
                        cols > 0,
                ;
            } else {
                assert(r * cols + cols <= row * cols) by (nonlinear_arith)
                    requires
                        r < row,
                        cols > 0,
                ;
            }
            assert((row + 1) * cols == row * cols + cols) by (nonlinear_arith);
        },
        Paint::Text { col, row, s, fg, bg } => {
            if row < r {
                assert(row * cols + cols <= r * cols) by (nonlinear_arith)
                    requires
                        row < r,
                        cols > 0,
                ;
            } else {
                assert(r * cols + cols <= row * cols) by (nonlinear_arith)
                    requires
                        r < row,
                        cols > 0,
                ;
            }
        },
    }
}

proof fn lemma_paint_all_spares(cells: Seq<Cell>, cols: int, ps: Seq<Paint>, r: int, c: int)
    requires
        forall|j: int| 0 <= j < ps.len() ==> spares(#[trigger] ps[j], r),
        0 <= c < cols,
        0 <= r * cols + c < cells.len(),
    ensures
        paint_all(cells, cols, ps).len() == cells.len(),
        paint_all(cells, cols, ps)[r * cols + c] == cells[r * cols + c],
    decreases ps.len(),
{
    if ps.len() > 0 {
        let d = ps.drop_last();
        assert forall|j: int| 0 <= j < d.len() implies spares(#[trigger] d[j], r) by {
            assert(d[j] == ps[j]);
        }
        lemma_paint_all_spares(cells, cols, d, r, c);
        assert(spares(ps[ps.len() - 1], r));
        lemma_painted_spares(paint_all(cells, cols, d), cols, ps.last(), r, c);
    }
}

proof fn lemma_marks_on_top(hp: i32, keys: Keys, col: int, k: nat, r: int)
    requires
        col >= 0,
        r != 0,
    ensures
        forall|j: int| 0 <= j < health_marks(hp, col, k).len() ==> spares(#[trigger] health_marks(hp, col, k)[j], r),
        forall|j: int| 0 <= j < key_marks(keys, col, k).len() ==> spares(#[trigger] key_marks(keys, col, k)[j], r),
    decreases k,
{
    if k > 0 {
        lemma_marks_on_top(hp, keys, col, (k - 1) as nat, r);
        let hd = health_marks(hp, col, (k - 1) as nat);
        let kd = key_marks(keys, col, (k - 1) as nat);
        assert forall|j: int| 0 <= j < health_marks(hp, col, k).len() implies spares(
            #[trigger] health_marks(hp, col, k)[j],
            r,
        ) by {
            if j < hd.len() {
                assert(health_marks(hp, col, k)[j] == hd[j]);
            }
        }
        assert forall|j: int| 0 <= j < key_marks(keys, col, k).len() implies spares(
            #[trigger] key_marks(keys, col, k)[j],
            r,
        ) by {
            if j < kd.len() {
                assert(key_marks(keys, col, k)[j] == kd[j]);
            }
        }
    }
}

/// The HUD draws only on the top row, the bottom row and, with a banner, the banner row
/// `rows / 2 - 1`: every other cell of the screen keeps what it held.
pub proof fn lemma_hud_keeps_other_rows(
    cells: Seq<Cell>,
    st: Status,
    name: Seq<char>,
    hint: Option<Seq<char>>,
    banner: Option<(Seq<char>, nat, Rgb)>,
    fps: u32,
    cols: int,
    rows: int,
    c: int,
    r: int,
)
    requires
        cells.len() == rows * cols,
        cols >= name.len() + 2,
        cols >= decimal(fps as nat).len() + 5,
        banner matches Some((t, bytes, color)) ==> cols >= bytes + 4,
        0 <= c < cols,
        0 <= r < rows,
        r != 0,
        r != rows - 1,
        banner is Some ==> r != rows / 2 - 1,
    ensures
        paint_all(cells, cols, hud_paints(st, name, hint, banner, fps, cols, rows)).len() == cells.len(),
        paint_all(cells, cols, hud_paints(st, name, hint, banner, fps, cols, rows))[r * cols + c] == cells[r
            * cols + c],
{
    let six = six_digits(st.score as nat).len() as int;
    lemma_marks_on_top(st.hp, st.keys, 8, 4, r);
    lemma_marks_on_top(st.hp, st.keys, 32 + six, 4, r);
    let ps = hud_paints(st, name, hint, banner, fps, cols, rows);
    let top = top_paints(st);
    assert forall|j: int| 0 <= j < top.len() implies spares(#[trigger] top[j], r) by {
        let a = seq![Paint::Text { col: 1, row: 0, s: "HEALTH "@, fg: label_color(), bg: hud_bg() }];
        let hm = health_marks(st.hp, 8, 4);
        let b = seq![
            Paint::Text { col: 16, row: 0, s: "  SCORE "@, fg: label_color(), bg: hud_bg() },
            Paint::Text { col: 24, row: 0, s: six_digits(st.score as nat), fg: accent_color(), bg: hud_bg() },
            Paint::Text { col: 24 + six, row: 0, s: "   KEYS "@, fg: label_color(), bg: hud_bg() },
        ];
        let km = key_marks(st.keys, 32 + six, 4);
        if j < a.len() + hm.len() + b.len() + km.len() {
            let ab = a + hm + b + km;
            assert(top[j] == ab[j]);
            if j < a.len() {
            } else if j < a.len() + hm.len() {
                assert(ab[j] == hm[j - a.len()]);
            } else if j < a.len() + hm.len() + b.len() {
                assert(ab[j] == b[j - a.len() - hm.len()]);
            } else {
                assert(ab[j] == km[j - a.len() - hm.len() - b.len()]);
            }
        }
    }
    assert forall|j: int| 0 <= j < ps.len() implies spares(#[trigger] ps[j], r) by {
        let f = seq![Paint::Fill { row: 0, bg: hud_bg() }, Paint::Fill { row: rows - 1, bg: hud_bg() }];
        if 2 <= j < 2 + top.len() {
            assert(ps[j] == top[j - 2]);
        }
    }
    assert(0 <= r * cols + c < rows * cols) by (nonlinear_arith)
        requires
            0 <= c < cols,
            0 <= r < rows,
    ;
    lemma_paint_all_spares(cells, cols, ps, r, c);
}

} // verus!
