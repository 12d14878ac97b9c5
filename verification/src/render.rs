//! Pixels and terminal cells: a framebuffer, and a grid of half-block cells that is written out
//! as escape sequences, only where it changed.
use vstd::prelude::*;
use vstd::utf8::encode_scalar;

use crate::text::{decimal, digit_char};

verus! {

#[derive(Clone, Copy, PartialEq, Eq, Debug, Structural)]
pub struct Rgb(pub u8, pub u8, pub u8);

impl Default for Rgb {
    fn default() -> (c: Rgb)
        ensures
            c == Rgb(0, 0, 0),
    {
        Rgb(0, 0, 0)
    }
}

/// The color `0xRRGGBB`.
pub open spec fn hex_rgb(n: u32) -> Rgb {
    Rgb((n >> 16u32) as u8, (n >> 8u32) as u8, n as u8)
}

pub fn hex(n: u32) -> (c: Rgb)
    ensures
        c == hex_rgb(n),
{
    Rgb((n >> 16) as u8, (n >> 8) as u8, n as u8)
}

/// RGB pixel buffer, row by row. Two pixel rows map onto one terminal row.
pub struct Framebuffer {
    pub w: usize,
    pub h: usize,
    pub px: Vec<Rgb>,
}

impl Framebuffer {
    /// The buffer holds exactly `w * h` pixels.
    pub open spec fn wf(&self) -> bool {
        self.px@.len() == self.w * self.h
    }

    /// The pixel at (x, y).
    pub open spec fn pixel(&self, x: int, y: int) -> Rgb {
        self.px@[y * self.w + x]
    }

    /// An all-black buffer.
    pub fn new(w: usize, h: usize) -> (fb: Self)
        requires
            w * h <= usize::MAX,
        ensures
            fb.wf(),
            fb.w == w,
            fb.h == h,
            forall|i: int| 0 <= i < w * h ==> fb.px@[i] == Rgb(0, 0, 0),
    {
        let n = w * h;
        let mut px: Vec<Rgb> = Vec::new();
        let mut i: usize = 0;
        while i < n
            invariant
                i <= n,
                px@.len() == i,
                forall|j: int| 0 <= j < i ==> px@[j] == Rgb(0, 0, 0),
            decreases n - i,
        {
            px.push(Rgb(0, 0, 0));
            i = i + 1;
        }
        Self { w, h, px }
    }

    /// Clipped write, for sprites that may be partly off screen.
    pub fn put(&mut self, x: i32, y: i32, c: Rgb)
        requires
            old(self).wf(),
        ensures
            final(self).wf(),
            final(self).w == old(self).w,
            final(self).h == old(self).h,
            final(self).px@ == (if 0 <= x < old(self).w && 0 <= y < old(self).h {
                old(self).px@.update(y * old(self).w + x, c)
            } else {
                old(self).px@
            }),
    {
        if x >= 0 && y >= 0 && (x as usize) < self.w && (y as usize) < self.h {
            let n = self.px.len();
            proof {
                crate::level::lemma_cell_in_bounds(self.w as int, self.h as int, x as int, y as int);
            }
            self.px.set(y as usize * self.w + x as usize, c);
        }
    }

    pub fn get(&self, x: usize, y: usize) -> (c: Rgb)
        requires
            self.wf(),
            x < self.w,
            y < self.h,
        ensures
            c == self.pixel(x as int, y as int),
    {
        let n = self.px.len();
        proof {
            crate::level::lemma_cell_in_bounds(self.w as int, self.h as int, x as int, y as int);
        }
        self.px[y * self.w + x]
    }
}

/// Reading a pixel back gives what `put` wrote there; every other pixel keeps its color.
pub proof fn lemma_pixel_after_put(fb: Framebuffer, fb2: Framebuffer, x: int, y: int, c: Rgb, px: int, py: int)
    requires
        fb.wf(),
        fb2.w == fb.w,
        0 <= x < fb.w,
        0 <= y < fb.h,
        fb2.px@ == fb.px@.update(y * fb.w + x, c),
        0 <= px < fb.w,
        0 <= py < fb.h,
    ensures
        fb2.pixel(x, y) == c,
        (px != x || py != y) ==> fb2.pixel(px, py) == fb.pixel(px, py),
{
    crate::level::lemma_cell_in_bounds(fb.w as int, fb.h as int, x, y);
    crate::level::lemma_cell_in_bounds(fb.w as int, fb.h as int, px, py);
    if (px != x || py != y) && py * fb.w + px == y * fb.w + x {
        crate::level::lemma_cell_unique(fb.w as int, px, py, x, y);
    }
}

/// One terminal cell: a character with its text and background colors.
#[derive(Clone, Copy, PartialEq, Eq, Debug, Structural)]
pub struct Cell {
    pub ch: char,
    pub fg: Rgb,
    pub bg: Rgb,
}

pub open spec fn blank() -> Cell {
    Cell { ch: ' ', fg: Rgb(0, 0, 0), bg: Rgb(0, 0, 0) }
}

/// Grid of terminal cells. `flush` writes only the cells that changed since the last flush.
pub struct Screen {
    pub cols: usize,
    pub rows: usize,
    /// What the next flush shows, row by row.
    pub cells: Vec<Cell>,
    /// What the terminal shows since the last flush.
    pub prev: Vec<Cell>,
    /// The next flush redraws every cell.
    pub full: bool,
    /// Bytes of the last flush.
    pub out: Vec<u8>,
}

impl Screen {
    /// Both cell grids hold `cols * rows` cells.
    pub open spec fn wf(&self) -> bool {
        &&& self.cells@.len() == self.cols * self.rows
        &&& self.prev@.len() == self.cols * self.rows
    }

    pub fn new(cols: usize, rows: usize) -> (s: Self)
        requires
            cols * rows <= usize::MAX,
        ensures
            s.wf(),
            s.cols == cols,
            s.rows == rows,
            s.full,
            forall|i: int| 0 <= i < cols * rows ==> s.cells@[i] == blank() && s.prev@[i] == blank(),
    {
        let n = cols * rows;
        let blank = Cell { ch: ' ', fg: Rgb(0, 0, 0), bg: Rgb(0, 0, 0) };
        let mut cells: Vec<Cell> = Vec::new();
        let mut prev: Vec<Cell> = Vec::new();
        let mut i: usize = 0;
        while i < n
            invariant
                i <= n,
                cells@.len() == i,
                prev@.len() == i,
                blank == crate::render::blank(),
                forall|j: int| 0 <= j < i ==> cells@[j] == blank && prev@[j] == blank,
            decreases n - i,
        {
            cells.push(blank);
            prev.push(blank);
            i = i + 1;
        }
        Self { cols, rows, cells, prev, full: true, out: Vec::new() }
    }

    /// Everything but the cells to show is the same in both screens.
    pub open spec fn same_frame(&self, other: &Screen) -> bool {
        &&& self.cols == other.cols
        &&& self.rows == other.rows
        &&& self.prev@ == other.prev@
        &&& self.full == other.full
        &&& self.out@ == other.out@
    }

    /// Paints row `row` with spaces on `bg`.
    pub fn fill_row(&mut self, row: usize, bg: Rgb)
        requires
            old(self).wf(),
            row < old(self).rows,
        ensures
            final(self).wf(),
            final(self).same_frame(old(self)),
            forall|i: int|
                0 <= i < old(self).cells@.len() ==> #[trigger] final(self).cells@[i] == if row
                    * old(self).cols <= i < (row + 1) * old(self).cols {
                    Cell { ch: ' ', fg: bg, bg }
                } else {
                    old(self).cells@[i]
                },
    {
        let cols = self.cols;
        let n = self.cells.len();
        proof {
            assert((row + 1) * cols <= cols * self.rows) by (nonlinear_arith)
                requires
                    row < self.rows,
            ;
            assert((row + 1) * cols == row * cols + cols) by (nonlinear_arith);
        }
        let start = row * cols;
        let end = start + cols;
        let mut i = start;
        while i < end
            invariant
                start <= i <= end <= n,
                n == self.cells@.len(),
                self.wf(),
                self.same_frame(old(self)),
                start == row * cols,
                end == (row + 1) * cols,
                cols == old(self).cols,
                forall|j: int|
                    0 <= j < n ==> #[trigger] self.cells@[j] == if start <= j < i {
                        Cell { ch: ' ', fg: bg, bg }
                    } else {
                        old(self).cells@[j]
                    },
            decreases end - i,
        {
            self.cells.set(i, Cell { ch: ' ', fg: bg, bg });
            i = i + 1;
        }
    }

    fn put_cell(&mut self, i: usize, cell: Cell)
        requires
            old(self).wf(),
            i < old(self).cells@.len(),
        ensures
            final(self).wf(),
            final(self).same_frame(old(self)),
            final(self).cells@ == old(self).cells@.update(i as int, cell),
    {
        self.cells.set(i, cell);
    }

    /// Writes text starting at `col`, returns the column after it. Characters that fall past the
    /// last column are dropped.
    pub fn text(&mut self, col: usize, row: usize, s: &str, fg: Rgb, bg: Rgb) -> (next: usize)
        requires
            old(self).wf(),
            col + s@.len() <= usize::MAX,
            col < old(self).cols && s@.len() > 0 ==> row < old(self).rows,
        ensures
            final(self).wf(),
            final(self).same_frame(old(self)),
            next == col + s@.len(),
            forall|i: int|
                0 <= i < old(self).cells@.len() ==> #[trigger] final(self).cells@[i] == text_cells(
                    old(self).cells@,
                    row * old(self).cols,
                    col as int,
                    old(self).cols as int,
                    s@.len() as int,
                    s@,
                    fg,
                    bg,
                    i,
                ),
    {
        let chars = crate::text::chars_of(s);
        let len = chars.len();
        let cols = self.cols;
        let mut c = col;
        let mut k: usize = 0;
        let ghost base = row * cols;
        while k < len
            invariant
                k <= len == s@.len(),
                chars@ == s@,
                c == col + k,
                col + s@.len() <= usize::MAX,
                cols == old(self).cols,
                self.wf(),
                old(self).wf(),
                self.same_frame(old(self)),
                base == row * cols,
                col < cols && len > 0 ==> row < self.rows,
                forall|i: int|
                    0 <= i < self.cells@.len() ==> #[trigger] self.cells@[i] == text_cells(
                        old(self).cells@,
                        base,
                        col as int,
                        cols as int,
                        k as int,
                        s@,
                        fg,
                        bg,
                        i,
                    ),
            decreases len - k,
        {
            let ghost before = self.cells@;
            let n = self.cells.len();
            proof {
                if c < cols {
                    crate::level::lemma_cell_in_bounds(cols as int, self.rows as int, c as int, row as int);
                }
            }
            if c < cols {
                self.put_cell(row * cols + c, Cell { ch: chars[k], fg, bg });
            }
            proof {
                lemma_text_step(before, self.cells@, old(self).cells@, base, col as int, cols as int,
                    k as int, c as int, s@, fg, bg);
            }
            c = c + 1;
            k = k + 1;
        }
        c
    }
}


/// Character `j` of `s` in the given colors.
pub open spec fn text_cell(s: Seq<char>, j: int, fg: Rgb, bg: Rgb) -> Cell {
    Cell { ch: s[j], fg, bg }
}

/// The cells after writing the first `k` characters of `s`, as `Screen::text` does.
pub open spec fn text_cells(old_cells: Seq<Cell>, base: int, col: int, cols: int, k: int, s: Seq<char>, fg: Rgb, bg: Rgb, i: int) -> Cell {
    if base + col <= i < base + cols && i < base + col + k {
        text_cell(s, i - base - col, fg, bg)
    } else {
        old_cells[i]
    }
}

proof fn lemma_text_step(
    before: Seq<Cell>,
    after: Seq<Cell>,
    old_cells: Seq<Cell>,
    base: int,
    col: int,
    cols: int,
    k: int,
    c: int,
    s: Seq<char>,
    fg: Rgb,
    bg: Rgb,
)
    requires
        0 <= k < s.len(),
        c == col + k,
        before.len() == old_cells.len(),
        forall|i: int| 0 <= i < before.len() ==> #[trigger] before[i] == text_cells(old_cells, base, col, cols, k, s, fg, bg, i),
        c >= cols ==> after == before,
        c < cols ==> (0 <= base + c && base + c < before.len()),
        c < cols ==> (after == before.update(base + c, text_cell(s, k, fg, bg))),
    ensures
        after.len() == before.len(),
        forall|i: int| 0 <= i < after.len() ==> #[trigger] after[i] == text_cells(old_cells, base, col, cols, k + 1, s, fg, bg, i),
{
    assert forall|i: int| 0 <= i < after.len() implies #[trigger] after[i] == text_cells(old_cells, base, col, cols, k + 1, s, fg, bg, i) by {
        if c < cols && i == base + c {
        } else {
            assert(after[i] == before[i]);
        }
    }
}

/// Nearest-neighbour source position for target position `i` of a span of `len` positions
/// starting at `off`, drawn from `src` positions; None outside the span.
pub open spec fn source(i: nat, off: nat, len: nat, src: nat) -> Option<nat> {
    if off <= i < off + len {
        Some(((i - off) as nat) * src / len)
    } else {
        None
    }
}

/// The framebuffer pixel at the two source positions, or the border color.
pub open spec fn source_pixel(fb: &Framebuffer, x: Option<nat>, y: Option<nat>, border: Rgb) -> Rgb {
    match (x, y) {
        (Some(x), Some(y)) => fb.pixel(x as int, y as int),
        _ => border,
    }
}

/// Cell (x, r) of a `w` x `rows` area showing `fb` scaled to `iw` x `ih` pixels and centered on
/// `border`: `▀` with the upper pixel as text color and the lower one as background.
pub open spec fn blit_cell(fb: &Framebuffer, w: nat, rows: nat, iw: nat, ih: nat, border: Rgb, x: nat, r: nat) -> Cell {
    let h = rows * 2;
    let ox = ((w - iw) / 2) as nat;
    let oy = ((h - ih) / 2) as nat;
    let sx = source(x, ox, iw, fb.w as nat);
    Cell {
        ch: '\u{2580}',
        fg: source_pixel(fb, sx, source(2 * r, oy, ih, fb.h as nat), border),
        bg: source_pixel(fb, sx, source(2 * r + 1, oy, ih, fb.h as nat), border),
    }
}

proof fn lemma_source_below(k: nat, len: nat, src: nat)
    requires
        k < len,
    ensures
        k * src / len < src || src == 0,
{
    if src > 0 {
        assert(k * src < len * src) by (nonlinear_arith)
            requires
                k < len,
                src > 0,
        ;
        vstd::arithmetic::div_mod::lemma_multiply_divide_lt((k * src) as int, len as int, src as int);
    }
}

/// `source`, computed without overflow.
fn source_at(i: usize, off: usize, len: usize, src: usize) -> (r: Option<usize>)
    ensures
        match r {
            Some(v) => source(i as nat, off as nat, len as nat, src as nat) == Some(v as nat) && (src > 0 ==> v < src),
            None => source(i as nat, off as nat, len as nat, src as nat) is None,
        },
{
    if i >= off && i - off < len {
        let k = (i - off) as u128;
        proof {
            assert(k * (src as u128) <= u128::MAX) by (nonlinear_arith)
                requires
                    k <= usize::MAX,
                    src <= usize::MAX,
            ;
            lemma_source_below(k as nat, len as nat, src as nat);
        }
        let v = k * (src as u128) / (len as u128);
        proof {
            assert(k * (src as u128) == (k as nat) * (src as nat));
            assert(v == ((k as nat) * (src as nat)) / (len as nat));
            vstd::arithmetic::mul::lemma_mul_basics(k as int);
            assert(v < src || v == 0);
            assert(((i - off) as nat) == k as nat);
        }
        Some(v as usize)
    } else {
        None
    }
}


/// Cell `i` once the first `done` cells (row by row) of the `rows`-row area starting at row
/// `row0` show `fb`; the others keep `old_cells`.
pub open spec fn blit_result(
    old_cells: Seq<Cell>,
    fb: &Framebuffer,
    cols: nat,
    row0: nat,
    rows: nat,
    iw: nat,
    ih: nat,
    border: Rgb,
    done: int,
    i: int,
) -> Cell {
    let start = row0 * cols;
    if start <= i < start + done {
        blit_cell(fb, cols, rows, iw, ih, border, ((i - start) % cols as int) as nat, ((i - start) / cols as int) as nat)
    } else {
        old_cells[i]
    }
}

/// The framebuffer pixel at the source positions, or the border color.
fn pixel_or(fb: &Framebuffer, x: Option<usize>, y: Option<usize>, border: Rgb) -> (c: Rgb)
    requires
        fb.wf(),
        x matches Some(x) ==> x < fb.w,
        y matches Some(y) ==> y < fb.h,
    ensures
        c == source_pixel(
            fb,
            match x {
                Some(v) => Some(v as nat),
                None => None,
            },
            match y {
                Some(v) => Some(v as nat),
                None => None,
            },
            border,
        ),
{
    match (x, y) {
        (Some(x), Some(y)) => fb.get(x, y),
        _ => border,
    }
}

impl Screen {
    /// Draws the framebuffer as `▀` cells (fg = top pixel, bg = bottom pixel) into `rows` rows
    /// starting at `row0`, scaled (nearest neighbour) to `iw` x `ih` pixels and centered on
    /// `border`. The caller picks the scaled size: the largest uniform scale that fits.
    pub fn blit(&mut self, fb: &Framebuffer, row0: usize, rows: usize, border: Rgb, iw: usize, ih: usize)
        requires
            old(self).wf(),
            fb.wf(),
            row0 + rows <= old(self).rows,
            rows * 2 <= usize::MAX,
            iw <= old(self).cols,
            ih <= rows * 2,
            fb.w == 0 ==> iw == 0,
            fb.h == 0 ==> ih == 0,
        ensures
            final(self).wf(),
            final(self).same_frame(old(self)),
            forall|i: int|
                0 <= i < old(self).cells@.len() ==> #[trigger] final(self).cells@[i] == blit_result(
                    old(self).cells@,
                    fb,
                    old(self).cols as nat,
                    row0 as nat,
                    rows as nat,
                    iw as nat,
                    ih as nat,
                    border,
                    rows * old(self).cols,
                    i,
                ),
    {
        let w = self.cols;
        let h = rows * 2;
        let ox = (w - iw) / 2;
        let oy = (h - ih) / 2;
        let n = self.cells.len();
        proof {
            assert((row0 + rows) * w <= w * self.rows) by (nonlinear_arith)
                requires
                    row0 + rows <= self.rows,
            ;
            assert((row0 + rows) * w == row0 * w + rows * w) by (nonlinear_arith);
        }
        let total = rows * w;
        let start = row0 * w;
        let mut j: usize = 0;
        while j < total
            invariant
                j <= total == rows * w,
                start == row0 * w,
                start + total <= n == self.cells@.len(),
                w == self.cols == old(self).cols,
                h == rows * 2,
                fb.wf(),
                old(self).wf(),
                self.wf(),
                self.same_frame(old(self)),
                iw <= w,
                ih <= h,
                fb.w == 0 ==> iw == 0,
                fb.h == 0 ==> ih == 0,
                ox == (w - iw) / 2,
                oy == (h - ih) / 2,
                forall|i: int|
                    0 <= i < n ==> #[trigger] self.cells@[i] == blit_result(
                        old(self).cells@,
                        fb,
                        w as nat,
                        row0 as nat,
                        rows as nat,
                        iw as nat,
                        ih as nat,
                        border,
                        j as int,
                        i,
                    ),
            decreases total - j,
        {
            let x = j % w;
            let r = j / w;
            proof {
                vstd::arithmetic::div_mod::lemma_multiply_divide_lt(j as int, w as int, rows as int);
            }
            let sx = source_at(x, ox, iw, fb.w);
            let top = source_at(2 * r, oy, ih, fb.h);
            let bottom = source_at(2 * r + 1, oy, ih, fb.h);
            let fg = pixel_or(fb, sx, top, border);
            let bg = pixel_or(fb, sx, bottom, border);
            let cell = Cell { ch: '\u{2580}', fg, bg };
            proof {
                assert(cell == blit_cell(fb, w as nat, rows as nat, iw as nat, ih as nat, border, x as nat, r as nat));
            }
            let ghost before = self.cells@;
            self.put_cell(start + j, cell);
            proof {
                assert forall|i: int| 0 <= i < n implies #[trigger] self.cells@[i] == blit_result(
                    old(self).cells@,
                    fb,
                    w as nat,
                    row0 as nat,
                    rows as nat,
                    iw as nat,
                    ih as nat,
                    border,
                    j + 1,
                    i,
                ) by {
                    if i == start + j {
                        assert((i - start) % (w as int) == x);
                        assert((i - start) / (w as int) == r);
                    } else {
                        assert(self.cells@[i] == before[i]);
                    }
                }
            }
            j = j + 1;
        }
    }
}


/// ASCII bytes of ASCII characters.
pub open spec fn ascii(s: Seq<char>) -> Seq<u8> {
    Seq::new(s.len(), |i: int| s[i] as u8)
}

/// The decimal digits of `n` as ASCII bytes.
pub open spec fn dec_bytes(n: nat) -> Seq<u8> {
    ascii(decimal(n))
}

/// `ESC [ row ; col H`: move the cursor to a 0-based cell.
pub open spec fn move_to(r: nat, c: nat) -> Seq<u8> {
    seq![0x1bu8, 0x5bu8] + dec_bytes(r + 1) + seq![0x3bu8] + dec_bytes(c + 1) + seq![0x48u8]
}

/// `ESC [ <layer> ; 2 ; r ; g ; b m`: a 24-bit text (38) or background (48) color.
pub open spec fn color_to(layer: nat, c: Rgb) -> Seq<u8> {
    seq![0x1bu8, 0x5bu8] + dec_bytes(layer) + seq![0x3bu8, 0x32u8, 0x3bu8] + dec_bytes(c.0 as nat)
        + seq![0x3bu8] + dec_bytes(c.1 as nat) + seq![0x3bu8] + dec_bytes(c.2 as nat) + seq![0x6du8]
}

/// What a flush has tracked and written so far.
pub struct FlushState {
    pub cursor: Option<(nat, nat)>,
    pub fg: Option<Rgb>,
    pub bg: Option<Rgb>,
    pub out: Seq<u8>,
}

pub open spec fn flush_start() -> FlushState {
    FlushState { cursor: None, fg: None, bg: None, out: Seq::empty() }
}

/// Output for cell (r, c): move the cursor there unless it already is, switch colors that
/// differ from the last ones written, then the character in UTF-8.
pub open spec fn draw_cell(st: FlushState, r: nat, c: nat, cell: Cell) -> FlushState {
    let o1 = if st.cursor != Some((r, c)) {
        st.out + move_to(r, c)
    } else {
        st.out
    };
    let o2 = if st.fg != Some(cell.fg) {
        o1 + color_to(38, cell.fg)
    } else {
        o1
    };
    let o3 = if st.bg != Some(cell.bg) {
        o2 + color_to(48, cell.bg)
    } else {
        o2
    };
    FlushState {
        cursor: Some((r, c + 1)),
        fg: Some(cell.fg),
        bg: Some(cell.bg),
        out: o3 + encode_scalar(cell.ch as u32),
    }
}

/// The flush after the first `k` cells, row by row: a cell is written when the whole screen is
/// redrawn or when it differs from what the terminal shows.
pub open spec fn flush_upto(cells: Seq<Cell>, prev: Seq<Cell>, full: bool, cols: nat, k: nat) -> FlushState
    decreases k,
{
    if k == 0 {
        flush_start()
    } else {
        let st = flush_upto(cells, prev, full, cols, (k - 1) as nat);
        let i = k - 1;
        if !full && cells[i] == prev[i] {
            st
        } else {
            draw_cell(st, (i / cols as int) as nat, (i % cols as int) as nat, cells[i])
        }
    }
}

/// Flushing a screen whose cells are what the terminal already shows, with no full redraw
/// pending, writes nothing: a second flush of an unchanged frame is silent.
pub proof fn lemma_unchanged_flush_is_silent(s: &Screen)
    requires
        s.wf(),
        s.prev@ == s.cells@,
        !s.full,
    ensures
        flush_upto(s.cells@, s.prev@, s.full, s.cols as nat, s.cells@.len()).out.len() == 0,
{
    lemma_flush_of_shown_cells(s.cells@, s.cols as nat, s.cells@.len());
}

proof fn lemma_flush_of_shown_cells(cells: Seq<Cell>, cols: nat, k: nat)
    requires
        k <= cells.len(),
    ensures
        flush_upto(cells, cells, false, cols, k) == flush_start(),
    decreases k,
{
    if k > 0 {
        lemma_flush_of_shown_cells(cells, cols, (k - 1) as nat);
    }
}

/// Some cell among the first `k` is written: the whole screen is redrawn, or it changed.
pub open spec fn changed_within(cells: Seq<Cell>, prev: Seq<Cell>, full: bool, k: int) -> bool {
    exists|i: int| 0 <= i < k && (full || #[trigger] cells[i] != prev[i])
}

/// A flush writes something exactly when some cell is written: when a full redraw is pending on
/// a non-empty screen, or when some cell differs from what the terminal shows.
pub proof fn lemma_flush_writes_iff_changed(cells: Seq<Cell>, prev: Seq<Cell>, full: bool, cols: nat, k: nat)
    requires
        k <= cells.len(),
    ensures
        flush_upto(cells, prev, full, cols, k).out.len() > 0 <==> changed_within(cells, prev, full, k as int),
    decreases k,
{
    if k > 0 {
        let i = k - 1;
        lemma_flush_writes_iff_changed(cells, prev, full, cols, (k - 1) as nat);
        if !full && cells[i] == prev[i] {
            if changed_within(cells, prev, full, k as int) {
                let j = choose|j: int| 0 <= j < k && (full || #[trigger] cells[j] != prev[j]);
                assert(changed_within(cells, prev, full, (k - 1) as int));
            }
        } else {
            let c = cells[i].ch as u32;
            assert(encode_scalar(c).len() > 0);
            assert(full || cells[i] != prev[i]);
        }
    }
}

/// A command to the terminal, as the escape sequences of a flush spell it.
pub enum TermCmd {
    /// Put the cursor on cell (row, column).
    MoveTo(nat, nat),
    /// Draw the following characters in this text color.
    TextColor(Rgb),
    /// Draw the following characters on this background color.
    BackColor(Rgb),
    /// Draw a character at the cursor and step the cursor one cell right.
    Put(char),
}

/// The bytes that spell a command.
pub open spec fn cmd_bytes(c: TermCmd) -> Seq<u8> {
    match c {
        TermCmd::MoveTo(r, col) => move_to(r, col),
        TermCmd::TextColor(x) => color_to(38, x),
        TermCmd::BackColor(x) => color_to(48, x),
        TermCmd::Put(ch) => encode_scalar(ch as u32),
    }
}

/// The bytes that spell the commands, in order.
pub open spec fn cmds_bytes(cs: Seq<TermCmd>) -> Seq<u8>
    decreases cs.len(),
{
    if cs.len() == 0 {
        Seq::empty()
    } else {
        cmds_bytes(cs.drop_last()) + cmd_bytes(cs.last())
    }
}

/// What a terminal shows, where its cursor is and which colors it draws with (None: not known).
pub struct Terminal {
    pub cells: Seq<Cell>,
    pub cursor: Option<(nat, nat)>,
    pub fg: Option<Rgb>,
    pub bg: Option<Rgb>,
}

/// The terminal (`cols` cells wide) after one command. A character takes the current colors and
/// lands at the cursor, which then moves one cell right; with the cursor or a color not known,
/// nothing is drawn.
pub open spec fn term_step(t: Terminal, cols: nat, c: TermCmd) -> Terminal {
    match c {
        TermCmd::MoveTo(r, col) => Terminal { cells: t.cells, cursor: Some((r, col)), fg: t.fg, bg: t.bg },
        TermCmd::TextColor(x) => Terminal { cells: t.cells, cursor: t.cursor, fg: Some(x), bg: t.bg },
        TermCmd::BackColor(x) => Terminal { cells: t.cells, cursor: t.cursor, fg: t.fg, bg: Some(x) },
        TermCmd::Put(ch) => match (t.cursor, t.fg, t.bg) {
            (Some((r, col)), Some(fg), Some(bg)) => Terminal {
                cells: if col < cols && r * cols + col < t.cells.len() {
                    t.cells.update((r * cols + col) as int, Cell { ch, fg, bg })
                } else {
                    t.cells
                },
                cursor: Some((r, col + 1)),
                fg: t.fg,
                bg: t.bg,
            },
            _ => t,
        },
    }
}

/// The terminal after the commands, in order.
pub open spec fn term_run(t: Terminal, cols: nat, cs: Seq<TermCmd>) -> Terminal
    decreases cs.len(),
{
    if cs.len() == 0 {
        t
    } else {
        term_step(term_run(t, cols, cs.drop_last()), cols, cs.last())
    }
}

/// The commands for cell (r, c) after `cs`, given what the flush has tracked in `st`.
spec fn cell_cmds(cs: Seq<TermCmd>, st: FlushState, r: nat, c: nat, cell: Cell) -> Seq<TermCmd> {
    let c1 = if st.cursor != Some((r, c)) {
        cs.push(TermCmd::MoveTo(r, c))
    } else {
        cs
    };
    let c2 = if st.fg != Some(cell.fg) {
        c1.push(TermCmd::TextColor(cell.fg))
    } else {
        c1
    };
    let c3 = if st.bg != Some(cell.bg) {
        c2.push(TermCmd::BackColor(cell.bg))
    } else {
        c2
    };
    c3.push(TermCmd::Put(cell.ch))
}

/// The commands of the first `k` cells of a flush.
spec fn flush_cmds(cells: Seq<Cell>, prev: Seq<Cell>, full: bool, cols: nat, k: nat) -> Seq<TermCmd>
    decreases k,
{
    if k == 0 {
        Seq::empty()
    } else {
        let cs = flush_cmds(cells, prev, full, cols, (k - 1) as nat);
        let st = flush_upto(cells, prev, full, cols, (k - 1) as nat);
        let i = k - 1;
        if !full && cells[i] == prev[i] {
            cs
        } else {
            cell_cmds(cs, st, (i / cols as int) as nat, (i % cols as int) as nat, cells[i])
        }
    }
}

proof fn lemma_push_cmd(t: Terminal, cols: nat, cs: Seq<TermCmd>, x: TermCmd)
    ensures
        cmds_bytes(cs.push(x)) == cmds_bytes(cs) + cmd_bytes(x),
        term_run(t, cols, cs.push(x)) == term_step(term_run(t, cols, cs), cols, x),
{
    assert(cs.push(x).drop_last() =~= cs);
}

/// The terminal as the previous frame left it, before a flush.
pub open spec fn shown_before(prev: Seq<Cell>) -> Terminal {
    Terminal { cells: prev, cursor: None, fg: None, bg: None }
}

proof fn lemma_flush_cmds(cells: Seq<Cell>, prev: Seq<Cell>, full: bool, cols: nat, k: nat)
    requires
        k <= cells.len(),
        cells.len() == prev.len(),
        cells.len() % cols == 0,
        cols > 0,
    ensures
        cmds_bytes(flush_cmds(cells, prev, full, cols, k)) == flush_upto(cells, prev, full, cols, k).out,
        ({
            let t = term_run(shown_before(prev), cols, flush_cmds(cells, prev, full, cols, k));
            let st = flush_upto(cells, prev, full, cols, k);
            &&& t.cursor == st.cursor
            &&& t.fg == st.fg
            &&& t.bg == st.bg
            &&& t.cells.len() == prev.len()
            &&& forall|j: int| 0 <= j < prev.len() ==> #[trigger] t.cells[j] == if j < k {
                cells[j]
            } else {
                prev[j]
            }
        }),
    decreases k,
{
    if k > 0 {
        let i = k - 1;
        lemma_flush_cmds(cells, prev, full, cols, (k - 1) as nat);
        let cs = flush_cmds(cells, prev, full, cols, (k - 1) as nat);
        let st = flush_upto(cells, prev, full, cols, (k - 1) as nat);
        let t0 = term_run(shown_before(prev), cols, cs);
        if !full && cells[i] == prev[i] {
        } else {
            let r = (i / cols as int) as nat;
            let c = (i % cols as int) as nat;
            let cell = cells[i];
            vstd::arithmetic::div_mod::lemma_fundamental_div_mod(i, cols as int);
            assert(r * cols + c == i) by (nonlinear_arith)
                requires
                    i == cols * (i / cols as int) + i % cols as int,
                    r == i / cols as int,
                    c == i % cols as int,
            ;
            let c1 = if st.cursor != Some((r, c)) {
                cs.push(TermCmd::MoveTo(r, c))
            } else {
                cs
            };
            let c2 = if st.fg != Some(cell.fg) {
                c1.push(TermCmd::TextColor(cell.fg))
            } else {
                c1
            };
            let c3 = if st.bg != Some(cell.bg) {
                c2.push(TermCmd::BackColor(cell.bg))
            } else {
                c2
            };
            let s = shown_before(prev);
            if st.cursor != Some((r, c)) {
                lemma_push_cmd(s, cols, cs, TermCmd::MoveTo(r, c));
            }
            if st.fg != Some(cell.fg) {
                lemma_push_cmd(s, cols, c1, TermCmd::TextColor(cell.fg));
            }
            if st.bg != Some(cell.bg) {
                lemma_push_cmd(s, cols, c2, TermCmd::BackColor(cell.bg));
            }
            lemma_push_cmd(s, cols, c3, TermCmd::Put(cell.ch));
            let t3 = term_run(s, cols, c3);
            assert(t3.cursor == Some((r, c)) && t3.fg == Some(cell.fg) && t3.bg == Some(cell.bg));
            assert(t3.cells == t0.cells);
            let t = term_run(s, cols, c3.push(TermCmd::Put(cell.ch)));
            assert(t.cells == t0.cells.update(i, cell));
        }
    }
}

/// What a flush writes is a run of cursor moves, color switches and characters that turns the
/// terminal showing the previous frame into the current one: afterwards every cell shows the
/// screen's character in the screen's text and background colors.
pub proof fn lemma_flush_shows_the_frame(s: &Screen)
    requires
        s.wf(),
    ensures
        exists|cs: Seq<TermCmd>|
            cmds_bytes(cs) == flush_upto(s.cells@, s.prev@, s.full, s.cols as nat, s.cells@.len()).out
                && #[trigger] term_run(shown_before(s.prev@), s.cols as nat, cs).cells == s.cells@,
{
    let n = s.cells@.len();
    if n > 0 {
        assert(s.cols > 0) by (nonlinear_arith)
            requires
                n == s.cols * s.rows,
                n > 0,
        ;
        assert(n % (s.cols as nat) == 0) by (nonlinear_arith)
            requires
                n == s.cols * s.rows,
                s.cols > 0,
        ;
        lemma_flush_cmds(s.cells@, s.prev@, s.full, s.cols as nat, n);
        let cs = flush_cmds(s.cells@, s.prev@, s.full, s.cols as nat, n);
        assert(term_run(shown_before(s.prev@), s.cols as nat, cs).cells =~= s.cells@);
    } else {
        let cs = Seq::<TermCmd>::empty();
        assert(flush_upto(s.cells@, s.prev@, s.full, s.cols as nat, 0) == flush_start());
        assert(term_run(shown_before(s.prev@), s.cols as nat, cs).cells =~= s.cells@);
    }
}

/// Appends the decimal digits of `n` as ASCII bytes.
fn push_dec_bytes(out: &mut Vec<u8>, n: usize)
    ensures
        final(out)@ == old(out)@ + dec_bytes(n as nat),
    decreases n,
{
    if n >= 10 {
        push_dec_bytes(out, n / 10);
    }
    let d = (n % 10) as u8;
    let b: u8 = 0x30u8 + d;
    out.push(b);
    proof {
        let ds = decimal(n as nat);
        assert(digit_char((n % 10) as nat) as u8 == b);
        if n >= 10 {
            assert(ds == decimal((n / 10) as nat).push(digit_char((n % 10) as nat)));
            assert(ascii(ds) =~= ascii(decimal((n / 10) as nat)).push(b));
        } else {
            assert(ascii(ds) =~= seq![b]);
        }
        assert(out@ =~= old(out)@ + dec_bytes(n as nat));
    }
}

/// Appends the UTF-8 encoding of `ch`.
fn push_utf8(out: &mut Vec<u8>, ch: char)
    ensures
        final(out)@ == old(out)@ + encode_scalar(ch as u32),
{
    let u = ch as u32;
    proof {
        vstd::utf8::char_is_scalar(ch);
    }
    if u <= 0x7F {
        out.push((u & 0x7F) as u8);
    } else if u <= 0x7FF {
        out.push(0xC0 | ((u >> 6) & 0x1F) as u8);
        out.push(0x80 | (u & 0x3F) as u8);
    } else if u <= 0xFFFF {
        out.push(0xE0 | ((u >> 12) & 0x0F) as u8);
        out.push(0x80 | ((u >> 6) & 0x3F) as u8);
        out.push(0x80 | (u & 0x3F) as u8);
    } else {
        out.push(0xF0 | ((u >> 18) & 0x7) as u8);
        out.push(0x80 | ((u >> 12) & 0x3F) as u8);
        out.push(0x80 | ((u >> 6) & 0x3F) as u8);
        out.push(0x80 | (u & 0x3F) as u8);
    }
    proof {
        assert(out@ =~= old(out)@ + encode_scalar(ch as u32));
    }
}

/// Appends a color switch for the text (38) or background (48) layer.
fn push_color(out: &mut Vec<u8>, layer: usize, c: Rgb)
    ensures
        final(out)@ == old(out)@ + color_to(layer as nat, c),
{
    out.push(0x1b);
    out.push(0x5b);
    push_dec_bytes(out, layer);
    out.push(0x3b);
    out.push(0x32);
    out.push(0x3b);
    push_dec_bytes(out, c.0 as usize);
    out.push(0x3b);
    push_dec_bytes(out, c.1 as usize);
    out.push(0x3b);
    push_dec_bytes(out, c.2 as usize);
    out.push(0x6d);
    proof {
        assert(out@ =~= old(out)@ + color_to(layer as nat, c));
    }
}

/// Appends a cursor move to the 0-based cell (r, c).
fn push_move(out: &mut Vec<u8>, r: usize, c: usize)
    requires
        r < usize::MAX,
        c < usize::MAX,
    ensures
        final(out)@ == old(out)@ + move_to(r as nat, c as nat),
{
    out.push(0x1b);
    out.push(0x5b);
    push_dec_bytes(out, r + 1);
    out.push(0x3b);
    push_dec_bytes(out, c + 1);
    out.push(0x48);
    proof {
        assert(out@ =~= old(out)@ + move_to(r as nat, c as nat));
    }
}


impl Screen {
    /// Writes the escape sequences that bring the terminal from `prev` to `cells` (every cell
    /// after a `full` redraw) to `w`; afterwards the terminal shows `cells`.
    pub fn flush(&mut self, w: &mut Vec<u8>)
        requires
            old(self).wf(),
        ensures
            final(self).wf(),
            final(self).cols == old(self).cols,
            final(self).rows == old(self).rows,
            final(self).cells@ == old(self).cells@,
            final(self).prev@ == old(self).cells@,
            !final(self).full,
            final(self).out@ == flush_upto(
                old(self).cells@,
                old(self).prev@,
                old(self).full,
                old(self).cols as nat,
                old(self).cells@.len(),
            ).out,
            final(w)@ == old(w)@ + final(self).out@,
            exists|cs: Seq<TermCmd>|
                cmds_bytes(cs) == final(self).out@ && #[trigger] term_run(
                    shown_before(old(self).prev@),
                    old(self).cols as nat,
                    cs,
                ).cells == old(self).cells@,
    {
        proof {
            lemma_flush_shows_the_frame(&*old(self));
        }
        self.out.clear();
        let cols = self.cols;
        let n = self.cells.len();
        let mut cursor: Option<(usize, usize)> = None;
        let mut fg: Option<Rgb> = None;
        let mut bg: Option<Rgb> = None;
        let mut i: usize = 0;
        let ghost cells = self.cells@;
        let ghost prev = self.prev@;
        let ghost full = self.full;
        proof {
            assert(self.out@ =~= Seq::<u8>::empty());
        }
        while i < n
            invariant
                i <= n == cells.len() == prev.len(),
                cells == self.cells@,
                prev == self.prev@,
                full == self.full,
                cols == self.cols,
                self.wf(),
                self.cols == old(self).cols,
                self.rows == old(self).rows,
                cells == old(self).cells@,
                prev == old(self).prev@,
                full == old(self).full,
                ({
                    let st = flush_upto(cells, prev, full, cols as nat, i as nat);
                    &&& st.out == self.out@
                    &&& st.fg == fg
                    &&& st.bg == bg
                    &&& st.cursor == match cursor {
                        Some((r, c)) => Some((r as nat, c as nat)),
                        None => None,
                    }
                }),
            decreases n - i,
        {
            let cell = self.cells[i];
            if !self.full && cell == self.prev[i] {
            } else {
                proof {
                    vstd::arithmetic::div_mod::lemma_multiply_divide_lt(i as int, cols as int, self.rows as int);
                    vstd::arithmetic::div_mod::lemma_mod_bound(i as int, cols as int);
                }
                let r = i / cols;
                let c = i % cols;
                let here = match cursor {
                    Some((cr, cc)) => cr == r && cc == c,
                    None => false,
                };
                if !here {
                    push_move(&mut self.out, r, c);
                }
                let same_fg = match fg {
                    Some(f) => f == cell.fg,
                    None => false,
                };
                if !same_fg {
                    push_color(&mut self.out, 38, cell.fg);
                    fg = Some(cell.fg);
                }
                let same_bg = match bg {
                    Some(b) => b == cell.bg,
                    None => false,
                };
                if !same_bg {
                    push_color(&mut self.out, 48, cell.bg);
                    bg = Some(cell.bg);
                }
                push_utf8(&mut self.out, cell.ch);
                cursor = Some((r, c + 1));
            }
            i = i + 1;
        }
        let mut k: usize = 0;
        while k < n
            invariant
                k <= n == cells.len(),
                self.cells@ == cells,
                self.prev@.len() == n,
                self.cols == old(self).cols,
                self.rows == old(self).rows,
                self.wf(),
                self.out@ == flush_upto(cells, prev, full, cols as nat, n as nat).out,
                forall|j: int| 0 <= j < k ==> self.prev@[j] == cells[j],
            decreases n - k,
        {
            let c = self.cells[k];
            self.prev.set(k, c);
            k = k + 1;
        }
        proof {
            assert(self.prev@ =~= cells);
        }
        self.full = false;
        let m = self.out.len();
        let mut j: usize = 0;
        let ghost w0 = w@;
        while j < m
            invariant
                j <= m == self.out@.len(),
                w@ == w0 + self.out@.take(j as int),
            decreases m - j,
        {
            w.push(self.out[j]);
            j = j + 1;
            proof {
                assert(self.out@.take(j as int) =~= self.out@.take(j - 1).push(self.out@[j - 1]));
            }
        }
        proof {
            assert(self.out@.take(m as int) =~= self.out@);
        }
    }
}

} // verus!
