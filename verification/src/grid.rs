//! The cell grid: what a frame *is*, once the escape codes are gone.
//!
//! Everything downstream of the animation engine speaks in cells, not in bytes
//! and not in pixels: a frame is a [`Grid`], a change between frames is a set
//! of row spans (see [`crate::damage`]), and the rasterizer's only job is to
//! turn spans into pixels.

use vstd::prelude::*;

use crate::chars;

pub use crate::damage::{
    bounding_rect, changed_cells, changed_runs, coarsen_to_rows, damaged_runs, merge_spans,
    CellRect, RowSpan,
};

verus! {

/// 24-bit colour, the only kind the engine emits.
pub type Rgb = [u8; 3];

/// Whether two colours are the same.
pub fn same_rgb(a: Rgb, b: Rgb) -> (r: bool)
    ensures
        r == (a == b),
{
    let r: bool = a[0] == b[0] && a[1] == b[1] && a[2] == b[2];
    proof {
        if r {
            assert(a =~= b);
        }
    }
    r
}

/// One character cell.
#[derive(Clone, Copy, Eq, Debug)]
pub struct Cell {
    pub ch: char,
    pub fg: Rgb,
    /// `None` means "the surface background", which is not the same as black:
    /// the background is configurable and the fade multiplies it.
    pub bg: Option<Rgb>,
    pub bold: bool,
}

/// The cell that shows nothing but the surface background.
pub open spec fn blank_cell() -> Cell {
    Cell { ch: ' ', fg: Cell::DEFAULT_FG, bg: None, bold: false }
}

impl PartialEq for Cell {
    fn eq(&self, other: &Cell) -> (r: bool) {
        self.ch == other.ch && self.bold == other.bold && same_rgb(self.fg, other.fg) && match (
            self.bg,
            other.bg,
        ) {
            (None, None) => true,
            (Some(a), Some(b)) => same_rgb(a, b),
            _ => false,
        }
    }
}

impl vstd::std_specs::cmp::PartialEqSpecImpl for Cell {
    open spec fn obeys_eq_spec() -> bool {
        true
    }

    open spec fn eq_spec(&self, other: &Cell) -> bool {
        *self == *other
    }
}

impl Cell {
    pub const DEFAULT_FG: Rgb = [255, 255, 255];

    pub fn blank() -> (r: Cell)
        ensures
            r == blank_cell(),
    {
        Cell { ch: ' ', fg: Cell::DEFAULT_FG, bg: None, bold: false }
    }

    /// Whether the cell shows a glyph at all, rather than plain background.
    pub open spec fn inked(&self) -> bool {
        self.ch != ' ' && self.ch != '\0'
    }

    /// Whether this cell paints anything beyond the surface background. Blank
    /// cells are skipped on a full redraw, which is most of the screen for
    /// most frames.
    pub fn is_blank(&self) -> (r: bool)
        ensures
            r == (self.bg is None && !self.inked()),
    {
        self.bg.is_none() && (self.ch == ' ' || self.ch == '\0')
    }
}

impl Default for Cell {
    fn default() -> (r: Cell)
        ensures
            r == blank_cell(),
    {
        Cell::blank()
    }
}

/// What a grid is, mathematically: its shape and its cells, row-major from the
/// top-left.
#[verifier::ext_equal]
pub struct GridView {
    pub cols: int,
    pub rows: int,
    pub cells: Seq<Cell>,
}

impl GridView {
    /// The cell at a column and a row.
    pub open spec fn at(self, col: int, row: int) -> Cell {
        self.cells[row * self.cols + col]
    }

    /// Whether two grids have the same shape.
    pub open spec fn same_shape(self, other: GridView) -> bool {
        self.cols == other.cols && self.rows == other.rows
    }

    /// A shape with exactly one cell per position.
    pub open spec fn wf(self) -> bool {
        &&& 0 <= self.cols <= usize::MAX
        &&& 0 <= self.rows <= usize::MAX
        &&& self.cells.len() == self.cols * self.rows
        &&& self.cells.len() <= usize::MAX
    }

    /// Whether a position lies in the grid.
    pub open spec fn contains(self, col: int, row: int) -> bool {
        0 <= col < self.cols && 0 <= row < self.rows
    }

    /// The cells of one row.
    pub open spec fn row(self, row: int) -> Seq<Cell> {
        self.cells.subrange(row * self.cols, (row + 1) * self.cols)
    }
}

/// Whether no cell of a grid breaks a line.
pub open spec fn breaks_no_line(grid: GridView) -> bool {
    forall|i: int| 0 <= i < grid.cells.len() ==> (#[trigger] grid.cells[i]).ch != '\n'
}

/// The grid of a given shape in which every cell is blank.
pub open spec fn blank_grid(cols: int, rows: int) -> GridView {
    GridView { cols, rows, cells: Seq::new((cols * rows) as nat, |i: int| blank_cell()) }
}

/// Positions inside a `cols` by `rows` grid have in-range indices.
pub proof fn lemma_index(cols: int, rows: int, col: int, row: int)
    requires
        0 <= col < cols,
        0 <= row < rows,
    ensures
        0 <= row * cols,
        row * cols + col < cols * rows,
        row * cols + cols == (row + 1) * cols,
        (row + 1) * cols <= cols * rows,
{
    assert(0 <= row * cols) by (nonlinear_arith)
        requires
            0 <= row,
            0 < cols,
    ;
    assert(row * cols + cols == (row + 1) * cols) by (nonlinear_arith);
    assert((row + 1) * cols <= rows * cols) by (nonlinear_arith)
        requires
            row + 1 <= rows,
            0 < cols,
    ;
    assert(rows * cols == cols * rows) by (nonlinear_arith);
}

/// Two different positions of a row-major grid have different indices.
pub proof fn lemma_index_injective(cols: int, col: int, row: int, col2: int, row2: int)
    requires
        0 <= col < cols,
        0 <= col2 < cols,
        row * cols + col == row2 * cols + col2,
    ensures
        col == col2,
        row == row2,
{
    if row < row2 {
        assert((row + 1) * cols <= row2 * cols) by (nonlinear_arith)
            requires
                row + 1 <= row2,
                0 < cols,
        ;
        assert((row + 1) * cols == row * cols + cols) by (nonlinear_arith);
    }
    if row2 < row {
        assert((row2 + 1) * cols <= row * cols) by (nonlinear_arith)
            requires
                row2 + 1 <= row,
                0 < cols,
        ;
        assert((row2 + 1) * cols == row2 * cols + cols) by (nonlinear_arith);
    }
}

/// A fixed-size grid of cells, row-major from the top-left.
#[derive(PartialEq, Eq, Debug)]
pub struct Grid {
    cols: usize,
    rows: usize,
    cells: Vec<Cell>,
}

impl View for Grid {
    type V = GridView;

    closed spec fn view(&self) -> GridView {
        GridView { cols: self.cols as int, rows: self.rows as int, cells: self.cells@ }
    }
}

impl Clone for Grid {
    fn clone(&self) -> (r: Grid)
        ensures
            r@ == self@,
    {
        let cells = self.cells.clone();
        proof {
            assert(cells@ =~= self.cells@);
        }
        Grid { cols: self.cols, rows: self.rows, cells }
    }
}

impl Grid {
    /// One cell per position. Every grid a constructor hands out satisfies it
    /// and every method keeps it.
    pub open spec fn wf(&self) -> bool {
        self@.wf()
    }

    pub fn new(cols: usize, rows: usize) -> (r: Grid)
        requires
            cols * rows <= usize::MAX,
        ensures
            r.wf(),
            r@ == blank_grid(cols as int, rows as int),
    {
        proof {
            assert(0 <= cols * rows) by (nonlinear_arith);
        }
        let cells: Vec<Cell> = vec![Cell::blank(); cols * rows];
        let r = Grid { cols, rows, cells };
        proof {
            assert(r@.cells =~= blank_grid(cols as int, rows as int).cells);
        }
        r
    }

    pub fn cols(&self) -> (r: usize)
        ensures
            r == self@.cols,
    {
        self.cols
    }

    pub fn rows(&self) -> (r: usize)
        ensures
            r == self@.rows,
    {
        self.rows
    }

    pub fn cells(&self) -> (r: &[Cell])
        ensures
            r@ == self@.cells,
    {
        self.cells.as_slice()
    }

    pub fn row(&self, row: usize) -> (r: &[Cell])
        requires
            self.wf(),
            (row + 1) * self@.cols <= self@.cells.len(),
        ensures
            r@ == self@.row(row as int),
            r@.len() == self@.cols,
    {
        proof {
            assert(0 <= row * self.cols && (row + 1) * self.cols == row * self.cols + self.cols)
                by (nonlinear_arith);
        }
        let start: usize = row * self.cols;
        vstd::slice::slice_subrange(self.cells.as_slice(), start, start + self.cols)
    }

    pub fn get(&self, col: usize, row: usize) -> (r: Cell)
        requires
            self.wf(),
            row * self@.cols + col < self@.cells.len(),
        ensures
            r == self@.at(col as int, row as int),
    {
        proof {
            assert(0 <= row * self.cols) by (nonlinear_arith);
        }
        self.cells[row * self.cols + col]
    }

    pub fn set(&mut self, col: usize, row: usize, cell: Cell)
        requires
            old(self).wf(),
            row * old(self)@.cols + col < old(self)@.cells.len(),
        ensures
            final(self).wf(),
            final(self)@ == with_set(old(self)@, col as int, row as int, cell),
    {
        proof {
            assert(0 <= row * self.cols) by (nonlinear_arith);
        }
        let i: usize = row * self.cols + col;
        self.cells[i] = cell;
    }

    /// Reset every cell to blank without reallocating. Resizes if the geometry
    /// moved, which only happens on a compositor reconfigure.
    pub fn reset(&mut self, cols: usize, rows: usize)
        requires
            old(self).wf(),
            cols * rows <= usize::MAX,
        ensures
            final(self).wf(),
            final(self)@ == blank_grid(cols as int, rows as int),
    {
        proof {
            assert(0 <= cols * rows) by (nonlinear_arith);
        }
        if self.cols != cols || self.rows != rows {
            self.cols = cols;
            self.rows = rows;
            self.cells.clear();
            self.cells.resize(cols * rows, Cell::blank());
        } else {
            let mut i: usize = 0;
            while i < self.cells.len()
                invariant
                    i <= self.cells@.len(),
                    self.cols == cols,
                    self.rows == rows,
                    self.cells@.len() == cols * rows,
                    forall|j: int| 0 <= j < i ==> self.cells@[j] == blank_cell(),
                decreases self.cells@.len() - i,
            {
                self.cells[i] = Cell::blank();
                i += 1;
            }
        }
        proof {
            assert(self@.cells =~= blank_grid(cols as int, rows as int).cells);
        }
    }

    pub fn same_shape(&self, other: &Grid) -> (r: bool)
        ensures
            r == self@.same_shape(other@),
    {
        self.cols == other.cols && self.rows == other.rows
    }

    /// A cheap order-sensitive digest, for the benchmark and the headless
    /// summary. Not a hash anyone should rely on for anything else.
    pub fn checksum(&self) -> (h: u64)
        ensures
            h == digest(grid_words(self@)),
    {
        let ghost head = seq![self@.cols as u64, self@.rows as u64];
        let mut h: u64 = DIGEST_START;
        h = mix(h, self.cols as u64);
        h = mix(h, self.rows as u64);
        proof {
            reveal_with_fuel(digest, 3);
            assert(head.drop_last() =~= seq![self@.cols as u64]);
            assert(head.drop_last().drop_last() =~= Seq::<u64>::empty());
            assert(head + cells_words(self@.cells.take(0)) =~= head);
        }
        let mut i: usize = 0;
        while i < self.cells.len()
            invariant
                i <= self.cells@.len(),
                h == digest(head + cells_words(self.cells@.take(i as int))),
            decreases self.cells@.len() - i,
        {
            let cell = self.cells[i];
            let ghost before = head + cells_words(self.cells@.take(i as int));
            let ghost w = cell_words(cell);
            h = mix(h, cell.ch as u64);
            h = mix(h, rgb_word(cell.fg));
            let bg: u64 = match cell.bg {
                Some(bg) => 0x100_0000 + rgb_word(bg),
                None => 0,
            };
            h = mix(h, bg);
            let bold: u64 = if cell.bold {
                1
            } else {
                0
            };
            h = mix(h, bold);
            i += 1;
            proof {
                lemma_digest_push(before, w[0]);
                lemma_digest_push(before.push(w[0]), w[1]);
                lemma_digest_push(before.push(w[0]).push(w[1]), w[2]);
                lemma_digest_push(before.push(w[0]).push(w[1]).push(w[2]), w[3]);
                assert(self.cells@.take(i as int).drop_last() =~= self.cells@.take(i - 1));
                assert(head + cells_words(self.cells@.take(i as int)) =~= before.push(w[0]).push(
                    w[1],
                ).push(w[2]).push(w[3]));
            }
        }
        proof {
            assert(self.cells@.take(i as int) =~= self.cells@);
        }
        h
    }

    /// The grid as plain text, one row per line, trailing blanks trimmed.
    pub fn to_text(&self) -> (out: String)
        requires
            self.wf(),
        ensures
            out@ == rows_text(self@, self@.rows as nat),
    {
        let mut out = String::new();
        let mut row: usize = 0;
        while row < self.rows
            invariant
                self.wf(),
                row <= self.rows,
                out@ == rows_text(self@, row as nat),
            decreases self.rows - row,
        {
            proof {
                assert((row + 1) * self.cols <= self.cols * self.rows) by (nonlinear_arith)
                    requires
                        row + 1 <= self.rows,
                ;
            }
            let cells = self.row(row);
            let mut line: Vec<char> = Vec::new();
            let mut col: usize = 0;
            while col < cells.len()
                invariant
                    col <= cells@.len(),
                    line@ == cells@.take(col as int).map_values(|c: Cell| c.ch),
                decreases cells@.len() - col,
            {
                line.push(cells[col].ch);
                col += 1;
                proof {
                    assert(cells@.take(col as int).map_values(|c: Cell| c.ch) =~= cells@.take(
                        col - 1,
                    ).map_values(|c: Cell| c.ch).push(cells@[col - 1].ch));
                }
            }
            proof {
                assert(cells@.take(col as int) =~= cells@);
            }
            chars::push_chars(&mut out, chars::trim_end(line.as_slice()));
            out.push('\n');
            row += 1;
            proof {
                assert(out@ =~= rows_text(self@, row as nat));
            }
        }
        out
    }
}

/// The value an empty digest starts from.
pub const DIGEST_START: u64 = 0xcbf2_9ce4_8422_2325;

/// What each step of the digest multiplies by.
pub const DIGEST_FACTOR: u64 = 0x0100_0000_01b3;

/// One step of the digest: fold `v` into `h`.
pub open spec fn mixed(h: u64, v: u64) -> u64 {
    (h ^ v).wrapping_mul(DIGEST_FACTOR)
}

/// The digest of a sequence of words, first word first.
pub open spec fn digest(words: Seq<u64>) -> u64
    decreases words.len(),
{
    if words.len() == 0 {
        DIGEST_START
    } else {
        mixed(digest(words.drop_last()), words.last())
    }
}

/// A colour as one number, red in the highest byte.
pub open spec fn rgb_value(c: Rgb) -> u64 {
    (c[0] * 0x1_0000 + c[1] * 0x100 + c[2]) as u64
}

/// What one cell contributes to a digest: its character, its colours (with a
/// mark above an explicit background) and its weight.
pub open spec fn cell_words(cell: Cell) -> Seq<u64> {
    seq![
        cell.ch as u64,
        rgb_value(cell.fg),
        match cell.bg {
            Some(bg) => (0x100_0000 + rgb_value(bg)) as u64,
            None => 0,
        },
        if cell.bold {
            1
        } else {
            0
        },
    ]
}

/// What a run of cells contributes to a digest.
pub open spec fn cells_words(cells: Seq<Cell>) -> Seq<u64>
    decreases cells.len(),
{
    if cells.len() == 0 {
        Seq::empty()
    } else {
        cells_words(cells.drop_last()) + cell_words(cells.last())
    }
}

/// What a whole grid contributes to a digest: its shape, then its cells.
pub open spec fn grid_words(grid: GridView) -> Seq<u64> {
    seq![grid.cols as u64, grid.rows as u64] + cells_words(grid.cells)
}

/// The first `n` rows as text: each row's characters without trailing white
/// space, and a newline after each.
pub open spec fn rows_text(grid: GridView, n: nat) -> Seq<char>
    decreases n,
{
    if n == 0 {
        Seq::empty()
    } else {
        rows_text(grid, (n - 1) as nat) + chars::trimmed_end(
            grid.row(n - 1).map_values(|c: Cell| c.ch),
        ) + seq!['\n']
    }
}

fn mix(h: u64, v: u64) -> (r: u64)
    ensures
        r == mixed(h, v),
{
    (h ^ v).wrapping_mul(DIGEST_FACTOR)
}

fn rgb_word(c: Rgb) -> (r: u64)
    ensures
        r == rgb_value(c),
        r < 0x100_0000,
{
    (c[0] as u64) * 0x1_0000 + (c[1] as u64) * 0x100 + (c[2] as u64)
}

proof fn lemma_digest_push(words: Seq<u64>, v: u64)
    ensures
        digest(words.push(v)) == mixed(digest(words), v),
{
    assert(words.push(v).drop_last() =~= words);
}

/// Multiplying by the factor of the digest can be undone: the factor is odd,
/// so it has an inverse modulo the range of a word.
proof fn lemma_factor_invertible(a: u64)
    ensures
        (a.wrapping_mul(DIGEST_FACTOR) * 0xce96_5057_aff6_957b) % 0x1_0000_0000_0000_0000int
            == a,
{
    let m = 0x1_0000_0000_0000_0000int;
    let f = DIGEST_FACTOR as int;
    let inverse = 0xce96_5057_aff6_957bint;
    let x = a as int;
    let p = a.wrapping_mul(DIGEST_FACTOR) as int;
    let t = (x * f) / m;
    assert(x * f >= 0) by (nonlinear_arith)
        requires
            x >= 0,
            f >= 0,
    ;
    vstd::arithmetic::div_mod::lemma_fundamental_div_mod(x * f, m);
    assert(p == x * f - m * t);
    assert(f * inverse == 1 + 887285111055int * m);
    assert(p * inverse == m * (x * 887285111055int - t * inverse) + x) by (nonlinear_arith)
        requires
            p == x * f - m * t,
            f * inverse == 1 + 887285111055int * m,
    ;
    vstd::arithmetic::div_mod::lemma_mod_multiples_vanish(
        x * 887285111055int - t * inverse,
        x,
        m,
    );
    vstd::arithmetic::div_mod::lemma_small_mod(a as nat, m as nat);
}

/// One step of the digest keeps different words apart, and different digests.
proof fn lemma_mixed_injective(h: u64, v: u64, h2: u64, v2: u64)
    requires
        mixed(h, v) == mixed(h2, v2),
    ensures
        h ^ v == h2 ^ v2,
        h == h2 ==> v == v2,
        v == v2 ==> h == h2,
{
    lemma_factor_invertible(h ^ v);
    lemma_factor_invertible(h2 ^ v2);
    assert(h ^ v == h ^ v2 ==> v == v2) by (bit_vector);
    assert(h ^ v == h2 ^ v ==> h == h2) by (bit_vector);
}

/// The digest notices one changed word: two sequences that differ in exactly
/// one place have different digests.
pub proof fn the_digest_notices_one_changed_word(a: Seq<u64>, b: Seq<u64>, i: int)
    requires
        a.len() == b.len(),
        0 <= i < a.len(),
        a[i] != b[i],
        forall|k: int| 0 <= k < a.len() && k != i ==> a[k] == b[k],
    ensures
        digest(a) != digest(b),
    decreases a.len(),
{
    let x = a.drop_last();
    let y = b.drop_last();
    if digest(a) == digest(b) {
        lemma_mixed_injective(digest(x), a.last(), digest(y), b.last());
        if i == a.len() - 1 {
            assert(x =~= y);
        } else {
            assert(a[a.len() - 1] == b[b.len() - 1]);
            the_digest_notices_one_changed_word(x, y, i);
        }
    }
}

/// Each cell contributes four words.
proof fn lemma_cells_words(cells: Seq<Cell>, i: int, k: int)
    requires
        0 <= i < cells.len(),
        0 <= k < 4,
    ensures
        cells_words(cells).len() == 4 * cells.len(),
        cells_words(cells)[4 * i + k] == cell_words(cells[i])[k],
    decreases cells.len(),
{
    reveal_with_fuel(cells_words, 2);
    let head = cells.drop_last();
    if head.len() > 0 {
        let at = if i < head.len() {
            i
        } else {
            0
        };
        lemma_cells_words(head, at, k);
        assert(head[at] == cells[at]);
    }
}

/// Whether two cells differ in exactly one of their parts.
pub open spec fn differs_in_one_part(a: Cell, b: Cell) -> bool {
    ||| (a == (Cell { ch: a.ch, ..b }) && a.ch != b.ch)
    ||| (a == (Cell { fg: a.fg, ..b }) && a.fg != b.fg)
    ||| (a == (Cell { bg: a.bg, ..b }) && a.bg != b.bg)
    ||| (a == (Cell { bold: a.bold, ..b }) && a.bold != b.bold)
}

/// Different colours have different numbers.
proof fn lemma_rgb_injective(a: Rgb, b: Rgb)
    requires
        rgb_value(a) == rgb_value(b),
    ensures
        a == b,
{
    assert(a =~= b);
}

/// The checksum notices a change of the character, of either colour or of the
/// weight of one cell.
pub proof fn the_checksum_notices_one_changed_part(a: GridView, b: GridView, i: int)
    requires
        a.same_shape(b),
        a.cells.len() == b.cells.len(),
        0 <= i < a.cells.len(),
        differs_in_one_part(a.cells[i], b.cells[i]),
        forall|k: int| 0 <= k < a.cells.len() && k != i ==> a.cells[k] == b.cells[k],
    ensures
        digest(grid_words(a)) != digest(grid_words(b)),
{
    let c = a.cells[i];
    let d = b.cells[i];
    let x = cell_words(c);
    let y = cell_words(d);
    let part: int = if c.ch != d.ch {
        0
    } else if c.fg != d.fg {
        1
    } else if c.bg != d.bg {
        2
    } else {
        3
    };
    if part == 1 && x[1] == y[1] {
        lemma_rgb_injective(c.fg, d.fg);
    }
    if part == 2 {
        match (c.bg, d.bg) {
            (Some(p), Some(q)) => {
                if x[2] == y[2] {
                    lemma_rgb_injective(p, q);
                }
            },
            _ => {},
        }
    }
    assert(x[part] != y[part]);
    let v = grid_words(a);
    let w = grid_words(b);
    lemma_cells_words(a.cells, i, part);
    lemma_cells_words(b.cells, i, part);
    let at = 2 + 4 * i + part;
    assert(v[at] == x[part]);
    assert(w[at] == y[part]);
    assert forall|k: int| 0 <= k < v.len() && k != at implies v[k] == w[k] by {
        if k >= 2 {
            let n = (k - 2) / 4;
            let p = (k - 2) % 4;
            lemma_cells_words(a.cells, n, p);
            lemma_cells_words(b.cells, n, p);
        }
    }
    the_digest_notices_one_changed_word(v, w, at);
}

/// A grid with one cell set.
pub open spec fn with_set(grid: GridView, col: int, row: int, cell: Cell) -> GridView {
    GridView { cells: grid.cells.update(row * grid.cols + col, cell), ..grid }
}

/// A cell that is set reads back, and no other cell changes.
pub proof fn a_set_cell_reads_back(
    grid: GridView,
    col: int,
    row: int,
    cell: Cell,
    other_col: int,
    other_row: int,
)
    requires
        grid.wf(),
        grid.contains(col, row),
        grid.contains(other_col, other_row),
    ensures
        with_set(grid, col, row, cell).at(other_col, other_row) == if other_col == col && other_row
            == row {
            cell
        } else {
            grid.at(other_col, other_row)
        },
        with_set(grid, col, row, cell).wf(),
{
    lemma_index(grid.cols, grid.rows, col, row);
    lemma_index(grid.cols, grid.rows, other_col, other_row);
    if row * grid.cols + col == other_row * grid.cols + other_col {
        lemma_index_injective(grid.cols, col, row, other_col, other_row);
    }
}

/// A grid is row-major from the top left: its cells are those of its first row
/// from left to right, then those of its second, and so on.
pub proof fn a_grid_is_row_major(grid: GridView, col: int, row: int)
    requires
        grid.wf(),
        grid.contains(col, row),
    ensures
        grid.at(col, row) == grid.cells[row * grid.cols + col],
        grid.row(row).len() == grid.cols,
        grid.row(row)[col] == grid.cells[row * grid.cols + col],
{
    lemma_index(grid.cols, grid.rows, col, row);
}

/// A blank grid has the shape it is asked for and a plain space in every cell:
/// white, on no background of its own, and not bold.
pub proof fn a_blank_grid_is_blank_everywhere(cols: int, rows: int, i: int)
    requires
        0 <= i < cols * rows,
    ensures
        blank_grid(cols, rows).cols == cols,
        blank_grid(cols, rows).rows == rows,
        blank_grid(cols, rows).cells.len() == cols * rows,
        blank_grid(cols, rows).cells[i] == (Cell {
            ch: ' ',
            fg: [255, 255, 255],
            bg: None,
            bold: false,
        }),
{
}

/// A cell shows a glyph unless it holds a space or nothing.
pub proof fn a_space_shows_no_glyph(cell: Cell)
    ensures
        cell.ch == ' ' || cell.ch == '\0' ==> !cell.inked(),
        cell.ch != ' ' && cell.ch != '\0' ==> cell.inked(),
{
}

/// A digest takes one word at a time: what it was is crossed with the word and
/// multiplied, in sixty-four bits.
pub proof fn a_digest_takes_a_word_at_a_time(words: Seq<u64>, word: u64)
    ensures
        digest(Seq::empty()) == 0xcbf2_9ce4_8422_2325u64,
        digest(words.push(word)) == ((digest(words) ^ word) * 0x0100_0000_01b3)
            % 0x1_0000_0000_0000_0000,
{
    lemma_digest_push(words, word);
}

/// A cell counts as four words: its character, its colour, its background (one
/// bit above the colours where it has one, and nothing where it has none) and
/// its weight.
pub proof fn a_cell_counts_as_four_words(cells: Seq<Cell>, i: int)
    requires
        0 <= i < cells.len(),
    ensures
        ({
            let words = cells_words(cells);
            let cell = cells[i];
            &&& words.len() == 4 * cells.len()
            &&& words[4 * i] == cell.ch as int
            &&& words[4 * i + 1] == 65536 * cell.fg[0] + 256 * cell.fg[1] + cell.fg[2]
            &&& cell.bg is None ==> words[4 * i + 2] == 0
            &&& cell.bg is Some ==> words[4 * i + 2] == 16777216 + 65536 * cell.bg->0[0] + 256
                * cell.bg->0[1] + cell.bg->0[2]
            &&& words[4 * i + 3] == if cell.bold {
                1int
            } else {
                0int
            }
        }),
{
    lemma_cells_words(cells, i, 0);
    lemma_cells_words(cells, i, 1);
    lemma_cells_words(cells, i, 2);
    lemma_cells_words(cells, i, 3);
}

/// A grid's words are its width, its height and then its cells'.
pub proof fn a_grid_counts_its_shape_first(grid: GridView)
    requires
        grid.wf(),
    ensures
        grid_words(grid)[0] == grid.cols,
        grid_words(grid)[1] == grid.rows,
        grid_words(grid).skip(2) == cells_words(grid.cells),
{
    assert(grid_words(grid).skip(2) =~= cells_words(grid.cells));
}

} // verus!
