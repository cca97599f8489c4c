//! A parser for exactly the frames the animation engine emits, and nothing
//! else.
//!
//! The engine hands back a whole frame per call: every row of the canvas, top
//! row first, newline-separated, with one symbol per cell and a style run (an
//! SGR sequence) around any symbol that is not plain. There is no cursor
//! addressing, no scrolling, no erase, no alternate screen, so there is no
//! terminal emulator here, and deliberately so. A general emulator would bring
//! a Unicode width table with it, and a width table is wrong for this input:
//! the engine's layout invariant is one symbol per cell, including the
//! box-drawing and block symbols that several effects are built out of.
//! Consuming one `char` per cell is what keeps the parsed grid aligned with
//! the canvas the engine thinks it is drawing.
//!
//! What it does understand is the style subset the engine can emit: reset,
//! bold, italic/underline/blink/hidden/strike (parsed and dropped: the
//! rasterizer has one weight), reverse, the sixteen legacy colours, 8-bit
//! indexed colours and 24-bit true colour.

use vstd::prelude::*;

use crate::chars;
use crate::grid::{
    blank_cell, blank_grid, breaks_no_line, lemma_index, with_set, Cell, Grid, GridView, Rgb,
};

verus! {

/// Style state carried across cells within a frame.
#[derive(Clone, Copy, PartialEq, Eq, Debug)]
pub struct Pen {
    pub fg: Option<Rgb>,
    pub bg: Option<Rgb>,
    pub bold: bool,
    pub reverse: bool,
    /// Whether symbols were asked to be hidden: parsed, and dropped when a cell
    /// is drawn.
    pub hidden: bool,
}

/// The pen that a frame starts with.
pub open spec fn plain_pen() -> Pen {
    Pen { fg: None, bg: None, bold: false, reverse: false, hidden: false }
}

/// A colour, or another in its place where none is set.
pub open spec fn color_or(color: Option<Rgb>, fallback: Rgb) -> Rgb {
    match color {
        Some(c) => c,
        None => fallback,
    }
}

/// The cell a pen draws a symbol into.
///
/// Reverse video with no explicit background swaps against the surface
/// background, which the rasterizer supplies, so the symbol itself takes the
/// default foreground.
pub open spec fn penned(pen: Pen, ch: char, default_fg: Rgb) -> Cell {
    let ink = color_or(pen.fg, default_fg);
    Cell {
        ch,
        fg: if pen.reverse {
            color_or(pen.bg, Cell::DEFAULT_FG)
        } else {
            ink
        },
        bg: if pen.reverse {
            Some(ink)
        } else {
            pen.bg
        },
        bold: pen.bold,
    }
}

impl Pen {
    pub fn reset() -> (r: Pen)
        ensures
            r == plain_pen(),
    {
        Pen { fg: None, bg: None, bold: false, reverse: false, hidden: false }
    }

    /// The cell this pen would draw `ch` into, with `default_fg` standing in
    /// for an unset foreground.
    pub fn cell(&self, ch: char, default_fg: Rgb) -> (r: Cell)
        ensures
            r == penned(*self, ch, default_fg),
    {
        let ink = match self.fg {
            Some(c) => c,
            None => default_fg,
        };
        let (fg, bg) = if self.reverse {
            let under = match self.bg {
                Some(c) => c,
                None => Cell::DEFAULT_FG,
            };
            (under, Some(ink))
        } else {
            (ink, self.bg)
        };
        Cell { ch, fg, bg, bold: self.bold }
    }
}

/// The standard sixteen, in the palette most terminals ship.
pub const ANSI_16: [Rgb; 16] = [
    [0, 0, 0],
    [205, 0, 0],
    [0, 205, 0],
    [205, 205, 0],
    [0, 0, 238],
    [205, 0, 205],
    [0, 205, 205],
    [229, 229, 229],
    [127, 127, 127],
    [255, 0, 0],
    [0, 255, 0],
    [255, 255, 0],
    [92, 92, 255],
    [255, 0, 255],
    [0, 255, 255],
    [255, 255, 255],
];

/// One level of the colour cube: zero, then steps of forty from 95.
pub open spec fn cube_level(k: int) -> u8 {
    if k == 0 {
        0
    } else {
        (55 + 40 * k) as u8
    }
}

/// An entry of xterm's palette.
pub open spec fn palette(index: u8) -> Rgb {
    if index < 16 {
        ANSI_16[index as int]
    } else if index < 232 {
        let i = index - 16;
        [cube_level(i / 36), cube_level((i / 6) % 6), cube_level(i % 6)]
    } else {
        let v = (8 + (index - 232) * 10) as u8;
        [v, v, v]
    }
}

fn level(k: u8) -> (r: u8)
    requires
        k < 6,
    ensures
        r == cube_level(k as int),
{
    if k == 0 {
        0
    } else {
        55 + 40 * k
    }
}

/// xterm's 256-colour palette: sixteen system colours, a 6x6x6 cube, then a
/// 24-step grey ramp.
pub fn xterm_256(index: u8) -> (r: Rgb)
    ensures
        r == palette(index),
{
    if index < 16 {
        ANSI_16[index as usize]
    } else if index < 232 {
        let i: u8 = index - 16;
        [level(i / 36), level((i / 6) % 6), level(i % 6)]
    } else {
        let v: u8 = 8 + (index - 232) * 10;
        [v, v, v]
    }
}

/// The number in one field of a style sequence.
pub open spec fn field_number(parts: Seq<Seq<char>>, i: int, max: int) -> Option<int> {
    if 0 <= i < parts.len() {
        chars::numeral(parts[i], max)
    } else {
        None
    }
}

/// One channel of a true colour: missing and malformed ones read as zero.
pub open spec fn channel(parts: Seq<Seq<char>>, i: int) -> u8 {
    match field_number(parts, i, u8::MAX as int) {
        Some(v) => v as u8,
        None => 0,
    }
}

/// How many fields the tail of a `38` or a `48` takes: the kind, and whatever
/// that kind names a colour by, well-formed or not. A field that is no number
/// is no kind, and begins no tail.
pub open spec fn tail_len(parts: Seq<Seq<char>>, i: int) -> int {
    match field_number(parts, i, u32::MAX as int) {
        Some(kind) => if kind == 2 {
            4
        } else if kind == 5 {
            2
        } else {
            1
        },
        None => 0,
    }
}

/// The colour that the tail of a `38` or a `48` names: `2;r;g;b` by its
/// channels and `5;n` by an entry of the palette.
pub open spec fn tail_color(parts: Seq<Seq<char>>, i: int) -> Option<Rgb> {
    match field_number(parts, i, u32::MAX as int) {
        Some(kind) => if kind == 2 {
            Some([channel(parts, i + 1), channel(parts, i + 2), channel(parts, i + 3)])
        } else if kind == 5 {
            match field_number(parts, i + 1, u8::MAX as int) {
                Some(index) => Some(palette(index as u8)),
                None => None,
            }
        } else {
            None
        },
        None => None,
    }
}

/// A pen after one style code, other than those a colour follows.
pub open spec fn coded(pen: Pen, code: int) -> Pen {
    if code == 0 {
        plain_pen()
    } else if code == 1 {
        Pen { bold: true, ..pen }
    } else if code == 7 {
        Pen { reverse: true, ..pen }
    } else if code == 8 {
        Pen { hidden: true, ..pen }
    } else if code == 21 || code == 22 {
        Pen { bold: false, ..pen }
    } else if code == 27 {
        Pen { reverse: false, ..pen }
    } else if code == 28 {
        Pen { hidden: false, ..pen }
    } else if 30 <= code <= 37 {
        Pen { fg: Some(ANSI_16[code - 30]), ..pen }
    } else if code == 39 {
        Pen { fg: None, ..pen }
    } else if 40 <= code <= 47 {
        Pen { bg: Some(ANSI_16[code - 40]), ..pen }
    } else if code == 49 {
        Pen { bg: None, ..pen }
    } else if 90 <= code <= 97 {
        Pen { fg: Some(ANSI_16[code - 90 + 8]), ..pen }
    } else if 100 <= code <= 107 {
        Pen { bg: Some(ANSI_16[code - 100 + 8]), ..pen }
    } else {
        pen
    }
}

/// The style code in one field; what is no number reads as zero.
pub open spec fn style_code(parts: Seq<Seq<char>>, i: int) -> int {
    match field_number(parts, i, u32::MAX as int) {
        Some(v) => v,
        None => 0,
    }
}

/// A pen after the fields of a style sequence from the `i`th on.
pub open spec fn coded_from(pen: Pen, parts: Seq<Seq<char>>, i: int) -> Pen
    decreases
            if i < parts.len() {
                parts.len() - i
            } else {
                0
            },
{
    if i >= parts.len() {
        pen
    } else {
        let code = style_code(parts, i);
        if code == 38 {
            coded_from(
                Pen { fg: tail_color(parts, i + 1), ..pen },
                parts,
                i + 1 + tail_len(parts, i + 1),
            )
        } else if code == 48 {
            coded_from(
                Pen { bg: tail_color(parts, i + 1), ..pen },
                parts,
                i + 1 + tail_len(parts, i + 1),
            )
        } else {
            coded_from(coded(pen, code), parts, i + 1)
        }
    }
}

/// A pen after a style sequence. One without parameters is a reset.
pub open spec fn styled(pen: Pen, params: Seq<char>) -> Pen {
    if params.len() == 0 {
        plain_pen()
    } else {
        coded_from(pen, chars::fields(params, ';'), 0)
    }
}

fn number_at(parts: &Vec<Vec<char>>, i: usize, max: u32) -> (r: Option<u32>)
    ensures
        match r {
            Some(v) => field_number(chars::texts(parts@), i as int, max as int) == Some(v as int),
            None => field_number(chars::texts(parts@), i as int, max as int) is None,
        },
{
    if i < parts.len() {
        chars::parse_number(parts[i].as_slice(), max)
    } else {
        None
    }
}

fn channel_at(parts: &Vec<Vec<char>>, i: usize, offset: usize) -> (r: u8)
    requires
        i < parts@.len(),
    ensures
        r == channel(chars::texts(parts@), i + offset),
{
    if offset >= parts.len() - i {
        return 0;
    }
    match number_at(parts, i + offset, 255) {
        Some(v) => v as u8,
        None => 0,
    }
}

/// The `38;...` / `48;...` tail: `2;r;g;b` or `5;n`. Returns the colour and the
/// field past whatever it consumed (the end, where the fields run out), so a
/// malformed tail cannot make the caller reinterpret colour channels as style
/// codes.
pub fn take_extended_color(parts: &Vec<Vec<char>>, i: usize) -> (r: (Option<Rgb>, usize))
    requires
        i <= parts@.len(),
    ensures
        r.0 == tail_color(chars::texts(parts@), i as int),
        ({
            let next = i + tail_len(chars::texts(parts@), i as int);
            r.1 == if next <= parts@.len() {
                next
            } else {
                parts@.len() as int
            }
        }),
        i <= r.1,
{
    let n: usize = parts.len();
    let (color, taken): (Option<Rgb>, usize) = match number_at(parts, i, u32::MAX) {
        Some(2) => {
            let channels: Rgb = [
                channel_at(parts, i, 1),
                channel_at(parts, i, 2),
                channel_at(parts, i, 3),
            ];
            (Some(channels), 4)
        },
        Some(5) => {
            let color = match number_at(parts, i + 1, 255) {
                Some(index) => Some(xterm_256(index as u8)),
                None => None,
            };
            (color, 2)
        },
        Some(_) => (None, 1),
        None => (None, 0),
    };
    if n - i >= taken {
        (color, i + taken)
    } else {
        (color, n)
    }
}

fn apply_code(pen: &mut Pen, code: u32)
    ensures
        *final(pen) == coded(*old(pen), code as int),
{
    if code == 0 {
        *pen = Pen::reset();
    } else if code == 1 {
        pen.bold = true;
    } else if code == 7 {
        pen.reverse = true;
    } else if code == 8 {
        pen.hidden = true;
    } else if code == 21 || code == 22 {
        pen.bold = false;
    } else if code == 27 {
        pen.reverse = false;
    } else if code == 28 {
        pen.hidden = false;
    } else if 30 <= code && code <= 37 {
        pen.fg = Some(ANSI_16[(code - 30) as usize]);
    } else if code == 39 {
        pen.fg = None;
    } else if 40 <= code && code <= 47 {
        pen.bg = Some(ANSI_16[(code - 40) as usize]);
    } else if code == 49 {
        pen.bg = None;
    } else if 90 <= code && code <= 97 {
        pen.fg = Some(ANSI_16[(code - 90 + 8) as usize]);
    } else if 100 <= code && code <= 107 {
        pen.bg = Some(ANSI_16[(code - 100 + 8) as usize]);
    }
}

/// Apply the parameters of a style sequence to the pen.
pub fn apply_sgr(pen: &mut Pen, params: &[char])
    ensures
        *final(pen) == styled(*old(pen), params@),
{
    // A bare `ESC[m` is `ESC[0m`.
    if params.len() == 0 {
        *pen = Pen::reset();
        return;
    }
    let parts = chars::split(params, ';');
    let ghost fields = chars::texts(parts@);
    let mut i: usize = 0;
    while i < parts.len()
        invariant
            i <= parts@.len(),
            fields == chars::texts(parts@),
            coded_from(*old(pen), fields, 0) == coded_from(*pen, fields, i as int),
        decreases parts@.len() - i,
    {
        let code: u32 = match number_at(&parts, i, u32::MAX) {
            Some(code) => code,
            None => 0,
        };
        if code == 38 {
            let (color, next) = take_extended_color(&parts, i + 1);
            pen.fg = color;
            proof {
                lemma_past_the_end(*pen, fields, i + 1 + tail_len(fields, i + 1));
            }
            i = next;
        } else if code == 48 {
            let (color, next) = take_extended_color(&parts, i + 1);
            pen.bg = color;
            proof {
                lemma_past_the_end(*pen, fields, i + 1 + tail_len(fields, i + 1));
            }
            i = next;
        } else {
            apply_code(pen, code);
            i += 1;
        }
    }
}

/// Past the last field there is nothing left to apply.
proof fn lemma_past_the_end(pen: Pen, parts: Seq<Seq<char>>, i: int)
    ensures
        i >= parts.len() ==> coded_from(pen, parts, i) == coded_from(
            pen,
            parts,
            parts.len() as int,
        ),
{
}

/// What a frame is made of, once it is cut up.
pub enum Token {
    /// The parameters of a style sequence.
    Style(Seq<char>),
    /// The end of a row.
    Newline,
    /// Back to the first column.
    Return,
    /// One symbol, for one cell.
    Symbol(char),
}

/// The character that starts an escape sequence.
pub const ESCAPE: char = '\x1b';

/// Whether a character belongs to the parameters of a control sequence.
pub open spec fn is_param(c: char) -> bool {
    chars::is_decimal_digit(c) || c == ';' || c == ':' || c == '?'
}

/// Where the parameters that start at `i` end.
pub open spec fn params_end(s: Seq<char>, i: int) -> int
    decreases s.len() - i,
{
    if 0 <= i < s.len() && is_param(s[i]) {
        params_end(s, i + 1)
    } else {
        i
    }
}

/// The token a character is, outside an escape sequence.
pub open spec fn token_of(c: char) -> Token {
    if c == '\n' {
        Token::Newline
    } else if c == '\r' {
        Token::Return
    } else {
        Token::Symbol(c)
    }
}

/// How many characters the escape sequence at the start of a text takes.
///
/// A control sequence (`ESC [`) takes its parameters and one final character,
/// any other escape sequence one character after the escape; a text that ends
/// early ends the sequence.
pub open spec fn escape_len(s: Seq<char>) -> int {
    let end = if s.len() > 1 && s[1] == '[' {
        params_end(s, 2) + 1
    } else {
        2
    };
    if end <= s.len() {
        end
    } else {
        s.len() as int
    }
}

/// Whether the escape sequence at the start of a text sets the style: a
/// control sequence whose final character is `m`.
pub open spec fn sets_style(s: Seq<char>) -> bool {
    &&& s.len() > 1
    &&& s[1] == '['
    &&& params_end(s, 2) < s.len()
    &&& s[params_end(s, 2)] == 'm'
}

/// Cut a frame into tokens. Escape sequences other than those that set the
/// style leave no token.
pub open spec fn tokens(s: Seq<char>) -> Seq<Token>
    decreases s.len(),
{
    if s.len() == 0 {
        Seq::empty()
    } else if s[0] == ESCAPE {
        let n = escape_len(s);
        if n <= 0 {
            Seq::empty()
        } else {
            let rest = tokens(s.skip(n));
            if sets_style(s) {
                seq![Token::Style(s.subrange(2, params_end(s, 2)))] + rest
            } else {
                rest
            }
        }
    } else {
        seq![token_of(s[0])] + tokens(s.skip(1))
    }
}

/// A canvas being drawn: its cells, and where the next symbol goes and how.
pub struct Canvas {
    pub grid: GridView,
    pub pen: Pen,
    pub col: int,
    pub row: int,
}

/// A grid with the rest of a row blank from a column on.
pub open spec fn blanked(grid: GridView, row: int, from: int) -> GridView {
    GridView {
        cells: Seq::new(
            grid.cells.len(),
            |i: int|
                if row * grid.cols + from <= i < row * grid.cols + grid.cols {
                    blank_cell()
                } else {
                    grid.cells[i]
                },
        ),
        ..grid
    }
}

/// A grid with one cell set, if the position lies in it.
pub open spec fn placed(grid: GridView, col: int, row: int, cell: Cell) -> GridView {
    if grid.contains(col, row) {
        with_set(grid, col, row, cell)
    } else {
        grid
    }
}

/// What one token does to a canvas.
pub open spec fn stepped(c: Canvas, token: Token, default_fg: Rgb) -> Canvas {
    match token {
        Token::Style(params) => Canvas { pen: styled(c.pen, params), ..c },
        Token::Newline => Canvas {
            grid: blanked(c.grid, c.row, c.col),
            col: 0,
            row: c.row + 1,
            ..c
        },
        Token::Return => Canvas { col: 0, ..c },
        Token::Symbol(ch) => Canvas {
            grid: placed(c.grid, c.col, c.row, penned(c.pen, ch, default_fg)),
            col: c.col + 1,
            ..c
        },
    }
}

/// What a sequence of tokens does to a canvas.
pub open spec fn drawn(c: Canvas, tokens: Seq<Token>, default_fg: Rgb) -> Canvas
    decreases tokens.len(),
{
    if tokens.len() == 0 {
        c
    } else {
        drawn(stepped(c, tokens[0], default_fg), tokens.skip(1), default_fg)
    }
}

/// A grid with everything blank that comes at or after a position.
pub open spec fn cleared(grid: GridView, col: int, row: int) -> GridView {
    GridView {
        cells: Seq::new(
            grid.cells.len(),
            |i: int|
                if row * grid.cols + (if col < grid.cols {
                    col
                } else {
                    grid.cols
                }) <= i {
                    blank_cell()
                } else {
                    grid.cells[i]
                },
        ),
        ..grid
    }
}

/// The canvas a frame starts on.
pub open spec fn opened(grid: GridView) -> Canvas {
    Canvas { grid, pen: plain_pen(), col: 0, row: 0 }
}

/// The canvas a frame leaves: its tokens drawn in order, and what it did not
/// reach blanked.
pub open spec fn parsed(frame: Seq<char>, grid: GridView, default_fg: Rgb) -> Canvas {
    let c = drawn(opened(grid), tokens(frame), default_fg);
    Canvas { grid: cleared(c.grid, c.col, c.row), ..c }
}

/// Whether a frame changes anything on a grid.
pub open spec fn changes(frame: Seq<char>, grid: GridView, default_fg: Rgb) -> bool {
    parsed(frame, grid, default_fg).grid != grid
}

/// Whether two grids of one shape hold other cells.
fn differs(a: &Grid, b: &Grid) -> (r: bool)
    requires
        a.wf(),
        b.wf(),
        a@.same_shape(b@),
    ensures
        r == (a@ != b@),
{
    let mine = a.cells();
    let theirs = b.cells();
    let mut i: usize = 0;
    while i < mine.len()
        invariant
            i <= mine@.len(),
            mine@ == a@.cells,
            theirs@ == b@.cells,
            mine@.len() == theirs@.len(),
            forall|k: int| 0 <= k < i ==> mine@[k] == theirs@[k],
        decreases mine@.len() - i,
    {
        if mine[i] != theirs[i] {
            return true;
        }
        i += 1;
    }
    proof {
        assert(a@ =~= b@);
    }
    false
}

/// Blank the rest of a row from a column on.
fn blank_from(grid: &mut Grid, row: usize, from: usize)
    requires
        old(grid).wf(),
        row < old(grid)@.rows,
    ensures
        final(grid).wf(),
        final(grid)@ == blanked(old(grid)@, row as int, from as int),
{
    let cols: usize = grid.cols();
    let ghost first = grid@;
    let ghost base = row * cols;
    let mut col: usize = from;
    proof {
        if cols > 0 {
            lemma_index(first.cols, first.rows, 0, row as int);
        }
        assert(row * cols >= 0) by (nonlinear_arith);
    }
    while col < cols
        invariant
            from <= col,
            col <= cols || col == from,
            grid.wf(),
            grid@.same_shape(first),
            first.wf(),
            cols == first.cols,
            row < first.rows,
            base == row * cols,
            0 <= base,
            cols > 0 ==> base + cols <= first.cells.len(),
            forall|i: int|
                0 <= i < first.cells.len() ==> #[trigger] grid@.cells[i] == if base + from <= i
                    < base + col {
                    blank_cell()
                } else {
                    first.cells[i]
                },
        decreases cols - col,
    {
        grid.set(col, row, Cell::blank());
        col += 1;
    }
    proof {
        assert(grid@ =~= blanked(first, row as int, from as int));
    }
}

/// The parameters of a text without its first characters.
proof fn lemma_params_skip(s: Seq<char>, n: int, i: int)
    requires
        0 <= n,
        0 <= i,
        n + i <= s.len(),
    ensures
        params_end(s.skip(n), i) == params_end(s, n + i) - n,
    decreases s.len() - n - i,
{
    if n + i < s.len() {
        assert(s.skip(n)[i] == s[n + i]);
        if is_param(s[n + i]) {
            lemma_params_skip(s, n, i + 1);
        }
    }
}

/// Drawing one token and then the others is drawing them all.
proof fn lemma_drawn_one(c: Canvas, token: Token, rest: Seq<Token>, default_fg: Rgb)
    ensures
        drawn(c, seq![token] + rest, default_fg) == drawn(
            stepped(c, token, default_fg),
            rest,
            default_fg,
        ),
{
    assert((seq![token] + rest).skip(1) =~= rest);
}

/// Where the parameters that start at `i` end.
fn find_params_end(s: &[char], i: usize) -> (end: usize)
    requires
        i <= s@.len(),
    ensures
        end == params_end(s@, i as int),
        i <= end <= s@.len(),
{
    let mut end: usize = i;
    while end < s.len() && (('0' <= s[end] && s[end] <= '9') || s[end] == ';' || s[end] == ':'
        || s[end] == '?')
        invariant
            i <= end <= s@.len(),
            params_end(s@, i as int) == params_end(s@, end as int),
        decreases s@.len() - end,
    {
        end += 1;
    }
    end
}

/// Parses engine frames into a [`Grid`].
pub struct Parser {
    pub default_fg: Rgb,
}

impl Parser {
    pub fn new(default_fg: Rgb) -> (r: Parser)
        ensures
            r.default_fg == default_fg,
    {
        Parser { default_fg }
    }

    /// Overwrite `grid` with `frame`. Returns whether anything changed, so the
    /// caller can drop an identical frame before it costs a rasterization.
    ///
    /// Cells the frame does not mention are blanked: a frame is complete by
    /// construction, so anything left over is from the frame before it.
    pub fn parse_into(&self, frame: &str, grid: &mut Grid) -> (changed: bool)
        requires
            old(grid).wf(),
        ensures
            final(grid).wf(),
            final(grid)@.same_shape(old(grid)@),
            final(grid)@ == parsed(frame@, old(grid)@, self.default_fg).grid,
            changed == (final(grid)@ != old(grid)@),
    {
        let text = chars::to_chars(frame);
        let ghost whole = frame@;
        let ghost first = grid@;
        let ghost goal = drawn(opened(first), tokens(whole), self.default_fg);
        let cols: usize = grid.cols();
        let rows: usize = grid.rows();
        let previous = grid.clone();
        let mut pen = Pen::reset();
        let mut col: usize = 0;
        let mut row: usize = 0;
        let mut i: usize = 0;
        proof {
            assert(whole.skip(0) =~= whole);
        }
        while i < text.len()
            invariant
                text@ == whole,
                i <= text@.len(),
                col <= i,
                row <= i,
                grid.wf(),
                grid@.same_shape(first),
                cols == first.cols,
                rows == first.rows,
                goal == drawn(
                    (Canvas { grid: grid@, pen, col: col as int, row: row as int }),
                    tokens(whole.skip(i as int)),
                    self.default_fg,
                ),
            decreases text@.len() - i,
        {
            let ghost rest = whole.skip(i as int);
            let ghost before = Canvas { grid: grid@, pen, col: col as int, row: row as int };
            let ch = text[i];
            if ch == ESCAPE {
                // Only style sequences are meaningful here. Anything else is
                // consumed to its final character and ignored, so a stray
                // sequence cannot desynchronise the column counter.
                let left: usize = text.len() - i;
                if left > 1 && text[i + 1] == '[' {
                    let end: usize = find_params_end(text.as_slice(), i + 2);
                    proof {
                        lemma_params_skip(whole, i as int, 2);
                        assert(rest.subrange(2, params_end(rest, 2)) =~= whole.subrange(
                            i + 2,
                            end as int,
                        ));
                    }
                    if end < text.len() {
                        if text[end] == 'm' {
                            let params = vstd::slice::slice_subrange(
                                text.as_slice(),
                                i + 2,
                                end,
                            );
                            apply_sgr(&mut pen, params);
                            proof {
                                lemma_drawn_one(
                                    before,
                                    Token::Style(params@),
                                    tokens(rest.skip(escape_len(rest))),
                                    self.default_fg,
                                );
                            }
                        }
                        proof {
                            assert(rest.skip(escape_len(rest)) =~= whole.skip(end + 1));
                        }
                        i = end + 1;
                    } else {
                        proof {
                            assert(rest.skip(escape_len(rest)) =~= whole.skip(end as int));
                        }
                        i = end;
                    }
                } else {
                    // Two-character escape; drop its second character.
                    let n: usize = if left > 1 {
                        2
                    } else {
                        1
                    };
                    proof {
                        assert(rest.skip(escape_len(rest)) =~= whole.skip(i + n));
                    }
                    i += n;
                }
            } else {
                proof {
                    assert(rest.skip(1) =~= whole.skip(i + 1));
                    lemma_drawn_one(before, token_of(ch), tokens(rest.skip(1)), self.default_fg);
                }
                if ch == '\n' {
                    if row < rows {
                        blank_from(grid, row, col);
                    } else {
                        proof {
                            lemma_nothing_below(grid@, row as int, col as int);
                        }
                    }
                    row += 1;
                    col = 0;
                } else if ch == '\r' {
                    col = 0;
                } else {
                    if row < rows && col < cols {
                        let cell = pen.cell(ch, self.default_fg);
                        proof {
                            lemma_index(grid@.cols, grid@.rows, col as int, row as int);
                        }
                        grid.set(col, row, cell);
                    }
                    col += 1;
                }
                i += 1;
            }
        }
        let ghost end = grid@;
        proof {
            assert(whole.skip(i as int) =~= Seq::<char>::empty());
        }
        // Rows the frame never reached still have to be blanked.
        let mut r: usize = row;
        let mut from: usize = col;
        while r < rows
            invariant
                row <= r,
                row < rows ==> r <= rows,
                row >= rows ==> r == row,
                r == row ==> from == col,
                r > row ==> from == 0,
                grid.wf(),
                end.wf(),
                grid@.same_shape(end),
                cols == end.cols,
                rows == end.rows,
                cleared_above(grid@, end, col as int, row as int, r as int),
            decreases rows - r,
        {
            let ghost mid = grid@;
            blank_from(grid, r, from);
            proof {
                lemma_clear_row(end, mid, col as int, row as int, r as int, from as int);
            }
            r += 1;
            from = 0;
        }
        proof {
            lemma_all_cleared(end, grid@, col as int, row as int, r as int);
        }
        differs(grid, &previous)
    }
}

/// Below the last row there is nothing to blank.
proof fn lemma_nothing_below(grid: GridView, row: int, from: int)
    requires
        grid.wf(),
        row >= grid.rows,
        from >= 0,
    ensures
        blanked(grid, row, from) == grid,
{
    assert(row * grid.cols >= grid.cols * grid.rows) by (nonlinear_arith)
        requires
            row >= grid.rows,
            grid.cols >= 0,
    ;
    assert(blanked(grid, row, from) =~= grid);
}

/// Whether a cell comes at or after a position and above row `r`.
spec fn cleared_at(grid: GridView, col: int, row: int, r: int, k: int) -> bool {
    &&& r > row
    &&& row * grid.cols + (if col < grid.cols {
        col
    } else {
        grid.cols
    }) <= k
    &&& k < r * grid.cols
}

/// Whether a grid is another one with the cells blank that come at or after a
/// position and above row `r`.
spec fn cleared_above(grid: GridView, end: GridView, col: int, row: int, r: int) -> bool {
    forall|k: int|
        0 <= k < end.cells.len() ==> #[trigger] grid.cells[k] == if cleared_at(
            end,
            col,
            row,
            r,
            k,
        ) {
            blank_cell()
        } else {
            end.cells[k]
        }
}

/// Blanking one more row clears one row more.
proof fn lemma_clear_row(end: GridView, mid: GridView, col: int, row: int, r: int, from: int)
    requires
        end.wf(),
        mid.wf(),
        mid.same_shape(end),
        cleared_above(mid, end, col, row, r),
        0 <= row <= r < end.rows,
        0 <= col,
        from == if r == row {
            col
        } else {
            0
        },
    ensures
        cleared_above(blanked(mid, r, from), end, col, row, r + 1),
{
    let next = blanked(mid, r, from);
    assert((r + 1) * end.cols == r * end.cols + end.cols) by (nonlinear_arith);
    assert(row * end.cols <= r * end.cols) by (nonlinear_arith)
        requires
            row <= r,
            end.cols >= 0,
    ;
    if row < r {
        assert(row * end.cols + end.cols <= r * end.cols) by (nonlinear_arith)
            requires
                row + 1 <= r,
                end.cols >= 0,
        ;
    }
    assert forall|k: int| 0 <= k < end.cells.len() implies #[trigger] next.cells[k]
        == if cleared_at(end, col, row, r + 1, k) {
        blank_cell()
    } else {
        end.cells[k]
    } by {
        assert(mid.cells[k] == if cleared_at(end, col, row, r, k) {
            blank_cell()
        } else {
            end.cells[k]
        });
    }
}

/// Once every row is done, everything past the position is clear.
proof fn lemma_all_cleared(end: GridView, grid: GridView, col: int, row: int, r: int)
    requires
        end.wf(),
        grid.wf(),
        grid.same_shape(end),
        cleared_above(grid, end, col, row, r),
        0 <= row <= r,
        0 <= col,
        r >= end.rows,
        row >= end.rows ==> r == row,
    ensures
        grid == cleared(end, col, row),
{
    assert(r * end.cols >= end.cols * end.rows) by (nonlinear_arith)
        requires
            r >= end.rows,
            end.cols >= 0,
    ;
    assert(grid =~= cleared(end, col, row));
}

/// How far into a grid a canvas has got, reading row by row.
spec fn frontier(c: Canvas) -> int {
    c.row * c.grid.cols + if c.col < c.grid.cols {
        c.col
    } else {
        c.grid.cols
    }
}

/// Whether a canvas has a sound position on a sound grid.
spec fn sound(c: Canvas) -> bool {
    c.grid.wf() && 0 <= c.col && 0 <= c.row
}

/// A step keeps the shape and touches nothing before the frontier.
proof fn lemma_step(c: Canvas, token: Token, default_fg: Rgb)
    requires
        sound(c),
    ensures
        sound(stepped(c, token, default_fg)),
        stepped(c, token, default_fg).grid.same_shape(c.grid),
        !(token is Return) ==> frontier(c) <= frontier(stepped(c, token, default_fg)),
        forall|i: int|
            0 <= i < frontier(c) && i < c.grid.cells.len() ==> #[trigger] stepped(
                c,
                token,
                default_fg,
            ).grid.cells[i] == c.grid.cells[i],
        forall|i: int|
            frontier(stepped(c, token, default_fg)) <= i < c.grid.cells.len()
                && !(token is Return) ==> #[trigger] stepped(c, token, default_fg).grid.cells[i]
                == c.grid.cells[i],
{
    let cols = c.grid.cols;
    assert((c.row + 1) * cols == c.row * cols + cols) by (nonlinear_arith);
    assert(0 <= c.row * cols) by (nonlinear_arith)
        requires
            0 <= c.row,
            0 <= cols,
    ;
    if c.grid.contains(c.col, c.row) {
        lemma_index(cols, c.grid.rows, c.col, c.row);
    }
}

/// Two canvases that agree before the frontier agree there after a step.
proof fn lemma_step_agrees(a: Canvas, b: Canvas, token: Token, default_fg: Rgb)
    requires
        sound(a),
        sound(b),
        agree(a, b),
    ensures
        agree(stepped(a, token, default_fg), stepped(b, token, default_fg)),
{
    let x = stepped(a, token, default_fg);
    let y = stepped(b, token, default_fg);
    let cols = a.grid.cols;
    assert((a.row + 1) * cols == a.row * cols + cols) by (nonlinear_arith);
    assert(0 <= a.row * cols) by (nonlinear_arith)
        requires
            0 <= a.row,
            0 <= cols,
    ;
    if a.row >= a.grid.rows {
        assert(a.row * cols >= cols * a.grid.rows) by (nonlinear_arith)
            requires
                a.row >= a.grid.rows,
                cols >= 0,
        ;
    }
    if a.grid.contains(a.col, a.row) {
        lemma_index(cols, a.grid.rows, a.col, a.row);
    }
    assert forall|i: int| 0 <= i < x.grid.cells.len() && i < frontier(x) implies
        #[trigger] x.grid.cells[i] == y.grid.cells[i] by {
        if i < frontier(a) {
            assert(a.grid.cells[i] == b.grid.cells[i]);
        }
    }
}

/// Whether two canvases stand at the same place with the same pen, and hold
/// the same cells before it.
spec fn agree(a: Canvas, b: Canvas) -> bool {
    &&& a.pen == b.pen
    &&& a.col == b.col
    &&& a.row == b.row
    &&& a.grid.same_shape(b.grid)
    &&& forall|i: int|
        0 <= i < a.grid.cells.len() && i < frontier(a) ==> #[trigger] a.grid.cells[i]
            == b.grid.cells[i]
}

proof fn lemma_drawn_agrees(a: Canvas, b: Canvas, tokens: Seq<Token>, default_fg: Rgb)
    requires
        sound(a),
        sound(b),
        agree(a, b),
    ensures
        sound(drawn(a, tokens, default_fg)),
        sound(drawn(b, tokens, default_fg)),
        agree(drawn(a, tokens, default_fg), drawn(b, tokens, default_fg)),
        drawn(a, tokens, default_fg).grid.same_shape(a.grid),
    decreases tokens.len(),
{
    if tokens.len() > 0 {
        lemma_step(a, tokens[0], default_fg);
        lemma_step(b, tokens[0], default_fg);
        lemma_step_agrees(a, b, tokens[0], default_fg);
        lemma_drawn_agrees(
            stepped(a, tokens[0], default_fg),
            stepped(b, tokens[0], default_fg),
            tokens.skip(1),
            default_fg,
        );
    }
}

/// A frame is complete: what a grid holds after it depends on the frame and on
/// the grid's shape, never on what the grid held before.
pub proof fn a_frame_is_complete(frame: Seq<char>, a: GridView, b: GridView, default_fg: Rgb)
    requires
        a.wf(),
        b.wf(),
        a.same_shape(b),
    ensures
        parsed(frame, a, default_fg).grid == parsed(frame, b, default_fg).grid,
{
    lemma_drawn_agrees(opened(a), opened(b), tokens(frame), default_fg);
    assert(parsed(frame, a, default_fg).grid =~= parsed(frame, b, default_fg).grid);
}

/// A frame keeps the shape of the grid it is drawn on.
pub proof fn a_frame_keeps_the_shape(frame: Seq<char>, grid: GridView, default_fg: Rgb)
    requires
        grid.wf(),
    ensures
        parsed(frame, grid, default_fg).grid.wf(),
        parsed(frame, grid, default_fg).grid.same_shape(grid),
{
    lemma_drawn_agrees(opened(grid), opened(grid), tokens(frame), default_fg);
}

/// A change is reported exactly if some cell ends up as it was not before.
pub proof fn a_change_is_reported_exactly(frame: Seq<char>, grid: GridView, default_fg: Rgb)
    requires
        grid.wf(),
    ensures
        changes(frame, grid, default_fg) == exists|i: int|
            0 <= i < grid.cells.len() && #[trigger] parsed(frame, grid, default_fg).grid.cells[i]
                != grid.cells[i],
{
    let after = parsed(frame, grid, default_fg).grid;
    a_frame_keeps_the_shape(frame, grid, default_fg);
    if forall|i: int| 0 <= i < grid.cells.len() ==> #[trigger] after.cells[i] == grid.cells[i] {
        assert(after =~= grid);
    }
}

/// An identical frame reports no change: drawn again over what it left, a
/// frame changes nothing.
pub proof fn an_identical_frame_reports_no_change(
    frame: Seq<char>,
    grid: GridView,
    default_fg: Rgb,
)
    requires
        grid.wf(),
    ensures
        !changes(frame, parsed(frame, grid, default_fg).grid, default_fg),
{
    a_frame_keeps_the_shape(frame, grid, default_fg);
    a_frame_is_complete(frame, grid, parsed(frame, grid, default_fg).grid, default_fg);
}

/// Drawing puts no line break in a cell.
proof fn lemma_drawn_breaks_no_line(c: Canvas, frame: Seq<char>, default_fg: Rgb)
    requires
        sound(c),
        breaks_no_line(c.grid),
    ensures
        breaks_no_line(drawn(c, tokens(frame), default_fg).grid),
    decreases frame.len(),
{
    if frame.len() > 0 {
        if frame[0] == ESCAPE {
            let n = escape_len(frame);
            lemma_params_end(frame, 2);
            let rest = tokens(frame.skip(n));
            if sets_style(frame) {
                let style = Token::Style(frame.subrange(2, params_end(frame, 2)));
                lemma_drawn_one(c, style, rest, default_fg);
                lemma_drawn_breaks_no_line(
                    stepped(c, style, default_fg),
                    frame.skip(n),
                    default_fg,
                );
            } else {
                lemma_drawn_breaks_no_line(c, frame.skip(n), default_fg);
            }
        } else {
            let token = token_of(frame[0]);
            lemma_drawn_one(c, token, tokens(frame.skip(1)), default_fg);
            lemma_step(c, token, default_fg);
            lemma_drawn_breaks_no_line(
                stepped(c, token, default_fg),
                frame.skip(1),
                default_fg,
            );
        }
    }
}

/// No cell ever holds a line break: a frame ends its rows with them and draws
/// none.
pub proof fn a_frame_puts_no_line_break_in_a_cell(
    frame: Seq<char>,
    grid: GridView,
    default_fg: Rgb,
)
    requires
        grid.wf(),
    ensures
        breaks_no_line(parsed(frame, grid, default_fg).grid),
{
    let blank = blank_grid(grid.cols, grid.rows);
    assert(grid.cols * grid.rows >= 0) by (nonlinear_arith)
        requires
            grid.cols >= 0,
            grid.rows >= 0,
    ;
    a_frame_is_complete(frame, grid, blank, default_fg);
    lemma_drawn_breaks_no_line(opened(blank), frame, default_fg);
}

/// Whether a frame is plain: symbols and newlines only.
pub open spec fn is_plain(frame: Seq<char>) -> bool {
    forall|i: int| 0 <= i < frame.len() ==> #[trigger] frame[i] != ESCAPE && frame[i] != '\r'
}

proof fn lemma_plain_tokens(s: Seq<char>)
    requires
        is_plain(s),
    ensures
        tokens(s) == s.map_values(|c: char| token_of(c)),
    decreases s.len(),
{
    let t = s.map_values(|c: char| token_of(c));
    if s.len() > 0 {
        let rest = s.skip(1);
        assert(s[0] != ESCAPE);
        assert forall|i: int| 0 <= i < rest.len() implies #[trigger] rest[i] != ESCAPE && rest[i]
            != '\r' by {
            assert(rest[i] == s[i + 1]);
        }
        lemma_plain_tokens(rest);
        assert(seq![token_of(s[0])] + rest.map_values(|c: char| token_of(c)) =~= t);
    } else {
        assert(tokens(s) =~= t);
    }
}

/// Drawing tokens and then one more is drawing them all.
proof fn lemma_drawn_last(c: Canvas, tokens: Seq<Token>, default_fg: Rgb)
    requires
        tokens.len() > 0,
    ensures
        drawn(c, tokens, default_fg) == stepped(
            drawn(c, tokens.drop_last(), default_fg),
            tokens.last(),
            default_fg,
        ),
    decreases tokens.len(),
{
    if tokens.len() == 1 {
        assert(tokens.skip(1) =~= Seq::<Token>::empty());
        assert(tokens.drop_last() =~= Seq::<Token>::empty());
        reveal_with_fuel(drawn, 2);
    } else {
        let next = stepped(c, tokens[0], default_fg);
        lemma_drawn_last(next, tokens.skip(1), default_fg);
        assert(tokens.drop_last().skip(1) =~= tokens.skip(1).drop_last());
        assert(tokens.drop_last()[0] == tokens[0]);
    }
}

/// What a plain frame shows at a position: the symbol of its row and column,
/// and nothing where it has none.
pub open spec fn plain_cell(
    rows: Seq<Seq<char>>,
    col: int,
    row: int,
    default_fg: Rgb,
) -> Cell {
    if row < rows.len() && col < rows[row].len() {
        Cell { ch: rows[row][col], fg: default_fg, bg: None, bold: false }
    } else {
        blank_cell()
    }
}

/// Whether a canvas shows the rows of a plain frame as far as it has got.
spec fn shows_rows(c: Canvas, rows: Seq<Seq<char>>, default_fg: Rgb) -> bool {
    &&& sound(c)
    &&& rows.len() > 0
    &&& c.row == rows.len() - 1
    &&& c.col == rows.last().len()
    &&& c.pen == plain_pen()
    &&& forall|col: int, row: int|
        c.grid.contains(col, row) && (row < c.row || (row == c.row && col < c.col))
            ==> #[trigger] c.grid.at(col, row) == plain_cell(rows, col, row, default_fg)
}

proof fn lemma_shows_rows(frame: Seq<char>, grid: GridView, default_fg: Rgb)
    requires
        grid.wf(),
        is_plain(frame),
    ensures
        shows_rows(
            drawn(opened(grid), tokens(frame), default_fg),
            chars::fields(frame, '\n'),
            default_fg,
        ),
        drawn(opened(grid), tokens(frame), default_fg).grid.same_shape(grid),
    decreases frame.len(),
{
    let rows = chars::fields(frame, '\n');
    if frame.len() > 0 {
        let head = frame.drop_last();
        let ch = frame.last();
        assert forall|i: int| 0 <= i < head.len() implies #[trigger] head[i] != ESCAPE && head[i]
            != '\r' by {
            assert(head[i] == frame[i]);
        }
        assert(frame[frame.len() - 1] == ch);
        lemma_shows_rows(head, grid, default_fg);
        lemma_plain_tokens(frame);
        lemma_plain_tokens(head);
        assert(tokens(frame).drop_last() =~= tokens(head));
        lemma_drawn_last(opened(grid), tokens(frame), default_fg);
        let before = chars::fields(head, '\n');
        let c = drawn(opened(grid), tokens(head), default_fg);
        let x = stepped(c, token_of(ch), default_fg);
        lemma_step(c, token_of(ch), default_fg);
        let cols = c.grid.cols;
        assert forall|col: int, row: int|
            x.grid.contains(col, row) && (row < x.row || (row == x.row && col < x.col)) implies
            #[trigger] x.grid.at(col, row) == plain_cell(rows, col, row, default_fg) by {
            lemma_index(cols, c.grid.rows, col, row);
            let i = row * cols + col;
            if row < c.row {
                assert(row * cols + cols <= c.row * cols) by (nonlinear_arith)
                    requires
                        row + 1 <= c.row,
                        cols >= 0,
                ;
                assert(i < frontier(c));
                assert(x.grid.cells[i] == c.grid.at(col, row));
                assert(rows[row] == before[row]);
            } else if row == c.row && col < c.col {
                assert(i < frontier(c));
                assert(x.grid.cells[i] == c.grid.at(col, row));
                if ch == '\n' {
                    assert(rows[row] == before[row]);
                } else {
                    assert(rows[row] == before.last().push(ch));
                }
            } else if ch == '\n' {
                assert(rows[row] == before[row]);
            } else {
                assert(rows[row] == before.last().push(ch));
            }
        }
    } else {
        assert(tokens(frame) =~= Seq::<Token>::empty());
    }
}

/// Plain rows land top first, one symbol per cell: an overlong row is clipped
/// rather than wrapped, and what a frame does not reach is blank.
pub proof fn plain_rows_land_top_first(
    frame: Seq<char>,
    grid: GridView,
    default_fg: Rgb,
    col: int,
    row: int,
)
    requires
        grid.wf(),
        is_plain(frame),
        grid.contains(col, row),
    ensures
        parsed(frame, grid, default_fg).grid.at(col, row) == plain_cell(
            chars::fields(frame, '\n'),
            col,
            row,
            default_fg,
        ),
{
    lemma_shows_rows(frame, grid, default_fg);
    let rows = chars::fields(frame, '\n');
    let c = drawn(opened(grid), tokens(frame), default_fg);
    let cols = grid.cols;
    lemma_index(cols, grid.rows, col, row);
    let i = row * cols + col;
    if row < c.row || (row == c.row && col < c.col) {
        if row < c.row {
            assert(row * cols + cols <= c.row * cols) by (nonlinear_arith)
                requires
                    row + 1 <= c.row,
                    cols >= 0,
            ;
        }
        assert(i < frontier(c));
        assert(c.grid.at(col, row) == plain_cell(rows, col, row, default_fg));
    } else {
        assert(row * cols >= c.row * cols) by (nonlinear_arith)
            requires
                row >= c.row,
                cols >= 0,
        ;
        if row > c.row {
            assert(c.row * cols + cols <= row * cols) by (nonlinear_arith)
                requires
                    c.row + 1 <= row,
                    cols >= 0,
            ;
        }
        assert(i >= frontier(c));
    }
}

/// A colour tail is never applied as codes: after a `38` or a `48` the pen takes
/// the colour its tail names, if any, and goes on behind the whole tail,
/// whatever its fields hold. Nothing else about the pen is touched.
pub proof fn a_colour_tail_is_never_applied_as_codes(pen: Pen, parts: Seq<Seq<char>>, i: int)
    requires
        0 <= i < parts.len(),
        style_code(parts, i) == 38 || style_code(parts, i) == 48,
    ensures
        ({
            let color = tail_color(parts, i + 1);
            let next = i + 1 + tail_len(parts, i + 1);
            coded_from(pen, parts, i) == if style_code(parts, i) == 38 {
                coded_from(Pen { fg: color, ..pen }, parts, next)
            } else {
                coded_from(Pen { bg: color, ..pen }, parts, next)
            }
        }),
        field_number(parts, i + 1, u32::MAX as int) == Some(2int) ==> {
            &&& tail_len(parts, i + 1) == 4
            &&& tail_color(parts, i + 1) == Some(
                [channel(parts, i + 2), channel(parts, i + 3), channel(parts, i + 4)],
            )
        },
        field_number(parts, i + 1, u32::MAX as int) == Some(5int) ==> tail_len(parts, i + 1) == 2,
{
}

/// A malformed tail names no colour: without a kind there is none at all, and
/// one without an index still takes the field of the index.
pub proof fn a_malformed_tail_names_no_colour(parts: Seq<Seq<char>>, i: int)
    ensures
        field_number(parts, i, u32::MAX as int) is None ==> tail_color(parts, i) is None
            && tail_len(parts, i) == 0,
        field_number(parts, i, u32::MAX as int) == Some(5int) && field_number(
            parts,
            i + 1,
            u8::MAX as int,
        ) is None ==> tail_color(parts, i) is None && tail_len(parts, i) == 2,
{
}

/// Parameters end no earlier than they start.
proof fn lemma_params_end(s: Seq<char>, i: int)
    ensures
        params_end(s, i) >= i,
    decreases s.len() - i,
{
    if 0 <= i < s.len() && is_param(s[i]) {
        lemma_params_end(s, i + 1);
    }
}

/// An escape sequence never shifts the row: one that sets the style leaves a
/// token that draws nothing and moves nothing, and any other leaves none.
pub proof fn an_escape_sequence_does_not_shift_the_row(
    frame: Seq<char>,
    c: Canvas,
    default_fg: Rgb,
)
    requires
        frame.len() > 0,
        frame[0] == ESCAPE,
    ensures
        ({
            let rest = tokens(frame.skip(escape_len(frame)));
            if sets_style(frame) {
                let style = Token::Style(frame.subrange(2, params_end(frame, 2)));
                &&& tokens(frame) == seq![style] + rest
                &&& stepped(c, style, default_fg) == (Canvas {
                    pen: stepped(c, style, default_fg).pen,
                    ..c
                })
            } else {
                tokens(frame) == rest
            }
        }),
{
    lemma_params_end(frame, 2);
}

/// Numbers as the parameters of a style sequence: in decimal, with a semicolon
/// between each two.
pub open spec fn codes(numbers: Seq<nat>) -> Seq<char>
    decreases numbers.len(),
{
    if numbers.len() == 0 {
        Seq::empty()
    } else if numbers.len() == 1 {
        chars::decimal_text(numbers[0])
    } else {
        codes(numbers.drop_last()).push(';') + chars::decimal_text(numbers.last())
    }
}

/// The fields of parameters are the numbers they were written from.
proof fn lemma_codes(numbers: Seq<nat>)
    requires
        numbers.len() > 0,
    ensures
        codes(numbers).len() > 0,
        chars::fields(codes(numbers), ';') == numbers.map_values(
            |n: nat| chars::decimal_text(n),
        ),
    decreases numbers.len(),
{
    let last = chars::decimal_text(numbers.last());
    chars::lemma_decimal_text_digits(numbers.last());
    assert forall|j: int| 0 <= j < last.len() implies #[trigger] last[j] != ';' by {
        assert('0' <= chars::decimal_text(numbers.last())[j] <= '9');
    }
    chars::a_text_without_separators_is_one_field(last, ';');
    let all = numbers.map_values(|n: nat| chars::decimal_text(n));
    if numbers.len() == 1 {
        assert(all =~= seq![last]);
    } else {
        let head = numbers.drop_last();
        lemma_codes(head);
        chars::a_text_is_cut_at_its_separators(codes(head), ';', last);
        assert(all =~= head.map_values(|n: nat| chars::decimal_text(n)) + seq![last]);
    }
}

/// A field that was written from a number reads as that number.
proof fn lemma_code_at(numbers: Seq<nat>, i: int, max: int)
    requires
        numbers.len() > 0,
    ensures
        field_number(chars::fields(codes(numbers), ';'), i, max) == if 0 <= i < numbers.len()
            && numbers[i] <= max {
            Some(numbers[i] as int)
        } else {
            None
        },
{
    lemma_codes(numbers);
    if 0 <= i < numbers.len() {
        chars::a_numeral_reads_as_its_number(numbers[i], max);
    }
}

/// A true colour sets exactly its channels: for every red, green and blue up to
/// 255, `38;2;r;g;b` sets the foreground to them and `48;2;r;g;b` the
/// background, and nothing else about the pen.
pub proof fn a_true_colour_sets_exactly_its_channels(pen: Pen, r: u8, g: u8, b: u8)
    ensures
        styled(pen, codes(seq![38nat, 2, r as nat, g as nat, b as nat])) == (Pen {
            fg: Some([r, g, b]),
            ..pen
        }),
        styled(pen, codes(seq![48nat, 2, r as nat, g as nat, b as nat])) == (Pen {
            bg: Some([r, g, b]),
            ..pen
        }),
{
    lemma_true_colour(pen, 38, r, g, b);
    lemma_true_colour(pen, 48, r, g, b);
}

proof fn lemma_true_colour(pen: Pen, code: nat, r: u8, g: u8, b: u8)
    requires
        code == 38 || code == 48,
    ensures
        styled(pen, codes(seq![code, 2, r as nat, g as nat, b as nat])) == if code == 38 {
            Pen { fg: Some([r, g, b]), ..pen }
        } else {
            Pen { bg: Some([r, g, b]), ..pen }
        },
{
    let numbers = seq![code, 2, r as nat, g as nat, b as nat];
    let parts = chars::fields(codes(numbers), ';');
    lemma_codes(numbers);
    lemma_code_at(numbers, 0, u32::MAX as int);
    lemma_code_at(numbers, 1, u32::MAX as int);
    lemma_code_at(numbers, 2, u8::MAX as int);
    lemma_code_at(numbers, 3, u8::MAX as int);
    lemma_code_at(numbers, 4, u8::MAX as int);
    assert([channel(parts, 2), channel(parts, 3), channel(parts, 4)] =~= [r, g, b]);
    lemma_past_the_end(Pen { fg: Some([r, g, b]), ..pen }, parts, 5);
    lemma_past_the_end(Pen { bg: Some([r, g, b]), ..pen }, parts, 5);
    reveal_with_fuel(coded_from, 2);
}

/// An indexed colour sets exactly its entry of the palette.
pub proof fn an_indexed_colour_sets_its_entry(pen: Pen, index: u8)
    ensures
        styled(pen, codes(seq![38nat, 5, index as nat])) == (Pen {
            fg: Some(palette(index)),
            ..pen
        }),
        styled(pen, codes(seq![48nat, 5, index as nat])) == (Pen {
            bg: Some(palette(index)),
            ..pen
        }),
{
    lemma_indexed_colour(pen, 38, index);
    lemma_indexed_colour(pen, 48, index);
}

proof fn lemma_indexed_colour(pen: Pen, code: nat, index: u8)
    requires
        code == 38 || code == 48,
    ensures
        styled(pen, codes(seq![code, 5, index as nat])) == if code == 38 {
            Pen { fg: Some(palette(index)), ..pen }
        } else {
            Pen { bg: Some(palette(index)), ..pen }
        },
{
    let numbers = seq![code, 5, index as nat];
    lemma_codes(numbers);
    lemma_code_at(numbers, 0, u32::MAX as int);
    lemma_code_at(numbers, 1, u32::MAX as int);
    lemma_code_at(numbers, 2, u8::MAX as int);
    reveal_with_fuel(coded_from, 2);
}

/// The palette has the sixteen system colours first.
pub proof fn the_system_colours_come_first(index: u8)
    requires
        index < 16,
    ensures
        palette(index) == ANSI_16[index as int],
{
}

/// The system colours: black, red, green, yellow, blue, magenta, cyan and grey,
/// then the bright ones in the same order.
pub proof fn the_system_colours_are_these()
    ensures
        ANSI_16[0] == [0u8, 0, 0],
        ANSI_16[1] == [205u8, 0, 0],
        ANSI_16[2] == [0u8, 205, 0],
        ANSI_16[3] == [205u8, 205, 0],
        ANSI_16[4] == [0u8, 0, 238],
        ANSI_16[5] == [205u8, 0, 205],
        ANSI_16[6] == [0u8, 205, 205],
        ANSI_16[7] == [229u8, 229, 229],
        ANSI_16[8] == [127u8, 127, 127],
        ANSI_16[9] == [255u8, 0, 0],
        ANSI_16[10] == [0u8, 255, 0],
        ANSI_16[11] == [255u8, 255, 0],
        ANSI_16[12] == [92u8, 92, 255],
        ANSI_16[13] == [255u8, 0, 255],
        ANSI_16[14] == [0u8, 255, 255],
        ANSI_16[15] == [255u8, 255, 255],
{
}

/// Behind the system colours comes a cube of six levels a side, red slowest:
/// nothing, then steps of forty from 95 up to 255.
pub proof fn the_cube_has_six_levels_a_side(r: u8, g: u8, b: u8)
    requires
        r < 6,
        g < 6,
        b < 6,
    ensures
        ({
            let entry = palette((16 + 36 * r + 6 * g + b) as u8);
            &&& entry[0] == if r == 0 {
                0
            } else {
                95 + 40 * (r - 1)
            }
            &&& entry[1] == if g == 0 {
                0
            } else {
                95 + 40 * (g - 1)
            }
            &&& entry[2] == if b == 0 {
                0
            } else {
                95 + 40 * (b - 1)
            }
        }),
{
    let i = 36 * r + 6 * g + b;
    assert(i / 36 == r && (i / 6) % 6 == g && i % 6 == b);
}

/// The palette ends in a ramp of greys, ten apart, from 8 to 238.
pub proof fn the_palette_ends_in_greys(step: u8)
    requires
        step < 24,
    ensures
        ({
            let entry = palette((232 + step) as u8);
            &&& entry[0] == 8 + 10 * step
            &&& entry[1] == entry[0]
            &&& entry[2] == entry[0]
        }),
{
}

/// A pen after a single code.
proof fn lemma_single_code(pen: Pen, code: nat)
    requires
        code <= u32::MAX,
        code != 38,
        code != 48,
    ensures
        styled(pen, codes(seq![code])) == coded(pen, code as int),
{
    lemma_codes(seq![code]);
    lemma_code_at(seq![code], 0, u32::MAX as int);
    reveal_with_fuel(coded_from, 2);
}

/// A style code does what it is for, and nothing else.
pub proof fn a_style_code_does_what_it_is_for(pen: Pen, code: nat)
    requires
        code <= u32::MAX,
        code != 38,
        code != 48,
    ensures
        ({
            let after = styled(pen, codes(seq![code]));
            // Reset.
            &&& code == 0 ==> after == Pen {
                fg: None,
                bg: None,
                bold: false,
                reverse: false,
                hidden: false,
            }
            // Each part of the pen is set by its own codes, and otherwise kept.
            &&& code != 0 ==> after.bold == if code == 1 {
                true
            } else if code == 21 || code == 22 {
                false
            } else {
                pen.bold
            }
            &&& code != 0 ==> after.reverse == if code == 7 {
                true
            } else if code == 27 {
                false
            } else {
                pen.reverse
            }
            &&& code != 0 ==> after.hidden == if code == 8 {
                true
            } else if code == 28 {
                false
            } else {
                pen.hidden
            }
            &&& code != 0 ==> after.fg == if 30 <= code <= 37 {
                Some(palette((code - 30) as u8))
            } else if 90 <= code <= 97 {
                Some(palette((code - 90 + 8) as u8))
            } else if code == 39 {
                None
            } else {
                pen.fg
            }
            &&& code != 0 ==> after.bg == if 40 <= code <= 47 {
                Some(palette((code - 40) as u8))
            } else if 100 <= code <= 107 {
                Some(palette((code - 100 + 8) as u8))
            } else if code == 49 {
                None
            } else {
                pen.bg
            }
        }),
{
    lemma_single_code(pen, code);
}

/// A style sequence without parameters is a reset.
pub proof fn an_empty_sequence_is_a_reset(pen: Pen)
    ensures
        styled(pen, Seq::empty()) == styled(pen, codes(seq![0nat])),
{
    lemma_single_code(pen, 0);
}

/// The fields from a place on are what a pen takes from there.
proof fn lemma_coded_skip(pen: Pen, parts: Seq<Seq<char>>, k: int, i: int)
    requires
        0 <= k <= parts.len(),
        0 <= i,
    ensures
        coded_from(pen, parts, k + i) == coded_from(pen, parts.skip(k), i),
    decreases
            if k + i < parts.len() {
                parts.len() - k - i
            } else {
                0
            },
{
    let rest = parts.skip(k);
    if k + i < parts.len() {
        assert(forall|j: int, max: int|
            0 <= j ==> field_number(parts, k + j, max) == #[trigger] field_number(rest, j, max));
        let code = style_code(parts, k + i);
        assert(field_number(parts, k + i, u32::MAX as int) == field_number(
            rest,
            i,
            u32::MAX as int,
        ));
        assert(style_code(rest, i) == code);
        let n = tail_len(parts, k + i + 1);
        assert(field_number(parts, k + (i + 1), u32::MAX as int) == field_number(
            rest,
            i + 1,
            u32::MAX as int,
        ));
        assert(tail_len(rest, i + 1) == n);
        assert forall|j: int| 0 <= j implies #[trigger] channel(rest, j) == channel(
            parts,
            k + j,
        ) by {
            assert(field_number(parts, k + j, u8::MAX as int) == field_number(
                rest,
                j,
                u8::MAX as int,
            ));
        }
        assert(field_number(parts, k + (i + 2), u8::MAX as int) == field_number(
            rest,
            i + 2,
            u8::MAX as int,
        ));
        let color = tail_color(parts, k + i + 1);
        assert(channel(rest, i + 2) == channel(parts, k + (i + 2)));
        assert(channel(rest, i + 3) == channel(parts, k + (i + 3)));
        assert(channel(rest, i + 4) == channel(parts, k + (i + 4)));
        assert(tail_color(rest, i + 1) == color);
        if code == 38 {
            lemma_coded_skip(Pen { fg: color, ..pen }, parts, k, i + 1 + n);
        } else if code == 48 {
            lemma_coded_skip(Pen { bg: color, ..pen }, parts, k, i + 1 + n);
        } else {
            lemma_coded_skip(coded(pen, code), parts, k, i + 1);
        }
    }
}

/// What the fields in front come to is where the rest goes on from.
proof fn lemma_coded_front(pen: Pen, front: Seq<nat>, rest: Seq<nat>, after: Pen)
    requires
        front.len() > 0,
        rest.len() > 0,
        coded_from(pen, chars::fields(codes(front + rest), ';'), 0) == coded_from(
            after,
            chars::fields(codes(front + rest), ';'),
            front.len() as int,
        ),
    ensures
        styled(pen, codes(front + rest)) == styled(after, codes(rest)),
{
    let parts = chars::fields(codes(front + rest), ';');
    lemma_codes(front + rest);
    lemma_codes(rest);
    lemma_coded_skip(after, parts, front.len() as int, 0);
    assert(parts.skip(front.len() as int) =~= chars::fields(codes(rest), ';'));
}

/// Codes apply one after the other: a code and then others do what the code
/// does and then what the others do.
pub proof fn codes_apply_one_after_the_other(pen: Pen, code: nat, rest: Seq<nat>)
    requires
        code <= u32::MAX,
        code != 38,
        code != 48,
        rest.len() > 0,
    ensures
        styled(pen, codes(seq![code] + rest)) == styled(
            styled(pen, codes(seq![code])),
            codes(rest),
        ),
{
    let all = seq![code] + rest;
    lemma_single_code(pen, code);
    lemma_code_at(all, 0, u32::MAX as int);
    lemma_codes(all);
    assert(style_code(chars::fields(codes(all), ';'), 0) == code);
    lemma_coded_front(pen, seq![code], rest, coded(pen, code as int));
}

/// Codes behind a colour apply as they would on their own: the colour takes its
/// own fields and no more.
pub proof fn codes_behind_a_colour_still_apply(
    pen: Pen,
    r: u8,
    g: u8,
    b: u8,
    rest: Seq<nat>,
)
    requires
        rest.len() > 0,
    ensures
        styled(pen, codes(seq![38nat, 2, r as nat, g as nat, b as nat] + rest)) == styled(
            Pen { fg: Some([r, g, b]), ..pen },
            codes(rest),
        ),
        styled(pen, codes(seq![48nat, 2, r as nat, g as nat, b as nat] + rest)) == styled(
            Pen { bg: Some([r, g, b]), ..pen },
            codes(rest),
        ),
        styled(pen, codes(seq![38nat, 5, r as nat] + rest)) == styled(
            Pen { fg: Some(palette(r)), ..pen },
            codes(rest),
        ),
        styled(pen, codes(seq![48nat, 5, r as nat] + rest)) == styled(
            Pen { bg: Some(palette(r)), ..pen },
            codes(rest),
        ),
{
    lemma_behind_true_colour(pen, 38, r, g, b, rest);
    lemma_behind_true_colour(pen, 48, r, g, b, rest);
    lemma_behind_index(pen, 38, r, rest);
    lemma_behind_index(pen, 48, r, rest);
}

proof fn lemma_behind_true_colour(pen: Pen, code: nat, r: u8, g: u8, b: u8, rest: Seq<nat>)
    requires
        rest.len() > 0,
        code == 38 || code == 48,
    ensures
        styled(pen, codes(seq![code, 2, r as nat, g as nat, b as nat] + rest)) == styled(
            if code == 38 {
                Pen { fg: Some([r, g, b]), ..pen }
            } else {
                Pen { bg: Some([r, g, b]), ..pen }
            },
            codes(rest),
        ),
{
    let front = seq![code, 2, r as nat, g as nat, b as nat];
    let all = front + rest;
    let parts = chars::fields(codes(all), ';');
    lemma_codes(all);
    lemma_code_at(all, 0, u32::MAX as int);
    lemma_code_at(all, 1, u32::MAX as int);
    lemma_code_at(all, 2, u8::MAX as int);
    lemma_code_at(all, 3, u8::MAX as int);
    lemma_code_at(all, 4, u8::MAX as int);
    assert([channel(parts, 2), channel(parts, 3), channel(parts, 4)] =~= [r, g, b]);
    let after = if code == 38 {
        Pen { fg: Some([r, g, b]), ..pen }
    } else {
        Pen { bg: Some([r, g, b]), ..pen }
    };
    lemma_coded_front(pen, front, rest, after);
}

proof fn lemma_behind_index(pen: Pen, code: nat, index: u8, rest: Seq<nat>)
    requires
        rest.len() > 0,
        code == 38 || code == 48,
    ensures
        styled(pen, codes(seq![code, 5, index as nat] + rest)) == styled(
            if code == 38 {
                Pen { fg: Some(palette(index)), ..pen }
            } else {
                Pen { bg: Some(palette(index)), ..pen }
            },
            codes(rest),
        ),
{
    let front = seq![code, 5, index as nat];
    let all = front + rest;
    lemma_codes(all);
    lemma_code_at(all, 0, u32::MAX as int);
    lemma_code_at(all, 1, u32::MAX as int);
    lemma_code_at(all, 2, u8::MAX as int);
    let after = if code == 38 {
        Pen { fg: Some(palette(index)), ..pen }
    } else {
        Pen { bg: Some(palette(index)), ..pen }
    };
    lemma_coded_front(pen, front, rest, after);
}

/// A pen draws the symbol it is given, in its own weight and colours; an unset
/// foreground is the default one, and an unset background stays unset.
pub proof fn a_pen_draws_in_its_own_colours(pen: Pen, ch: char, default_fg: Rgb)
    ensures
        penned(pen, ch, default_fg).ch == ch,
        penned(pen, ch, default_fg).bold == pen.bold,
        !pen.reverse && pen.fg is Some ==> penned(pen, ch, default_fg).fg == pen.fg->0,
        !pen.reverse && pen.fg is None ==> penned(pen, ch, default_fg).fg == default_fg,
        !pen.reverse ==> penned(pen, ch, default_fg).bg == pen.bg,
{
}

/// Reverse video swaps the pair: what a pen would draw behind a symbol it draws
/// the symbol in, and the other way round. With nothing to draw behind, the
/// symbol is white.
pub proof fn reverse_video_swaps_the_pair(pen: Pen, ch: char, default_fg: Rgb)
    ensures
        ({
            let plain = penned(Pen { reverse: false, ..pen }, ch, default_fg);
            let swapped = penned(Pen { reverse: true, ..pen }, ch, default_fg);
            &&& swapped.bg == Some(plain.fg)
            &&& plain.bg is Some ==> swapped.fg == plain.bg->0
            &&& plain.bg is None ==> swapped.fg == [255u8, 255, 255]
            &&& swapped.ch == plain.ch
            &&& swapped.bold == plain.bold
        }),
{
}

/// The parameters that stand in front of a character that is none end there.
proof fn lemma_params_exact(s: Seq<char>, from: int, to: int)
    requires
        0 <= from <= to < s.len(),
        forall|i: int| from <= i < to ==> is_param(#[trigger] s[i]),
        !is_param(s[to]),
    ensures
        params_end(s, from) == to,
    decreases to - from,
{
    if from < to {
        assert(is_param(s[from]));
        lemma_params_exact(s, from + 1, to);
    }
}

/// A control sequence is consumed whole: digits, semicolons, colons and
/// question marks, and the character that ends it. One that ends in `m` sets
/// the style by what stands in it; any other leaves no trace.
pub proof fn a_control_sequence_is_consumed_whole(
    params: Seq<char>,
    end: char,
    rest: Seq<char>,
)
    requires
        forall|i: int|
            0 <= i < params.len() ==> '0' <= #[trigger] params[i] <= '9' || params[i] == ';'
                || params[i] == ':' || params[i] == '?',
        !('0' <= end <= '9' || end == ';' || end == ':' || end == '?'),
    ensures
        tokens(seq!['\x1b', '['] + params + seq![end] + rest) == if end == 'm' {
            seq![Token::Style(params)] + tokens(rest)
        } else {
            tokens(rest)
        },
{
    let frame = seq!['\x1b', '['] + params + seq![end] + rest;
    let n = 2 + params.len() as int;
    assert(frame[0] == '\x1b' && frame[1] == '[' && frame[n] == end);
    assert forall|i: int| 2 <= i < n implies is_param(#[trigger] frame[i]) by {
        assert(frame[i] == params[i - 2]);
    }
    lemma_params_exact(frame, 2, n);
    assert(frame.skip(n + 1) =~= rest);
    assert(frame.subrange(2, n) =~= params);
}

/// Any other escape sequence is the escape and one character, and leaves no
/// trace.
pub proof fn another_escape_takes_one_character(c: char, rest: Seq<char>)
    requires
        c != '[',
    ensures
        tokens(seq!['\x1b', c] + rest) == tokens(rest),
{
    assert((seq!['\x1b', c] + rest).skip(2) =~= rest);
}

/// A character outside an escape sequence is one token: the end of a row, a
/// step back to its start, or a symbol for one cell.
pub proof fn a_character_is_one_token(c: char, rest: Seq<char>)
    requires
        c != '\x1b',
    ensures
        tokens(seq![c] + rest) == seq![
            if c == '\n' {
                Token::Newline
            } else if c == '\r' {
                Token::Return
            } else {
                Token::Symbol(c)
            },
        ] + tokens(rest),
        tokens(Seq::empty()) == Seq::<Token>::empty(),
{
    assert((seq![c] + rest).skip(1) =~= rest);
}

/// A symbol lands in the cell the canvas stands at, as the pen draws it, and in
/// no other; outside the grid it lands nowhere. Either way the canvas moves on
/// by one column, with the same pen.
pub proof fn a_symbol_lands_in_one_cell(
    c: Canvas,
    ch: char,
    default_fg: Rgb,
    col: int,
    row: int,
)
    requires
        c.grid.wf(),
        c.grid.contains(col, row),
    ensures
        ({
            let after = stepped(c, Token::Symbol(ch), default_fg);
            &&& after.col == c.col + 1
            &&& after.row == c.row
            &&& after.pen == c.pen
            &&& after.grid.cols == c.grid.cols
            &&& after.grid.rows == c.grid.rows
            &&& after.grid.cells[row * c.grid.cols + col] == if col == c.col && row == c.row {
                penned(c.pen, ch, default_fg)
            } else {
                c.grid.cells[row * c.grid.cols + col]
            }
        }),
{
    lemma_index(c.grid.cols, c.grid.rows, col, row);
    if c.grid.contains(c.col, c.row) {
        lemma_index(c.grid.cols, c.grid.rows, c.col, c.row);
        if row < c.row {
            assert(row * c.grid.cols + c.grid.cols <= c.row * c.grid.cols) by (nonlinear_arith)
                requires
                    row + 1 <= c.row,
                    c.grid.cols >= 0,
            ;
        }
        if c.row < row {
            assert(c.row * c.grid.cols + c.grid.cols <= row * c.grid.cols) by (nonlinear_arith)
                requires
                    c.row + 1 <= row,
                    c.grid.cols >= 0,
            ;
        }
    }
}

/// The end of a row blanks what the row has not reached and nothing else, and
/// goes on at the start of the next row with the same pen.
pub proof fn the_end_of_a_row_blanks_the_rest_of_it(
    c: Canvas,
    default_fg: Rgb,
    col: int,
    row: int,
)
    requires
        c.grid.wf(),
        0 <= c.col,
        0 <= c.row,
        c.grid.contains(col, row),
    ensures
        ({
            let after = stepped(c, Token::Newline, default_fg);
            &&& after.col == 0
            &&& after.row == c.row + 1
            &&& after.pen == c.pen
            &&& after.grid.cols == c.grid.cols
            &&& after.grid.rows == c.grid.rows
            &&& after.grid.cells[row * c.grid.cols + col] == if row == c.row && col >= c.col {
                Cell { ch: ' ', fg: [255, 255, 255], bg: None, bold: false }
            } else {
                c.grid.cells[row * c.grid.cols + col]
            }
        }),
{
    let cols = c.grid.cols;
    lemma_index(cols, c.grid.rows, col, row);
    if row < c.row {
        assert(row * cols + cols <= c.row * cols) by (nonlinear_arith)
            requires
                row + 1 <= c.row,
                cols >= 0,
        ;
    }
    if c.row < row {
        assert(c.row * cols + cols <= row * cols) by (nonlinear_arith)
            requires
                c.row + 1 <= row,
                cols >= 0,
        ;
    }
}

/// A step back goes to the start of the row, and changes nothing else.
pub proof fn a_step_back_goes_to_the_start_of_the_row(c: Canvas, default_fg: Rgb)
    ensures
        stepped(c, Token::Return, default_fg) == (Canvas { col: 0, ..c }),
{
}

/// A frame starts at the top left with a plain pen, and draws its tokens in the
/// order they come in.
pub proof fn a_frame_draws_its_tokens_in_order(
    grid: GridView,
    c: Canvas,
    token: Token,
    rest: Seq<Token>,
    default_fg: Rgb,
)
    ensures
        opened(grid).grid == grid,
        opened(grid).col == 0,
        opened(grid).row == 0,
        opened(grid).pen == (Pen {
            fg: None,
            bg: None,
            bold: false,
            reverse: false,
            hidden: false,
        }),
        drawn(c, seq![token] + rest, default_fg) == drawn(
            stepped(c, token, default_fg),
            rest,
            default_fg,
        ),
        drawn(c, Seq::empty(), default_fg) == c,
{
    lemma_drawn_one(c, token, rest, default_fg);
}

/// A frame ends by blanking what it has not reached, and nothing else.
pub proof fn a_frame_blanks_what_it_does_not_reach(
    frame: Seq<char>,
    grid: GridView,
    default_fg: Rgb,
    col: int,
    row: int,
)
    requires
        grid.wf(),
        grid.contains(col, row),
    ensures
        ({
            let c = drawn(opened(grid), tokens(frame), default_fg);
            parsed(frame, grid, default_fg).grid.cells[row * grid.cols + col] == if row > c.row || (
            row == c.row && col >= c.col) {
                Cell { ch: ' ', fg: [255, 255, 255], bg: None, bold: false }
            } else {
                c.grid.cells[row * grid.cols + col]
            }
        }),
{
    let c = drawn(opened(grid), tokens(frame), default_fg);
    lemma_drawn_agrees(opened(grid), opened(grid), tokens(frame), default_fg);
    let cols = grid.cols;
    lemma_index(cols, grid.rows, col, row);
    if row < c.row {
        assert(row * cols + cols <= c.row * cols) by (nonlinear_arith)
            requires
                row + 1 <= c.row,
                cols >= 0,
        ;
    }
    if c.row < row {
        assert(c.row * cols + cols <= row * cols) by (nonlinear_arith)
            requires
                c.row + 1 <= row,
                cols >= 0,
        ;
    }
}

/// A symbol in a true colour shows in that colour: the frame that sets a
/// foreground and draws one symbol leaves the symbol, in exactly that colour,
/// in the first cell.
pub proof fn a_coloured_symbol_shows_in_its_colour(
    r: u8,
    g: u8,
    b: u8,
    ch: char,
    grid: GridView,
    default_fg: Rgb,
)
    requires
        grid.wf(),
        grid.contains(0, 0),
        ch != '\x1b',
        ch != '\n',
        ch != '\r',
    ensures
        ({
            let params = codes(seq![38nat, 2, r as nat, g as nat, b as nat]);
            let frame = seq!['\x1b', '['] + params + seq!['m'] + seq![ch];
            parsed(frame, grid, default_fg).grid.cells[0] == (Cell {
                ch,
                fg: [r, g, b],
                bg: None,
                bold: false,
            })
        }),
{
    let numbers = seq![38nat, 2, r as nat, g as nat, b as nat];
    let params = codes(numbers);
    let frame = seq!['\x1b', '['] + params + seq!['m'] + seq![ch];
    lemma_codes_params(numbers);
    a_control_sequence_is_consumed_whole(params, 'm', seq![ch]);
    a_character_is_one_token(ch, Seq::empty());
    assert(seq![ch] + Seq::<char>::empty() =~= seq![ch]);
    let style = Token::Style(params);
    let symbol = Token::Symbol(ch);
    let none = Seq::<Token>::empty();
    assert(tokens(frame) =~= seq![style] + (seq![symbol] + none));
    let first = opened(grid);
    a_frame_draws_its_tokens_in_order(grid, first, style, seq![symbol] + none, default_fg);
    let inked = stepped(first, style, default_fg);
    a_frame_draws_its_tokens_in_order(grid, inked, symbol, none, default_fg);
    a_true_colour_sets_exactly_its_channels(first.pen, r, g, b);
    a_symbol_lands_in_one_cell(inked, ch, default_fg, 0, 0);
    a_frame_blanks_what_it_does_not_reach(frame, grid, default_fg, 0, 0);
    assert(0 * grid.cols + 0 == 0) by (nonlinear_arith);
}

/// Parameters are digits and semicolons.
proof fn lemma_codes_params(numbers: Seq<nat>)
    ensures
        forall|i: int|
            0 <= i < codes(numbers).len() ==> '0' <= #[trigger] codes(numbers)[i] <= '9' || codes(
                numbers,
            )[i] == ';',
    decreases numbers.len(),
{
    if numbers.len() > 0 {
        let last = chars::decimal_text(numbers.last());
        chars::lemma_decimal_text_digits(numbers.last());
        let head = numbers.drop_last();
        lemma_codes_params(head);
        let front = codes(head);
        assert forall|i: int| 0 <= i < codes(numbers).len() implies '0'
            <= #[trigger] codes(numbers)[i] <= '9' || codes(numbers)[i] == ';' by {
            if numbers.len() == 1 {
                assert(codes(numbers)[i] == last[i]);
            } else if i < front.len() {
                assert(codes(numbers)[i] == front[i]);
            } else if i > front.len() {
                assert(codes(numbers)[i] == last[i - front.len() - 1]);
            }
        }
    }
}

/// A channel that a number makes: itself up to 255, and nothing above.
pub open spec fn channel_of(n: nat) -> u8 {
    if n <= 255 {
        n as u8
    } else {
        0
    }
}

/// A true colour that breaks off, or has a channel above 255, still takes what
/// there is of it, and nothing for the rest.
pub proof fn a_broken_true_colour_keeps_its_good_channels(pen: Pen, r: nat, g: nat, b: nat)
    ensures
        styled(pen, codes(seq![38nat, 2, r, g, b])) == (Pen {
            fg: Some([channel_of(r), channel_of(g), channel_of(b)]),
            ..pen
        }),
        styled(pen, codes(seq![38nat, 2, r, g])) == (Pen {
            fg: Some([channel_of(r), channel_of(g), 0]),
            ..pen
        }),
        styled(pen, codes(seq![38nat, 2, r])) == (Pen { fg: Some([channel_of(r), 0, 0]), ..pen }),
        styled(pen, codes(seq![38nat, 2])) == (Pen { fg: Some([0, 0, 0]), ..pen }),
        styled(pen, codes(seq![48nat, 2, r, g, b])) == (Pen {
            bg: Some([channel_of(r), channel_of(g), channel_of(b)]),
            ..pen
        }),
        styled(pen, codes(seq![48nat, 2, r, g])) == (Pen {
            bg: Some([channel_of(r), channel_of(g), 0]),
            ..pen
        }),
        styled(pen, codes(seq![48nat, 2, r])) == (Pen { bg: Some([channel_of(r), 0, 0]), ..pen }),
        styled(pen, codes(seq![48nat, 2])) == (Pen { bg: Some([0, 0, 0]), ..pen }),
{
    lemma_broken_colour(pen, seq![38nat, 2, r, g, b]);
    lemma_broken_colour(pen, seq![38nat, 2, r, g]);
    lemma_broken_colour(pen, seq![38nat, 2, r]);
    lemma_broken_colour(pen, seq![38nat, 2]);
    lemma_broken_colour(pen, seq![48nat, 2, r, g, b]);
    lemma_broken_colour(pen, seq![48nat, 2, r, g]);
    lemma_broken_colour(pen, seq![48nat, 2, r]);
    lemma_broken_colour(pen, seq![48nat, 2]);
}

/// The channel at a place among numbers, if the numbers get there.
spec fn channel_in(numbers: Seq<nat>, i: int) -> u8 {
    if i < numbers.len() {
        channel_of(numbers[i])
    } else {
        0
    }
}

proof fn lemma_broken_colour(pen: Pen, numbers: Seq<nat>)
    requires
        2 <= numbers.len() <= 5,
        numbers[0] == 38 || numbers[0] == 48,
        numbers[1] == 2,
    ensures
        ({
            let color = [
                channel_in(numbers, 2),
                channel_in(numbers, 3),
                channel_in(numbers, 4),
            ];
            styled(pen, codes(numbers)) == if numbers[0] == 38 {
                Pen { fg: Some(color), ..pen }
            } else {
                Pen { bg: Some(color), ..pen }
            }
        }),
{
    let parts = chars::fields(codes(numbers), ';');
    lemma_codes(numbers);
    lemma_code_at(numbers, 0, u32::MAX as int);
    lemma_code_at(numbers, 1, u32::MAX as int);
    lemma_code_at(numbers, 2, u8::MAX as int);
    lemma_code_at(numbers, 3, u8::MAX as int);
    lemma_code_at(numbers, 4, u8::MAX as int);
    let color = [channel_in(numbers, 2), channel_in(numbers, 3), channel_in(numbers, 4)];
    assert([channel(parts, 2), channel(parts, 3), channel(parts, 4)] =~= color);
    lemma_past_the_end(Pen { fg: Some(color), ..pen }, parts, 5);
    lemma_past_the_end(Pen { bg: Some(color), ..pen }, parts, 5);
    reveal_with_fuel(coded_from, 2);
}

/// A colour of no known kind, or of no entry of the palette, is no colour: what
/// it was to set is unset, and the codes behind it apply as ever.
pub proof fn a_colour_of_no_known_kind_is_none(pen: Pen, kind: nat, index: nat, rest: Seq<nat>)
    requires
        kind != 2,
        kind != 5,
        kind <= u32::MAX,
        index > 255,
        rest.len() > 0,
    ensures
        styled(pen, codes(seq![38nat])) == (Pen { fg: None, ..pen }),
        styled(pen, codes(seq![48nat])) == (Pen { bg: None, ..pen }),
        styled(pen, codes(seq![38nat, kind] + rest)) == styled(
            Pen { fg: None, ..pen },
            codes(rest),
        ),
        styled(pen, codes(seq![48nat, kind] + rest)) == styled(
            Pen { bg: None, ..pen },
            codes(rest),
        ),
        styled(pen, codes(seq![38nat, 5, index] + rest)) == styled(
            Pen { fg: None, ..pen },
            codes(rest),
        ),
        styled(pen, codes(seq![48nat, 5, index] + rest)) == styled(
            Pen { bg: None, ..pen },
            codes(rest),
        ),
{
    lemma_no_colour(pen, 38, kind, index, rest);
    lemma_no_colour(pen, 48, kind, index, rest);
}

proof fn lemma_no_colour(pen: Pen, code: nat, kind: nat, index: nat, rest: Seq<nat>)
    requires
        code == 38 || code == 48,
        kind != 2,
        kind != 5,
        kind <= u32::MAX,
        index > 255,
        rest.len() > 0,
    ensures
        ({
            let after = if code == 38 {
                Pen { fg: None, ..pen }
            } else {
                Pen { bg: None, ..pen }
            };
            &&& styled(pen, codes(seq![code])) == after
            &&& styled(pen, codes(seq![code, kind] + rest)) == styled(after, codes(rest))
            &&& styled(pen, codes(seq![code, 5, index] + rest)) == styled(after, codes(rest))
        }),
{
    let after = if code == 38 {
        Pen { fg: None, ..pen }
    } else {
        Pen { bg: None, ..pen }
    };
    lemma_codes(seq![code]);
    lemma_code_at(seq![code], 0, u32::MAX as int);
    lemma_code_at(seq![code], 1, u32::MAX as int);
    lemma_past_the_end(after, chars::fields(codes(seq![code]), ';'), 1);
    let odd = seq![code, kind] + rest;
    lemma_codes(odd);
    lemma_code_at(odd, 0, u32::MAX as int);
    lemma_code_at(odd, 1, u32::MAX as int);
    lemma_coded_front(pen, seq![code, kind], rest, after);
    let high = seq![code, 5, index] + rest;
    lemma_codes(high);
    lemma_code_at(high, 0, u32::MAX as int);
    lemma_code_at(high, 1, u32::MAX as int);
    lemma_code_at(high, 2, u8::MAX as int);
    lemma_coded_front(pen, seq![code, 5, index], rest, after);
}

/// A field that is no number counts as a reset.
pub proof fn a_field_that_is_no_number_is_a_reset(pen: Pen, field: Seq<char>, i: int)
    requires
        0 <= i < field.len(),
        !('0' <= field[i] <= '9'),
        i > 0 || field[i] != '+',
        forall|j: int| 0 <= j < field.len() ==> #[trigger] field[j] != ';',
    ensures
        styled(pen, field) == styled(pen, Seq::empty()),
{
    chars::a_text_without_separators_is_one_field(field, ';');
    chars::what_holds_more_than_digits_is_no_number(field, i, u32::MAX as int);
    reveal_with_fuel(coded_from, 2);
}

/// A frame that ends inside an escape sequence ends there: what there is of the
/// sequence leaves no trace.
pub proof fn a_frame_may_end_inside_a_sequence(params: Seq<char>)
    requires
        forall|i: int|
            0 <= i < params.len() ==> '0' <= #[trigger] params[i] <= '9' || params[i] == ';'
                || params[i] == ':' || params[i] == '?',
    ensures
        tokens(seq!['\x1b']) == Seq::<Token>::empty(),
        tokens(seq!['\x1b', '['] + params) == Seq::<Token>::empty(),
{
    reveal_with_fuel(tokens, 2);
    assert(seq!['\x1b'].skip(1) =~= Seq::<char>::empty());
    let frame = seq!['\x1b', '['] + params;
    let n = frame.len() as int;
    assert forall|i: int| 2 <= i < n implies is_param(#[trigger] frame[i]) by {
        assert(frame[i] == params[i - 2]);
    }
    lemma_params_to_the_end(frame, 2);
    assert(frame[0] == '\x1b' && frame[1] == '[');
    assert(frame.skip(n) =~= Seq::<char>::empty());
}

/// Parameters that nothing ends run to the end.
proof fn lemma_params_to_the_end(s: Seq<char>, from: int)
    requires
        0 <= from <= s.len(),
        forall|i: int| from <= i < s.len() ==> is_param(#[trigger] s[i]),
    ensures
        params_end(s, from) == s.len(),
    decreases s.len() - from,
{
    if from < s.len() {
        assert(is_param(s[from]));
        lemma_params_to_the_end(s, from + 1);
    }
}

} // verus!
