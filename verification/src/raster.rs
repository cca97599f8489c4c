//! Software glyph painting, one cell at a time.
//!
//! Every glyph is clipped to its own cell. That is not a cosmetic choice: it
//! is what makes an incremental redraw identical to a full redraw. If a glyph
//! could bleed into a neighbour, repainting only the cells that changed would
//! leave the neighbour's leftovers behind, and the whole damage-tracking
//! scheme downstream would be quietly wrong.

use std::collections::HashMap;

use vstd::prelude::*;

use crate::grid::{lemma_index, Cell, Grid, GridView, Rgb};

verus! {

broadcast use vstd::std_specs::hash::group_hash_axioms;

/// The pixel geometry of one cell, derived from the font's own metrics.
#[derive(Clone, Copy, PartialEq, Eq, Debug)]
pub struct CellMetrics {
    pub width: u32,
    pub height: u32,
    /// Distance from the top of the cell down to the baseline.
    pub baseline: i32,
}

/// Where the character grid sits inside a surface.
#[derive(Clone, Copy, PartialEq, Eq, Debug)]
pub struct Layout {
    pub width: u32,
    pub height: u32,
    pub cols: usize,
    pub rows: usize,
    pub cell: CellMetrics,
    pub origin_x: u32,
    pub origin_y: u32,
}

/// How many whole cells of one size fit a length. A cell of no size counts as
/// one pixel.
pub open spec fn cells_in(length: u32, cell: u32) -> int {
    length as int / if cell == 0 {
        1
    } else {
        cell as int
    }
}

/// The margin that centres something `used` long in `length`; nothing when it
/// does not fit.
pub open spec fn margin(length: u32, used: int) -> int {
    if used <= length {
        (length - used) / 2
    } else {
        0
    }
}

impl Layout {
    /// Whether the grid lies inside the surface.
    pub open spec fn fits(self) -> bool {
        &&& self.origin_x + self.cols * self.cell.width <= self.width
        &&& self.origin_y + self.rows * self.cell.height <= self.height
    }

    /// The largest whole grid that fits, centred. The leftover margin is
    /// painted once with the background and never touched again: it cannot
    /// change, so it must never appear in a damage rectangle.
    pub fn fit(width: u32, height: u32, cell: CellMetrics) -> (r: Layout)
        ensures
            r.width == width,
            r.height == height,
            r.cell == cell,
            r.cols == cells_in(width, cell.width),
            r.rows == cells_in(height, cell.height),
            r.origin_x == margin(width, r.cols * cell.width),
            r.origin_y == margin(height, r.rows * cell.height),
            r.fits(),
    {
        let (cols, origin_x) = fit_one(width, cell.width);
        let (rows, origin_y) = fit_one(height, cell.height);
        Layout { width, height, cols: cols as usize, rows: rows as usize, cell, origin_x, origin_y }
    }

    /// A grid of a given size, centred. Outputs of different sizes show the
    /// *same* grid, so the animation is one picture across the desk rather
    /// than a separate one per screen; only the margin around it differs.
    pub fn centred(
        width: u32,
        height: u32,
        cols: usize,
        rows: usize,
        cell: CellMetrics,
    ) -> (r: Layout)
        requires
            cols * cell.width <= u32::MAX,
            rows * cell.height <= u32::MAX,
        ensures
            r.width == width,
            r.height == height,
            r.cols == cols,
            r.rows == rows,
            r.cell == cell,
            r.origin_x == margin(width, cols * cell.width),
            r.origin_y == margin(height, rows * cell.height),
            cols * cell.width <= width && rows * cell.height <= height ==> r.fits(),
    {
        let used_w: u32 = length_of(cols, cell.width);
        let used_h: u32 = length_of(rows, cell.height);
        let used_w: u32 = if used_w < width {
            used_w
        } else {
            width
        };
        let used_h: u32 = if used_h < height {
            used_h
        } else {
            height
        };
        Layout {
            width,
            height,
            cols,
            rows,
            cell,
            origin_x: (width - used_w) / 2,
            origin_y: (height - used_h) / 2,
        }
    }

    /// The top-left pixel of a cell.
    pub fn cell_origin(&self, col: usize, row: usize) -> (r: (u32, u32))
        requires
            self.origin_x + col * self.cell.width <= u32::MAX,
            self.origin_y + row * self.cell.height <= u32::MAX,
        ensures
            r.0 == self.origin_x + col * self.cell.width,
            r.1 == self.origin_y + row * self.cell.height,
    {
        proof {
            assert(0 <= col * self.cell.width && 0 <= row * self.cell.height) by (nonlinear_arith);
        }
        (
            self.origin_x + length_of(col, self.cell.width),
            self.origin_y + length_of(row, self.cell.height),
        )
    }
}

/// The length of `n` cells.
fn length_of(n: usize, cell: u32) -> (r: u32)
    requires
        n * cell <= u32::MAX,
    ensures
        r == n * cell,
{
    if cell == 0 {
        proof {
            assert(n * cell == 0) by (nonlinear_arith)
                requires
                    cell == 0,
            ;
        }
        return 0;
    }
    proof {
        assert(n <= n * cell) by (nonlinear_arith)
            requires
                cell >= 1,
        ;
    }
    (n as u32) * cell
}

/// How many cells fit a length, and the margin that centres them.
fn fit_one(length: u32, cell: u32) -> (r: (u32, u32))
    ensures
        r.0 == cells_in(length, cell),
        r.0 * cell <= length,
        r.1 == margin(length, r.0 * cell),
        r.1 + r.0 * cell <= length,
{
    if cell == 0 {
        proof {
            assert(length * cell == 0) by (nonlinear_arith)
                requires
                    cell == 0,
            ;
        }
        return (length, length / 2);
    }
    let n: u32 = length / cell;
    proof {
        assert(n * cell <= length && 0 <= n * cell) by (nonlinear_arith)
            requires
                n == length as int / cell as int,
                cell > 0,
        ;
    }
    (n, (length - n * cell) / 2)
}

/// `from` towards `to` by `cov/255`, rounded half-up.
pub open spec fn blended(from: u8, to: u8, cov: u8) -> int {
    (from * (255 - cov) + to * cov + 127) / 255
}

/// `from` towards `to` by `cov/255`, rounded half-up. Integer throughout, so
/// the result cannot depend on how multiply-adds are contracted.
pub fn blend(from: u8, to: u8, cov: u8) -> (r: u8)
    ensures
        r == blended(from, to, cov),
{
    proof {
        lemma_blend_bound(from, to, cov);
    }
    (((from as u32) * (255 - cov as u32) + (to as u32) * (cov as u32) + 127) / 255) as u8
}

proof fn lemma_blend_bound(from: u8, to: u8, cov: u8)
    ensures
        0 <= from * (255 - cov),
        0 <= to * cov,
        from * (255 - cov) + to * cov <= 255 * 255,
{
    assert(0 <= from * (255 - cov) && 0 <= to * cov && from * (255 - cov) <= 255 * (255 - cov) && to
        * cov <= 255 * cov) by (nonlinear_arith)
        requires
            0 <= from <= 255,
            0 <= to <= 255,
            0 <= cov <= 255,
    ;
}

/// Blending hits both endpoints exactly.
pub proof fn blending_hits_both_endpoints(from: u8, to: u8)
    ensures
        blended(from, to, 0) == from,
        blended(from, to, 255) == to,
{
    assert(from * (255 - 0) + to * 0 == 255 * from) by (nonlinear_arith);
    assert(from * (255 - 255) + to * 255 == 255 * to) by (nonlinear_arith);
}

/// Blending never leaves the range between the two colours.
pub proof fn blending_stays_between(from: u8, to: u8, cov: u8)
    ensures
        from <= to ==> from <= blended(from, to, cov) <= to,
        to <= from ==> to <= blended(from, to, cov) <= from,
{
    let s = from * (255 - cov) + to * cov;
    assert((from <= to ==> from * 255 <= s <= to * 255) && (to <= from ==> to * 255 <= s <= from
        * 255)) by (nonlinear_arith)
        requires
            s == from * (255 - cov) + to * cov,
            0 <= cov <= 255,
    ;
}

/// One colour channel multiplied by the alpha, rounded half-up.
pub open spec fn scaled(channel: u8, alpha: u8) -> int {
    (channel * alpha + 127) / 255
}

/// The number of a premultiplied pixel: alpha in the highest byte, then red,
/// green and blue, each multiplied by the alpha.
pub open spec fn pixel_value(color: Rgb, alpha: u8) -> int {
    alpha * 0x100_0000 + scaled(color[0], alpha) * 0x1_0000 + scaled(color[1], alpha) * 0x100
        + scaled(color[2], alpha)
}

/// A premultiplied channel never exceeds its alpha, which is what makes the
/// pixel a valid premultiplied one.
pub proof fn channels_never_exceed_alpha(channel: u8, alpha: u8)
    ensures
        0 <= scaled(channel, alpha) <= alpha,
{
    assert(0 <= channel * alpha <= 255 * alpha) by (nonlinear_arith)
        requires
            0 <= channel <= 255,
            0 <= alpha <= 255,
    ;
}

/// At full alpha a pixel is its colour, unscaled.
pub proof fn full_alpha_keeps_the_colour(channel: u8)
    ensures
        scaled(channel, 255) == channel,
{
}

fn scale_channel(channel: u8, alpha: u8) -> (r: u32)
    ensures
        r == scaled(channel, alpha),
        r <= 255,
{
    proof {
        channels_never_exceed_alpha(channel, alpha);
        assert(0 <= channel * alpha <= 255 * 255) by (nonlinear_arith)
            requires
                0 <= channel <= 255,
                0 <= alpha <= 255,
        ;
    }
    ((channel as u32) * (alpha as u32) + 127) / 255
}

/// ARGB8888 as Wayland wants it: one native-endian `u32` per pixel, colour
/// channels already multiplied by alpha.
pub fn premultiplied(color: Rgb, alpha: u8) -> (r: u32)
    ensures
        r == pixel_value(color, alpha),
{
    (alpha as u32) * 0x100_0000 + scale_channel(color[0], alpha) * 0x1_0000 + scale_channel(
        color[1],
        alpha,
    ) * 0x100 + scale_channel(color[2], alpha)
}

/// Flood a whole surface with one premultiplied colour. Used when a buffer
/// holds nothing reusable and the margin around the grid needs painting too.
pub fn flood(pixels: &mut [u32], color: Rgb, alpha: u8)
    ensures
        final(pixels)@ == Seq::new(old(pixels)@.len(), |i: int| pixel_value(color, alpha) as u32),
{
    let value: u32 = premultiplied(color, alpha);
    let n: usize = pixels.len();
    let mut i: usize = 0;
    while i < n
        invariant
            i <= n,
            n == pixels@.len(),
            n == old(pixels)@.len(),
            value == pixel_value(color, alpha),
            forall|j: int| 0 <= j < i ==> pixels@[j] == value,
        decreases n - i,
    {
        pixels[i] = value;
        i += 1;
    }
}

/// A glyph as a font engine hands it out: a coverage bitmap, top row first,
/// and where it sits relative to the pen.
#[derive(PartialEq, Eq, Debug)]
pub struct Bitmap {
    pub width: usize,
    pub height: usize,
    /// Offset of the bitmap's left edge from the pen.
    pub xmin: i32,
    /// Offset of the bitmap's bottom edge from the baseline, positive upwards.
    pub ymin: i32,
    pub coverage: Vec<u8>,
}

impl Bitmap {
    /// One coverage value per pixel, in a bitmap of a size that can exist.
    pub open spec fn wf(&self) -> bool {
        &&& self.width <= i32::MAX
        &&& self.height <= i32::MAX
        &&& self.coverage@.len() == self.width * self.height
    }
}

/// What a cached glyph is: a coverage bitmap and the offset of its top-left
/// corner, from the left edge of the cell and from the baseline.
#[verifier::ext_equal]
pub struct GlyphView {
    pub width: int,
    pub height: int,
    pub left: int,
    pub top: int,
    pub coverage: Seq<u8>,
}

impl GlyphView {
    /// How much of a pixel the glyph covers, nothing outside its bitmap.
    pub open spec fn at(self, x: int, y: int) -> u8 {
        if 0 <= x < self.width && 0 <= y < self.height {
            self.coverage[y * self.width + x]
        } else {
            0
        }
    }
}

/// The larger of two coverage values.
pub open spec fn stronger(a: u8, b: u8) -> u8 {
    if b > a {
        b
    } else {
        a
    }
}

/// A bitmap smeared one pixel to the right, row by row.
pub open spec fn smeared(coverage: Seq<u8>, width: int) -> Seq<u8> {
    Seq::new(
        coverage.len(),
        |i: int|
            if pixel_x(i, width) > 0 {
                stronger(coverage[i], coverage[i - 1])
            } else {
                coverage[i]
            },
    )
}

/// The glyph a bitmap becomes, in the regular weight or emboldened.
///
/// No bold face is loaded, so emboldening is a one-pixel smear: deterministic,
/// cheap, and enough to read as heavier.
pub open spec fn glyph_from(bitmap: Bitmap, bold: bool) -> GlyphView {
    GlyphView {
        width: bitmap.width as int,
        height: bitmap.height as int,
        left: bitmap.xmin as int,
        top: -(bitmap.ymin + bitmap.height),
        coverage: if bold {
            smeared(bitmap.coverage@, bitmap.width as int)
        } else {
            bitmap.coverage@
        },
    }
}

struct Glyph {
    width: usize,
    height: usize,
    left: i64,
    top: i64,
    coverage: Vec<u8>,
}

impl Glyph {
    closed spec fn shape(&self) -> GlyphView {
        GlyphView {
            width: self.width as int,
            height: self.height as int,
            left: self.left as int,
            top: self.top as int,
            coverage: self.coverage@,
        }
    }

    spec fn wf(&self) -> bool {
        &&& self.width <= i32::MAX
        &&& self.height <= i32::MAX
        &&& self.coverage@.len() == self.width * self.height
        &&& i32::MIN <= self.left <= i32::MAX
        &&& -0x1_0000_0000 <= self.top <= 0x1_0000_0000
    }
}

/// The column of a pixel in a buffer whose rows are `stride` pixels long.
#[verifier::opaque]
pub open spec fn pixel_x(p: int, stride: int) -> int {
    p % stride
}

/// The row of a pixel in a buffer whose rows are `stride` pixels long.
#[verifier::opaque]
pub open spec fn pixel_y(p: int, stride: int) -> int {
    p / stride
}

/// The pixel at a column and a row has that column and that row.
pub proof fn lemma_pixel_at(stride: int, x: int, y: int)
    requires
        0 <= x < stride,
        0 <= y,
    ensures
        pixel_x(y * stride + x, stride) == x,
        pixel_y(y * stride + x, stride) == y,
        0 <= y * stride,
{
    reveal(pixel_x);
    reveal(pixel_y);
    vstd::arithmetic::div_mod::lemma_fundamental_div_mod_converse(y * stride + x, stride, y, x);
    assert(0 <= y * stride) by (nonlinear_arith)
        requires
            0 <= y,
            0 < stride,
    ;
}

/// A pixel is the one at its own column and row.
pub proof fn lemma_pixel_of(stride: int, p: int)
    requires
        0 < stride,
        0 <= p,
    ensures
        0 <= pixel_x(p, stride) < stride,
        0 <= pixel_y(p, stride),
        p == pixel_y(p, stride) * stride + pixel_x(p, stride),
{
    reveal(pixel_x);
    reveal(pixel_y);
    vstd::arithmetic::div_mod::lemma_fundamental_div_mod(p, stride);
    vstd::arithmetic::div_mod::lemma_mod_bound(p, stride);
    vstd::arithmetic::div_mod::lemma_div_pos_is_pos(p, stride);
    assert(pixel_y(p, stride) * stride == stride * (p / stride)) by (nonlinear_arith)
        requires
            pixel_y(p, stride) == p / stride,
    ;
}

/// Rows that end before a row end before its first pixel.
pub proof fn lemma_rows_end(stride: int, y: int, end: int)
    requires
        0 <= y < end,
        0 <= stride,
    ensures
        y * stride + stride <= end * stride,
{
    assert(y * stride + stride <= end * stride) by (nonlinear_arith)
        requires
            y + 1 <= end,
            0 <= stride,
    ;
}

/// Everything painting depends on besides the grid: the cell geometry and the
/// glyphs, by character and weight.
#[verifier::ext_equal]
pub struct Face {
    pub metrics: CellMetrics,
    pub glyphs: Map<(char, bool), GlyphView>,
}

impl Face {
    /// Whether the glyph a cell shows, if it shows one, is there.
    pub open spec fn has(self, cell: Cell) -> bool {
        cell.inked() ==> self.glyphs.contains_key((cell.ch, cell.bold))
    }

    /// Whether every glyph a grid shows is there.
    pub open spec fn has_all(self, grid: GridView) -> bool {
        forall|i: int| 0 <= i < grid.cells.len() ==> self.has(#[trigger] grid.cells[i])
    }

    /// Whether another face has the same geometry and at least these glyphs.
    pub open spec fn grows_to(self, other: Face) -> bool {
        &&& self.metrics == other.metrics
        &&& self.glyphs.submap_of(other.glyphs)
    }
}

/// The colour behind a cell.
pub open spec fn behind(cell: Cell, surface_bg: Rgb) -> Rgb {
    match cell.bg {
        Some(bg) => bg,
        None => surface_bg,
    }
}

/// How much of a pixel of a cell its glyph covers.
pub open spec fn cell_coverage(face: Face, cell: Cell, x: int, y: int) -> u8 {
    if cell.inked() {
        let glyph = face.glyphs[(cell.ch, cell.bold)];
        glyph.at(x - glyph.left, y - (face.metrics.baseline + glyph.top))
    } else {
        0
    }
}

/// The colour of one pixel of a cell: the background, blended towards the
/// foreground by as much as the glyph covers it.
pub open spec fn cell_color(face: Face, cell: Cell, x: int, y: int, surface_bg: Rgb) -> Rgb {
    let bg = behind(cell, surface_bg);
    let cov = cell_coverage(face, cell, x, y);
    [
        blended(bg[0], cell.fg[0], cov) as u8,
        blended(bg[1], cell.fg[1], cov) as u8,
        blended(bg[2], cell.fg[2], cov) as u8,
    ]
}

/// One pixel of a painted cell.
pub open spec fn cell_pixel(
    face: Face,
    cell: Cell,
    x: int,
    y: int,
    alpha: u8,
    surface_bg: Rgb,
) -> u32 {
    pixel_value(cell_color(face, cell, x, y, surface_bg), alpha) as u32
}

/// Whether a pixel lies in the `w` by `h` box at `x0`, `y0`.
pub open spec fn in_box(
    p: int,
    stride: int,
    x0: int,
    y0: int,
    w: int,
    h: int,
) -> bool {
    x0 <= pixel_x(p, stride) < x0 + w && y0 <= pixel_y(p, stride) < y0 + h
}

/// A buffer with one cell painted over it.
pub open spec fn with_cell(
    pixels: Seq<u32>,
    stride: int,
    x0: int,
    y0: int,
    face: Face,
    cell: Cell,
    alpha: u8,
    surface_bg: Rgb,
) -> Seq<u32> {
    Seq::new(
        pixels.len(),
        |p: int|
            if in_box(
                p,
                stride,
                x0,
                y0,
                face.metrics.width as int,
                face.metrics.height as int,
            ) {
                cell_pixel(
                    face,
                    cell,
                    pixel_x(p, stride) - x0,
                    pixel_y(p, stride) - y0,
                    alpha,
                    surface_bg,
                )
            } else {
                pixels[p]
            },
    )
}

/// A pixel the glyph leaves uncovered shows the colour behind the cell.
pub proof fn lemma_uncovered(face: Face, cell: Cell, x: int, y: int, surface_bg: Rgb)
    requires
        cell_coverage(face, cell, x, y) == 0,
    ensures
        cell_color(face, cell, x, y, surface_bg) == behind(cell, surface_bg),
{
    assert(cell_color(face, cell, x, y, surface_bg) =~= behind(cell, surface_bg));
}

/// The number a glyph is cached under.
pub open spec fn glyph_key(ch: char, bold: bool) -> u64 {
    (ch as int * 2 + if bold {
        1int
    } else {
        0
    }) as u64
}

proof fn lemma_keys_differ(a: char, a_bold: bool, b: char, b_bold: bool)
    requires
        a != b || a_bold != b_bold,
    ensures
        glyph_key(a, a_bold) != glyph_key(b, b_bold),
{
    assert(a as int == a as u32);
    assert(b as int == b as u32);
}

fn key_of(ch: char, bold: bool) -> (k: u64)
    ensures
        k == glyph_key(ch, bold),
{
    if bold {
        (ch as u64) * 2 + 1
    } else {
        (ch as u64) * 2
    }
}

/// Paints cells into a premultiplied ARGB8888 surface, from glyphs that the
/// font engine has rasterized.
pub struct Rasterizer {
    metrics: CellMetrics,
    cache: HashMap<u64, Glyph>,
}

impl View for Rasterizer {
    type V = Face;

    closed spec fn view(&self) -> Face {
        Face {
            metrics: self.metrics,
            glyphs: Map::new(
                |k: (char, bool)| self.cache@.contains_key(glyph_key(k.0, k.1)),
                |k: (char, bool)| self.cache@[glyph_key(k.0, k.1)].shape(),
            ),
        }
    }
}

impl Rasterizer {
    /// Every cached glyph has one coverage value per pixel.
    pub closed spec fn wf(&self) -> bool {
        forall|k: u64| #[trigger] self.cache@.contains_key(k) ==> self.cache@[k].wf()
    }

    /// A rasterizer with no glyphs yet, for cells of a given geometry.
    pub fn new(metrics: CellMetrics) -> (r: Rasterizer)
        ensures
            r.wf(),
            r@ == (Face { metrics, glyphs: Map::empty() }),
    {
        let r = Rasterizer { metrics, cache: HashMap::new() };
        proof {
            assert(r@.glyphs =~= Map::empty());
        }
        r
    }

    pub fn metrics(&self) -> (r: CellMetrics)
        ensures
            r == self@.metrics,
    {
        self.metrics
    }

    /// Whether a glyph has been loaded.
    pub fn is_loaded(&self, ch: char, bold: bool) -> (r: bool)
        ensures
            r == self@.glyphs.contains_key((ch, bold)),
    {
        let key: u64 = key_of(ch, bold);
        self.cache.contains_key(&key)
    }

    /// Cache what the font engine made of a character, in one weight. A glyph
    /// that is already there stays as it is.
    pub fn load(&mut self, ch: char, bold: bool, bitmap: Bitmap)
        requires
            old(self).wf(),
            bitmap.wf(),
        ensures
            final(self).wf(),
            final(self)@ == if old(self)@.glyphs.contains_key((ch, bold)) {
                old(self)@
            } else {
                Face {
                    glyphs: old(self)@.glyphs.insert((ch, bold), glyph_from(bitmap, bold)),
                    ..old(self)@
                }
            },
            final(self)@ == loaded(old(self)@, ch, bold, bitmap),
            old(self)@.grows_to(final(self)@),
    {
        let key: u64 = key_of(ch, bold);
        if self.cache.contains_key(&key) {
            return;
        }
        let glyph = make_glyph(bitmap, bold);
        self.cache.insert(key, glyph);
        proof {
            assert forall|k: (char, bool)| k != (ch, bold) implies #[trigger] glyph_key(k.0, k.1)
                != key by {
                lemma_keys_differ(k.0, k.1, ch, bold);
            }
            assert(self@.glyphs =~= old(self)@.glyphs.insert((ch, bold), glyph_from(bitmap, bold)));
        }
    }

    /// The glyphs still to be loaded before a set of characters can be shown
    /// in either weight. Loading them ahead is purely a latency smoother.
    pub fn warm(&self, chars: &[char]) -> (r: Vec<(char, bool)>)
        ensures
            forall|ch: char, bold: bool|
                #[trigger] r@.contains((ch, bold)) <==> chars@.contains(ch)
                    && !self@.glyphs.contains_key((ch, bold)),
            r@.no_duplicates(),
    {
        let mut r: Vec<(char, bool)> = Vec::new();
        let mut i: usize = 0;
        while i < chars.len()
            invariant
                i <= chars@.len(),
                forall|ch: char, bold: bool|
                    #[trigger] r@.contains((ch, bold)) <==> chars@.take(i as int).contains(ch)
                        && !self@.glyphs.contains_key((ch, bold)),
                r@.no_duplicates(),
            decreases chars@.len() - i,
        {
            let ch = chars[i];
            let ghost before = r@;
            self.want(&mut r, ch, false);
            let ghost between = r@;
            self.want(&mut r, ch, true);
            proof {
                let head = chars@.take(i as int);
                assert(chars@.take(i + 1) =~= head.push(ch));
                assert forall|c: char, b: bool|
                    #[trigger] r@.contains((c, b)) <==> chars@.take(i + 1).contains(c)
                        && !self@.glyphs.contains_key((c, b)) by {
                    lemma_push_contains(head, ch, c);
                    assert(between.contains((c, b)) <==> (before.contains((c, b)) || ((c, b) == (
                        ch,
                        false,
                    ) && !self@.glyphs.contains_key((c, b)))));
                }
            }
            i += 1;
        }
        proof {
            assert(chars@.take(i as int) =~= chars@);
        }
        r
    }

    /// The glyphs still to be loaded before a grid can be painted.
    pub fn missing(&self, grid: &Grid) -> (r: Vec<(char, bool)>)
        ensures
            forall|ch: char, bold: bool|
                #[trigger] r@.contains((ch, bold)) <==> shows(grid@.cells, ch, bold)
                    && !self@.glyphs.contains_key((ch, bold)),
            r@.no_duplicates(),
            r@.len() == 0 <==> self@.has_all(grid@),
    {
        let cells = grid.cells();
        let mut r: Vec<(char, bool)> = Vec::new();
        let mut i: usize = 0;
        while i < cells.len()
            invariant
                i <= cells@.len(),
                forall|ch: char, bold: bool|
                    #[trigger] r@.contains((ch, bold)) <==> shows(
                        cells@.take(i as int),
                        ch,
                        bold,
                    ) && !self@.glyphs.contains_key((ch, bold)),
                r@.no_duplicates(),
            decreases cells@.len() - i,
        {
            let cell = cells[i];
            let ghost before = r@;
            if cell.ch != ' ' && cell.ch != '\0' {
                self.want(&mut r, cell.ch, cell.bold);
            }
            proof {
                let head = cells@.take(i as int);
                assert(cells@.take(i + 1) =~= head.push(cell));
                assert forall|c: char, b: bool|
                    #[trigger] r@.contains((c, b)) <==> shows(cells@.take(i + 1), c, b)
                        && !self@.glyphs.contains_key((c, b)) by {
                    lemma_push_shows(head, cell, c, b);
                    assert(before.contains((c, b)) <==> shows(head, c, b)
                        && !self@.glyphs.contains_key((c, b)));
                }
            }
            i += 1;
        }
        proof {
            assert(cells@.take(i as int) =~= cells@);
            if r@.len() > 0 {
                let k = r@[0];
                assert(r@.contains((k.0, k.1)));
                let j = choose|j: int|
                    0 <= j < cells@.len() && (#[trigger] cells@[j]).inked() && cells@[j].ch == k.0
                        && cells@[j].bold == k.1;
                assert(!self@.has(grid@.cells[j]));
            } else {
                assert forall|j: int| 0 <= j < grid@.cells.len() implies self@.has(
                    #[trigger] grid@.cells[j],
                ) by {
                    let cell = cells@[j];
                    if cell.inked() && !self@.glyphs.contains_key((cell.ch, cell.bold)) {
                        assert(shows(cells@, cell.ch, cell.bold));
                        assert(r@.contains((cell.ch, cell.bold)));
                    }
                }
            }
        }
        r
    }

    /// Put a glyph on a list of wanted ones, unless it is loaded or listed.
    fn want(&self, list: &mut Vec<(char, bool)>, ch: char, bold: bool)
        requires
            old(list)@.no_duplicates(),
        ensures
            final(list)@.no_duplicates(),
            forall|c: char, b: bool|
                #[trigger] final(list)@.contains((c, b)) <==> old(list)@.contains((c, b)) || ((c, b)
                    == (ch, bold) && !self@.glyphs.contains_key((c, b))),
    {
        if self.is_loaded(ch, bold) {
            return;
        }
        let mut i: usize = 0;
        while i < list.len()
            invariant
                i <= list@.len(),
                list@ == old(list)@,
                list@.no_duplicates(),
                forall|j: int| 0 <= j < i ==> list@[j] != (ch, bold),
                !self@.glyphs.contains_key((ch, bold)),
            decreases list@.len() - i,
        {
            if list[i].0 == ch && list[i].1 == bold {
                proof {
                    assert(list@[i as int] == (ch, bold));
                }
                return;
            }
            i += 1;
        }
        list.push((ch, bold));
        proof {
            assert forall|c: char, b: bool|
                #[trigger] list@.contains((c, b)) <==> old(list)@.contains((c, b)) || (c, b) == (
                ch,
                bold,
            ) by {
                if old(list)@.contains((c, b)) {
                    let k = choose|k: int| 0 <= k < old(list)@.len() && old(list)@[k] == (c, b);
                    assert(list@[k] == (c, b));
                }
                if (c, b) == (ch, bold) {
                    assert(list@[list@.len() - 1] == (c, b));
                }
            }
        }
    }

    /// Paint one cell. `origin` is the cell's top-left pixel, `alpha` the fade
    /// level, `surface_bg` the colour a cell with no background of its own
    /// sits on.
    ///
    /// Every pixel in the cell is written exactly once, and no pixel outside
    /// it is touched.
    pub fn draw_cell(
        &self,
        pixels: &mut [u32],
        stride: usize,
        origin: (u32, u32),
        cell: Cell,
        alpha: u8,
        surface_bg: Rgb,
    )
        requires
            self.wf(),
            self@.has(cell),
            origin.0 + self@.metrics.width <= stride,
            (origin.1 + self@.metrics.height) * stride <= old(pixels)@.len(),
        ensures
            final(pixels)@ == with_cell(
                old(pixels)@,
                stride as int,
                origin.0 as int,
                origin.1 as int,
                self@,
                cell,
                alpha,
                surface_bg,
            ),
    {
        let x0: usize = origin.0 as usize;
        let y0: usize = origin.1 as usize;
        let cw: usize = self.metrics.width as usize;
        let ch: usize = self.metrics.height as usize;
        let bg: Rgb = match cell.bg {
            Some(bg) => bg,
            None => surface_bg,
        };
        let background: u32 = premultiplied(bg, alpha);
        let baseline: i64 = self.metrics.baseline as i64;
        let glyph: Option<&Glyph> = if cell.ch == ' ' || cell.ch == '\0' {
            None
        } else {
            let key: u64 = key_of(cell.ch, cell.bold);
            self.cache.get(&key)
        };
        let ghost face = self@;
        let ghost start = pixels@;
        let ghost goal = with_cell(
            start,
            stride as int,
            x0 as int,
            y0 as int,
            face,
            cell,
            alpha,
            surface_bg,
        );
        proof {
            if cell.inked() {
                let key = glyph_key(cell.ch, cell.bold);
                assert(face.glyphs.contains_key((cell.ch, cell.bold)));
                assert(self.cache@.contains_key(key));
                assert(glyph is Some && *glyph->0 == self.cache@[key]);
                assert(glyph->0.wf());
                assert(face.glyphs[(cell.ch, cell.bold)] == glyph->0.shape());
            }
        }
        let len: usize = pixels.len();
        if cw == 0 {
            proof {
                assert(pixels@ =~= goal);
            }
            return;
        }
        proof {
            assert(y0 + ch <= (y0 + ch) * stride) by (nonlinear_arith)
                requires
                    stride >= 1,
            ;
        }
        let mut y: usize = 0;
        while y < ch
            invariant
                y <= ch,
                y0 + ch <= usize::MAX,
                start.len() == len,
                x0 == origin.0,
                y0 == origin.1,
                cw == face.metrics.width,
                ch == face.metrics.height,
                baseline == face.metrics.baseline,
                bg == behind(cell, surface_bg),
                background == pixel_value(bg, alpha),
                cell.inked() == (glyph is Some),
                cell.inked() ==> glyph->0.wf() && face.glyphs[(cell.ch, cell.bold)]
                    == glyph->0.shape(),
                x0 + cw <= stride,
                (y0 + ch) * stride <= start.len(),
                start.len() <= usize::MAX,
                pixels@.len() == start.len(),
                goal == with_cell(
                    start,
                    stride as int,
                    x0 as int,
                    y0 as int,
                    face,
                    cell,
                    alpha,
                    surface_bg,
                ),
                forall|p: int|
                    0 <= p < start.len() ==> #[trigger] pixels@[p] == if in_box(
                        p,
                        stride as int,
                        x0 as int,
                        y0 as int,
                        cw as int,
                        y as int,
                    ) {
                        goal[p]
                    } else {
                        start[p]
                    },
            decreases ch - y,
        {
            let ghost row_start = pixels@;
            proof {
                lemma_rows_end(stride as int, y0 + y, y0 + ch);
                assert(0 <= (y0 + y) * stride) by (nonlinear_arith);
            }
            let row: usize = (y0 + y) * stride + x0;
            let mut x: usize = 0;
            while x < cw
                invariant
                    x <= cw,
                    y < ch,
                    row == (y0 + y) * stride + x0,
                    row + cw <= start.len(),
                    y0 <= u32::MAX,
                    ch <= u32::MAX,
                    cw <= u32::MAX,
                    cw == face.metrics.width,
                    ch == face.metrics.height,
                    baseline == face.metrics.baseline,
                    bg == behind(cell, surface_bg),
                    background == pixel_value(bg, alpha),
                    cell.inked() == (glyph is Some),
                    cell.inked() ==> glyph->0.wf() && face.glyphs[(cell.ch, cell.bold)]
                        == glyph->0.shape(),
                    x0 + cw <= stride,
                    start.len() <= usize::MAX,
                    pixels@.len() == start.len(),
                    goal == with_cell(
                        start,
                        stride as int,
                        x0 as int,
                        y0 as int,
                        face,
                        cell,
                        alpha,
                        surface_bg,
                    ),
                    forall|p: int|
                        0 <= p < start.len() ==> #[trigger] pixels@[p] == if row <= p < row + x {
                            goal[p]
                        } else {
                            row_start[p]
                        },
                decreases cw - x,
            {
                let cov: u8 = match glyph {
                    Some(g) => coverage_at(
                        g,
                        x as i64 - g.left,
                        y as i64 - (baseline + g.top),
                    ),
                    None => 0,
                };
                let value: u32 = if cov == 0 {
                    background
                } else {
                    premultiplied(
                        [
                            blend(bg[0], cell.fg[0], cov),
                            blend(bg[1], cell.fg[1], cov),
                            blend(bg[2], cell.fg[2], cov),
                        ],
                        alpha,
                    )
                };
                proof {
                    let p = row + x;
                    lemma_pixel_at(stride as int, x0 + x, y0 + y);
                    assert(p == (y0 + y) * stride + (x0 + x));
                    assert(cell_coverage(face, cell, x as int, y as int) == cov);
                    if cov == 0 {
                        lemma_uncovered(face, cell, x as int, y as int, surface_bg);
                    } else {
                        let c = cell_color(face, cell, x as int, y as int, surface_bg);
                        lemma_pixel_channels(
                            c,
                            [
                                blended(bg[0], cell.fg[0], cov) as u8,
                                blended(bg[1], cell.fg[1], cov) as u8,
                                blended(bg[2], cell.fg[2], cov) as u8,
                            ],
                            alpha,
                        );
                    }
                    assert(goal[p] == value);
                }
                pixels[row + x] = value;
                x += 1;
            }
            proof {
                assert forall|p: int| 0 <= p < start.len() implies #[trigger] pixels@[p]
                    == if in_box(
                    p,
                    stride as int,
                    x0 as int,
                    y0 as int,
                    cw as int,
                    y + 1,
                ) {
                    goal[p]
                } else {
                    start[p]
                } by {
                    if cw > 0 {
                        lemma_pixel_of(stride as int, p);
                        if row <= p < row + cw {
                            lemma_pixel_at(stride as int, x0 + (p - row), y0 + y);
                            assert(p == (y0 + y) * stride + (x0 + (p - row)));
                        } else if pixel_y(p, stride as int) == y0 + y {
                            assert(p == (y0 + y) * stride + pixel_x(p, stride as int));
                        }
                    }
                }
            }
            y += 1;
        }
        proof {
            assert(pixels@ =~= goal);
        }
    }
}

/// Whether a run of cells shows a glyph.
pub open spec fn shows(cells: Seq<Cell>, ch: char, bold: bool) -> bool {
    exists|i: int|
        0 <= i < cells.len() && (#[trigger] cells[i]).inked() && cells[i].ch == ch && cells[i].bold
            == bold
}

proof fn lemma_push_shows(cells: Seq<Cell>, cell: Cell, ch: char, bold: bool)
    ensures
        shows(cells.push(cell), ch, bold) == (shows(cells, ch, bold) || (cell.inked() && cell.ch
            == ch && cell.bold == bold)),
{
    let all = cells.push(cell);
    if shows(cells, ch, bold) {
        let i = choose|i: int|
            0 <= i < cells.len() && (#[trigger] cells[i]).inked() && cells[i].ch == ch
                && cells[i].bold == bold;
        assert(all[i] == cells[i]);
    }
    if cell.inked() && cell.ch == ch && cell.bold == bold {
        assert(all[cells.len() as int] == cell);
    }
    if shows(all, ch, bold) {
        let i = choose|i: int|
            0 <= i < all.len() && (#[trigger] all[i]).inked() && all[i].ch == ch && all[i].bold
                == bold;
        if i < cells.len() {
            assert(cells[i] == all[i]);
        }
    }
}

proof fn lemma_push_contains(s: Seq<char>, last: char, c: char)
    ensures
        s.push(last).contains(c) == (s.contains(c) || c == last),
{
    let all = s.push(last);
    if s.contains(c) {
        let i = choose|i: int| 0 <= i < s.len() && s[i] == c;
        assert(all[i] == c);
    }
    if c == last {
        assert(all[s.len() as int] == c);
    }
}

/// A pixel's number depends on the colour only through its channels.
proof fn lemma_pixel_channels(a: Rgb, b: Rgb, alpha: u8)
    requires
        a[0] == b[0],
        a[1] == b[1],
        a[2] == b[2],
    ensures
        pixel_value(a, alpha) == pixel_value(b, alpha),
{
}

/// How much of a pixel a glyph covers.
fn coverage_at(glyph: &Glyph, x: i64, y: i64) -> (r: u8)
    requires
        glyph.wf(),
    ensures
        r == glyph.shape().at(x as int, y as int),
{
    let n: usize = glyph.coverage.len();
    if 0 <= x && x < glyph.width as i64 && 0 <= y && y < glyph.height as i64 {
        proof {
            assert(n == glyph.width * glyph.height);
            lemma_index(glyph.width as int, glyph.height as int, x as int, y as int);
        }
        glyph.coverage[(y as usize) * glyph.width + (x as usize)]
    } else {
        0
    }
}

/// What the cache keeps of a bitmap.
fn make_glyph(bitmap: Bitmap, bold: bool) -> (r: Glyph)
    requires
        bitmap.wf(),
    ensures
        r.wf(),
        r.shape() == glyph_from(bitmap, bold),
{
    let left: i64 = bitmap.xmin as i64;
    // The engine reports the baseline-relative bottom edge, positive upwards;
    // the bitmap's first row is its top.
    let top: i64 = -(bitmap.ymin as i64 + bitmap.height as i64);
    let width: usize = bitmap.width;
    let height: usize = bitmap.height;
    proof {
        if width == 0 {
            assert(width * height == 0) by (nonlinear_arith)
                requires
                    width == 0,
            ;
        }
    }
    let coverage: Vec<u8> = if bold {
        smear(&bitmap.coverage, width)
    } else {
        bitmap.coverage
    };
    Glyph { width, height, left, top, coverage }
}

/// The one-pixel smear that stands in for a bold face.
fn smear(coverage: &Vec<u8>, width: usize) -> (r: Vec<u8>)
    requires
        width == 0 ==> coverage@.len() == 0,
    ensures
        r@ == smeared(coverage@, width as int),
{
    let mut out: Vec<u8> = Vec::new();
    let mut i: usize = 0;
    let mut col: usize = 0;
    proof {
        if width > 0 {
            lemma_pixel_at(width as int, 0, 0);
        }
    }
    while i < coverage.len()
        invariant
            i <= coverage@.len(),
            width == 0 ==> coverage@.len() == 0,
            width > 0 ==> col == pixel_x(i as int, width as int) && col < width,
            out@.len() == i,
            forall|j: int| 0 <= j < i ==> out@[j] == smeared(coverage@, width as int)[j],
        decreases coverage@.len() - i,
    {
        let mut value: u8 = coverage[i];
        proof {
            let y = pixel_y(i as int, width as int);
            lemma_pixel_of(width as int, i as int);
            if col + 1 < width {
                lemma_pixel_at(width as int, col + 1, y);
            } else {
                assert(y * width + width == (y + 1) * width) by (nonlinear_arith);
                lemma_pixel_at(width as int, 0, y + 1);
            }
            if col > 0 {
                assert(i > 0);
            }
        }
        if col > 0 && coverage[i - 1] > value {
            value = coverage[i - 1];
        }
        out.push(value);
        i += 1;
        col += 1;
        if col == width {
            col = 0;
        }
    }
    proof {
        assert(out@ =~= smeared(coverage@, width as int));
    }
    out
}

/// The largest whole number of cells fits: one more would not.
pub proof fn the_largest_grid_fits(length: u32, cell: u32)
    requires
        cell > 0,
    ensures
        cells_in(length, cell) * cell <= length,
        length < (cells_in(length, cell) + 1) * cell,
{
    vstd::arithmetic::div_mod::lemma_fundamental_div_mod(length as int, cell as int);
    vstd::arithmetic::div_mod::lemma_mod_bound(length as int, cell as int);
    let n = cells_in(length, cell);
    assert((n + 1) * cell == n * cell + cell && cell as int * n == n * cell) by (nonlinear_arith);
}

/// A margin centres: what is left on the other side is as much, or one pixel
/// more.
pub proof fn a_margin_centres(length: u32, used: int)
    requires
        0 <= used,
    ensures
        used <= length ==> margin(length, used) <= length - used - margin(length, used)
            <= margin(length, used) + 1,
        used > length ==> margin(length, used) == 0,
{
}

/// Blending is exact to the nearest step: no other number is closer to the
/// weighted mean of the two colours.
pub proof fn blending_rounds_to_the_nearest(from: u8, to: u8, cov: u8)
    ensures
        -127 <= 255 * blended(from, to, cov) - (from * (255 - cov) + to * cov) <= 127,
{
}

/// Premultiplying is exact to the nearest step.
pub proof fn premultiplying_rounds_to_the_nearest(channel: u8, alpha: u8)
    ensures
        -127 <= 255 * scaled(channel, alpha) - channel * alpha <= 127,
{
}

/// Four bytes come apart again.
proof fn lemma_bytes(a: int, r: int, g: int, b: int)
    requires
        0 <= a <= 255,
        0 <= r <= 255,
        0 <= g <= 255,
        0 <= b <= 255,
    ensures
        ({
            let v = a * 0x100_0000 + r * 0x1_0000 + g * 0x100 + b;
            &&& 0 <= v <= u32::MAX
            &&& v / 0x100_0000 == a
            &&& (v / 0x1_0000) % 256 == r
            &&& (v / 0x100) % 256 == g
            &&& v % 256 == b
        }),
{
}

/// A pixel holds its alpha in the highest byte, then red, green and blue, each
/// within half a step of the colour times the alpha.
pub proof fn a_pixel_holds_alpha_red_green_and_blue(color: Rgb, alpha: u8)
    ensures
        0 <= pixel_value(color, alpha) <= u32::MAX,
        pixel_value(color, alpha) / 0x100_0000 == alpha,
        -127 <= 255 * ((pixel_value(color, alpha) / 0x1_0000) % 256) - color[0] * alpha <= 127,
        -127 <= 255 * ((pixel_value(color, alpha) / 0x100) % 256) - color[1] * alpha <= 127,
        -127 <= 255 * (pixel_value(color, alpha) % 256) - color[2] * alpha <= 127,
{
    let (r, g, b) = (
        scaled(color[0], alpha),
        scaled(color[1], alpha),
        scaled(color[2], alpha),
    );
    channels_never_exceed_alpha(color[0], alpha);
    channels_never_exceed_alpha(color[1], alpha);
    channels_never_exceed_alpha(color[2], alpha);
    premultiplying_rounds_to_the_nearest(color[0], alpha);
    premultiplying_rounds_to_the_nearest(color[1], alpha);
    premultiplying_rounds_to_the_nearest(color[2], alpha);
    lemma_bytes(alpha as int, r, g, b);
}

/// The face that loading a bitmap leads to.
pub open spec fn loaded(face: Face, ch: char, bold: bool, bitmap: Bitmap) -> Face {
    if face.glyphs.contains_key((ch, bold)) {
        face
    } else {
        Face { glyphs: face.glyphs.insert((ch, bold), glyph_from(bitmap, bold)), ..face }
    }
}

/// A glyph is covered as its bitmap is, row 0 topmost: the entry at a column
/// and a row of the bitmap lands as far right of the cell's left edge as the
/// bitmap's own offset says, and as far above the baseline. In bold an entry
/// also counts one column further right, if it is the stronger one there.
/// Nothing outside the bitmap is covered.
pub proof fn a_glyph_is_covered_as_its_bitmap_is(
    face: Face,
    bitmap: Bitmap,
    cell: Cell,
    x: int,
    y: int,
)
    requires
        bitmap.wf(),
        !face.glyphs.contains_key((cell.ch, cell.bold)),
        cell.ch != ' ',
        cell.ch != '\0',
    ensures
        ({
            let after = loaded(face, cell.ch, cell.bold, bitmap);
            let col = x - bitmap.xmin;
            let row = y - (face.metrics.baseline - bitmap.ymin - bitmap.height);
            let cov = cell_coverage(after, cell, x, y);
            if 0 <= col < bitmap.width && 0 <= row < bitmap.height {
                let own = bitmap.coverage@[row * bitmap.width + col];
                if cell.bold && col > 0 {
                    let left = bitmap.coverage@[row * bitmap.width + col - 1];
                    cov == if left > own {
                        left
                    } else {
                        own
                    }
                } else {
                    cov == own
                }
            } else {
                cov == 0
            }
        }),
{
    let col = x - bitmap.xmin;
    let row = y - (face.metrics.baseline - bitmap.ymin - bitmap.height);
    if 0 <= col < bitmap.width && 0 <= row < bitmap.height {
        lemma_index(bitmap.width as int, bitmap.height as int, col, row);
        lemma_pixel_at(bitmap.width as int, col, row);
    }
}

/// A painted cell shows its glyph: at a pixel of the cell, the colour behind
/// the cell goes towards the foreground by as much as the glyph covers there.
/// A cell without a glyph shows the colour behind it.
pub proof fn a_painted_cell_shows_its_glyph(
    pixels: Seq<u32>,
    stride: int,
    x0: int,
    y0: int,
    face: Face,
    cell: Cell,
    alpha: u8,
    surface_bg: Rgb,
    x: int,
    y: int,
)
    requires
        0 <= x < face.metrics.width,
        0 <= y < face.metrics.height,
        0 <= x0,
        0 <= y0,
        x0 + face.metrics.width <= stride,
        (y0 + face.metrics.height) * stride <= pixels.len(),
    ensures
        0 <= (y0 + y) * stride + x0 + x < pixels.len(),
        ({
            let under = match cell.bg {
                Some(bg) => bg,
                None => surface_bg,
            };
            let cov = if cell.ch == ' ' || cell.ch == '\0' {
                0
            } else {
                cell_coverage(face, cell, x, y)
            };
            let painted = with_cell(pixels, stride, x0, y0, face, cell, alpha, surface_bg);
            &&& painted.len() == pixels.len()
            &&& painted[(y0 + y) * stride + x0 + x] == pixel_value(
                [
                    blended(under[0], cell.fg[0], cov) as u8,
                    blended(under[1], cell.fg[1], cov) as u8,
                    blended(under[2], cell.fg[2], cov) as u8,
                ],
                alpha,
            )
        }),
{
    lemma_pixel_at(stride, x0 + x, y0 + y);
    lemma_rows_end(stride, y0 + y, y0 + face.metrics.height);
    assert((y0 + y) * stride + (x0 + x) == (y0 + y) * stride + x0 + x);
    let color = cell_color(face, cell, x, y, surface_bg);
    a_pixel_holds_alpha_red_green_and_blue(color, alpha);
    let cov = cell_coverage(face, cell, x, y);
    let under = behind(cell, surface_bg);
    lemma_pixel_channels(
        color,
        [
            blended(under[0], cell.fg[0], cov) as u8,
            blended(under[1], cell.fg[1], cov) as u8,
            blended(under[2], cell.fg[2], cov) as u8,
        ],
        alpha,
    );
}

/// A painted cell touches no pixel outside it.
pub proof fn a_painted_cell_touches_nothing_else(
    pixels: Seq<u32>,
    stride: int,
    x0: int,
    y0: int,
    face: Face,
    cell: Cell,
    alpha: u8,
    surface_bg: Rgb,
    x: int,
    y: int,
)
    requires
        0 <= x < stride,
        0 <= y,
        y * stride + x < pixels.len(),
        x < x0 || x0 + face.metrics.width <= x || y < y0 || y0 + face.metrics.height <= y,
    ensures
        with_cell(pixels, stride, x0, y0, face, cell, alpha, surface_bg)[y * stride + x]
            == pixels[y * stride + x],
{
    lemma_pixel_at(stride, x, y);
}

/// A glyph that is loaded stays: another bitmap for it changes nothing, and a
/// bitmap for one glyph changes no other.
pub proof fn a_loaded_glyph_stays(
    face: Face,
    ch: char,
    bold: bool,
    bitmap: Bitmap,
    other: (char, bool),
)
    requires
        face.glyphs.contains_key(other),
    ensures
        loaded(face, ch, bold, bitmap).glyphs.contains_key(other),
        loaded(face, ch, bold, bitmap).glyphs[other] == face.glyphs[other],
        loaded(face, ch, bold, bitmap).metrics == face.metrics,
{
}

/// A cell without an extent counts as one pixel.
pub proof fn a_cell_without_an_extent_counts_as_a_pixel(length: u32)
    ensures
        cells_in(length, 0) == length,
{
}

/// A glyph is shown exactly by a cell that holds its character in its weight,
/// unless that is a space or nothing.
pub proof fn a_glyph_is_shown_by_the_cells_that_hold_it(
    cells: Seq<Cell>,
    i: int,
    ch: char,
    bold: bool,
)
    ensures
        0 <= i < cells.len() && cells[i].ch != ' ' && cells[i].ch != '\0' ==> shows(
            cells,
            cells[i].ch,
            cells[i].bold,
        ),
        (forall|k: int|
            0 <= k < cells.len() ==> (#[trigger] cells[k]).ch != ch || cells[k].bold != bold)
            ==> !shows(cells, ch, bold),
        !shows(cells, ' ', bold),
        !shows(cells, '\0', bold),
{
}

} // verus!
