//! Turning a new grid into pixels and a damage report.
//!
//! Two records, not one, and the distinction is the whole reason this module
//! exists.
//!
//! With more than one buffer in flight, the buffer we are about to draw into
//! holds the frame from *two* presentations ago while the compositor is
//! showing the one from the last. Those are different pictures, and they ask
//! different questions:
//!
//!   * **What must I repaint?** Whatever differs from what is in *this
//!     buffer*. Repainting more is wasted work.
//!   * **What must I report as damaged?** Whatever differs from what is *on
//!     the screen*. Reporting less leaves the screen wrong.
//!
//! They come apart whenever a cell changes and changes back: `X`, `Y`, `X`
//! over three frames. On the third frame the buffer still holds the first
//! `X`, so the buffer diff is empty; the screen holds `Y`, so the screen diff
//! is not.
//!
//! So: repaint the buffer diff, damage the union of both.
//!
//! The two are computed at different granularities on purpose. Repainting is
//! per cell, because a glyph clipped to its cell means a changed cell is
//! exactly the work a changed cell costs. Damage is per run of cells, with
//! small gaps coalesced, because every rectangle is a message the compositor
//! has to act on.

use vstd::prelude::*;

use crate::damage::{
    bounding_rect, bounds_lose_no_cell, bridge_of, changed_before, coarsen_to_rows, coarsened,
    coarsening_leaves_one_span_a_row, coarsening_loses_no_cell,
    coarsening_reaches_no_further_than_the_runs, differing, is_bounds, is_run, is_runs,
    lemma_merged_few, lemma_runs_congruent, merge_spans, merged, merging_keeps_the_cells, moved,
    note_change, rects_cover, run_before, run_dense, runs_cover, stale, stale_either,
    window_changed, CellRect, RowSpan,
};
use crate::grid::{lemma_index, Cell, Grid, GridView, Rgb};
use crate::raster::{
    a_pixel_holds_alpha_red_green_and_blue, cell_pixel, flood, in_box, lemma_pixel_at,
    lemma_pixel_of, lemma_rows_end, lemma_uncovered, pixel_value,
    pixel_x, pixel_y, with_cell, Face, Layout, Rasterizer,
};

verus! {

/// What a particular set of pixels holds: the grid, and the fade level it was
/// drawn at. Alpha belongs here because it multiplies every pixel: a frame
/// with identical cells but a different alpha is a different picture, and
/// diffing the cells alone would call it unchanged.
#[derive(PartialEq, Eq, Debug)]
pub struct Snapshot {
    pub grid: Grid,
    pub alpha: u8,
}

/// What a [`Snapshot`] records.
pub struct SnapshotView {
    pub grid: GridView,
    pub alpha: u8,
}

impl View for Snapshot {
    type V = SnapshotView;

    open spec fn view(&self) -> SnapshotView {
        SnapshotView { grid: self.grid@, alpha: self.alpha }
    }
}

/// What a record says, if there is one.
pub open spec fn recorded(snapshot: Option<&Snapshot>) -> Option<SnapshotView> {
    match snapshot {
        Some(s) => Some(s@),
        None => None,
    }
}

impl Clone for Snapshot {
    fn clone(&self) -> (r: Snapshot)
        ensures
            r@ == self@,
    {
        Snapshot { grid: self.grid.clone(), alpha: self.alpha }
    }
}

/// What is already drawn where, as this render found it.
///
/// Two records, because the buffer being drawn into and the screen being
/// looked at hold different frames.
#[derive(Clone, Copy)]
pub struct History<'a> {
    /// What these pixels currently hold.
    pub buffer: Option<&'a Snapshot>,
    /// What the compositor is currently showing.
    pub presented: Option<&'a Snapshot>,
}

impl<'a> Default for History<'a> {
    fn default() -> (r: History<'a>)
        ensures
            r.buffer is None,
            r.presented is None,
    {
        History { buffer: None, presented: None }
    }
}

impl<'a> History<'a> {
    /// Nothing known: a fresh buffer on a surface that has never presented.
    pub fn unknown() -> (r: History<'a>)
        ensures
            r.buffer is None,
            r.presented is None,
    {
        History::default()
    }

    /// Whether the records hold proper grids.
    pub open spec fn wf(&self) -> bool {
        &&& self.buffer is Some ==> self.buffer->0.grid.wf()
        &&& self.presented is Some ==> self.presented->0.grid.wf()
    }
}

/// The result of a render: where to damage, and how much work it cost.
#[derive(PartialEq, Eq, Debug)]
pub struct Rendered {
    pub rects: Vec<CellRect>,
    /// The screen holds something this render cannot describe in cell
    /// rectangles (a first frame, a fade step, a reconfigure), so the caller
    /// damages the whole surface, margins included.
    pub full_surface: bool,
    pub cells_drawn: usize,
}

impl Clone for Rendered {
    fn clone(&self) -> (r: Rendered)
        ensures
            r.rects@ == self.rects@,
            r.full_surface == self.full_surface,
            r.cells_drawn == self.cells_drawn,
    {
        let mut rects: Vec<CellRect> = Vec::new();
        let mut i: usize = 0;
        while i < self.rects.len()
            invariant
                i <= self.rects@.len(),
                rects@ == self.rects@.take(i as int),
            decreases self.rects@.len() - i,
        {
            rects.push(self.rects[i]);
            i += 1;
            proof {
                assert(rects@ =~= self.rects@.take(i as int));
            }
        }
        proof {
            assert(rects@ =~= self.rects@);
        }
        Rendered { rects, full_surface: self.full_surface, cells_drawn: self.cells_drawn }
    }
}

impl Default for Rendered {
    fn default() -> (r: Rendered)
        ensures
            r.rects@.len() == 0,
            !r.full_surface,
            r.cells_drawn == 0,
    {
        Rendered { rects: Vec::new(), full_surface: false, cells_drawn: 0 }
    }
}

/// How many unchanged cells two changed runs may be separated by and still be
/// reported as one damage rectangle.
///
/// Zero would be exact and would also hand the compositor a rectangle per
/// glyph on effects that scatter them. Eight cells is a couple of hundred
/// pixels of slack in exchange for far fewer rectangles.
pub const DAMAGE_GAP: usize = 8;

/// The most damage rectangles worth sending.
///
/// Every rectangle is a protocol message the compositor has to act on, and at
/// thirty frames a second a few hundred of them per frame costs more than the
/// copying they save. Past this, the report gets coarser rather than longer,
/// which is always allowed: damage may overstate what changed, never
/// understate it.
pub const MAX_RECTS: usize = 32;

/// The rectangles that report a list of runs: merged as they are if few
/// enough, merged a row at a time if that makes them few enough, and one
/// rectangle around all of them otherwise.
pub open spec fn reports(rects: Seq<CellRect>, runs: Seq<RowSpan>) -> bool {
    if merged(runs).len() <= MAX_RECTS {
        rects == merged(runs)
    } else if merged(coarsened(runs)).len() <= MAX_RECTS {
        rects == merged(coarsened(runs))
    } else {
        rects.len() == 1 && is_bounds(rects[0], runs)
    }
}

/// Report runs in at most [`MAX_RECTS`] rectangles.
pub fn bound_rects(runs: &[RowSpan]) -> (rects: Vec<CellRect>)
    requires
        runs@.len() > 0 ==> runs@[0].start <= runs@[0].end,
        forall|i: int| 0 <= i < runs@.len() ==> (#[trigger] runs@[i]).row < usize::MAX,
    ensures
        reports(rects@, runs@),
        rects@.len() <= MAX_RECTS,
{
    let rects = merge_spans(runs);
    if rects.len() <= MAX_RECTS {
        return rects;
    }
    let rows = coarsen_to_rows(runs);
    let rects = merge_spans(rows.as_slice());
    if rects.len() <= MAX_RECTS {
        return rects;
    }
    let mut out: Vec<CellRect> = Vec::new();
    if let Some(rect) = bounding_rect(runs) {
        out.push(rect);
    }
    out
}

/// The grid a record offers to compare against: the one it holds, if it was
/// drawn at this fade level and has this shape.
pub open spec fn baseline(
    snapshot: Option<SnapshotView>,
    alpha: u8,
    next: GridView,
) -> Option<GridView> {
    match snapshot {
        Some(s) => if s.alpha == alpha && s.grid.same_shape(next) {
            Some(s.grid)
        } else {
            None
        },
        None => None,
    }
}

/// A record is only a usable baseline if it describes the same picture this
/// frame is being compared against: same geometry, same fade level.
pub fn comparable<'a>(snapshot: Option<&'a Snapshot>, alpha: u8, next: &Grid) -> (r: Option<
    &'a Grid,
>)
    ensures
        (match r {
            Some(g) => Some(g@),
            None => None,
        }) == baseline(recorded(snapshot), alpha, next@),
        r is Some ==> snapshot is Some && r->0 == snapshot->0.grid,
{
    match snapshot {
        Some(s) => {
            if s.alpha == alpha && s.grid.same_shape(next) {
                Some(&s.grid)
            } else {
                None
            }
        },
        None => None,
    }
}

/// Whether a pixel belongs to the grid rather than to the margin.
pub open spec fn in_grid(layout: Layout, p: int) -> bool {
    in_box(
        p,
        layout.width as int,
        layout.origin_x as int,
        layout.origin_y as int,
        layout.cols * layout.cell.width,
        layout.rows * layout.cell.height,
    )
}

/// The column of the cell a pixel belongs to.
#[verifier::opaque]
pub open spec fn col_of(layout: Layout, p: int) -> int {
    (pixel_x(p, layout.width as int) - layout.origin_x) / (layout.cell.width as int)
}

/// The row of the cell a pixel belongs to.
#[verifier::opaque]
pub open spec fn row_of(layout: Layout, p: int) -> int {
    (pixel_y(p, layout.width as int) - layout.origin_y) / (layout.cell.height as int)
}

/// A pixel of the grid belongs to exactly one cell.
pub proof fn lemma_cell_of(layout: Layout, p: int)
    requires
        in_grid(layout, p),
    ensures
        0 <= col_of(layout, p) < layout.cols,
        0 <= row_of(layout, p) < layout.rows,
        layout.cell.width > 0,
        layout.cell.height > 0,
        forall|col: int, row: int|
            #[trigger] in_cell(layout, col, row, p) <==> (col == col_of(layout, p) && row == row_of(
                layout,
                p,
            )),
{
    reveal(col_of);
    reveal(row_of);
    let x = pixel_x(p, layout.width as int) - layout.origin_x;
    let y = pixel_y(p, layout.width as int) - layout.origin_y;
    lemma_slot(x, layout.cell.width as int, layout.cols as int);
    lemma_slot(y, layout.cell.height as int, layout.rows as int);
}

/// A position in a row of `n` slots of one size lies in exactly one of them.
proof fn lemma_slot(x: int, size: int, n: int)
    requires
        0 <= x < n * size,
        0 <= n,
        0 <= size,
    ensures
        size > 0,
        0 <= x / size < n,
        forall|k: int| #![trigger k * size] (k * size <= x < k * size + size) <==> k == x / size,
{
    assert(size > 0) by (nonlinear_arith)
        requires
            0 <= x < n * size,
            0 <= size,
    ;
    vstd::arithmetic::div_mod::lemma_fundamental_div_mod(x, size);
    vstd::arithmetic::div_mod::lemma_mod_bound(x, size);
    let q = x / size;
    assert(size * q == q * size) by (nonlinear_arith);
    assert(0 <= q) by (nonlinear_arith)
        requires
            0 <= x,
            x < q * size + size,
            size > 0,
    ;
    assert(q < n) by (nonlinear_arith)
        requires
            q * size <= x,
            x < n * size,
            size > 0,
    ;
    assert forall|k: int| #![trigger k * size] (k * size <= x < k * size + size) <==> k == q by {
        if k < q {
            assert(k * size + size <= q * size) by (nonlinear_arith)
                requires
                    k + 1 <= q,
                    size > 0,
            ;
        }
        if k > q {
            assert(q * size + size <= k * size) by (nonlinear_arith)
                requires
                    q + 1 <= k,
                    size > 0,
            ;
        }
    }
}

/// Whether a pixel lies in a cell.
pub open spec fn in_cell(layout: Layout, col: int, row: int, p: int) -> bool {
    in_box(
        p,
        layout.width as int,
        layout.origin_x + col * layout.cell.width,
        layout.origin_y + row * layout.cell.height,
        layout.cell.width as int,
        layout.cell.height as int,
    )
}

/// A pixel of a cell of the grid is a pixel of the grid.
pub proof fn lemma_cell_in_grid(layout: Layout, col: int, row: int, p: int)
    requires
        0 <= col < layout.cols,
        0 <= row < layout.rows,
        in_cell(layout, col, row, p),
    ensures
        in_grid(layout, p),
{
    lemma_rows_end(layout.cell.width as int, col, layout.cols as int);
    lemma_rows_end(layout.cell.height as int, row, layout.rows as int);
    assert(0 <= col * layout.cell.width && 0 <= row * layout.cell.height) by (nonlinear_arith)
        requires
            0 <= col,
            0 <= row,
    ;
}

/// One pixel of a whole picture: a pixel of the cell it belongs to, or the
/// background in the margin.
pub open spec fn grid_pixel(
    layout: Layout,
    face: Face,
    grid: GridView,
    alpha: u8,
    background: Rgb,
    p: int,
) -> u32 {
    if in_grid(layout, p) {
        let col = col_of(layout, p);
        let row = row_of(layout, p);
        cell_pixel(
            face,
            grid.at(col, row),
            pixel_x(p, layout.width as int) - (layout.origin_x + col * layout.cell.width),
            pixel_y(p, layout.width as int) - (layout.origin_y + row * layout.cell.height),
            alpha,
            background,
        )
    } else {
        pixel_value(background, alpha) as u32
    }
}

/// The picture of a grid: what `len` pixels show once it is drawn.
pub open spec fn picture(
    layout: Layout,
    face: Face,
    grid: GridView,
    alpha: u8,
    background: Rgb,
    len: nat,
) -> Seq<u32> {
    Seq::new(len, |p: int| grid_pixel(layout, face, grid, alpha, background, p))
}

/// Pixels with the cells repainted that a baseline lacks; the whole surface
/// when there is no baseline.
pub open spec fn repainted(
    pixels: Seq<u32>,
    layout: Layout,
    face: Face,
    next: GridView,
    base: Option<GridView>,
    alpha: u8,
    background: Rgb,
) -> Seq<u32> {
    Seq::new(
        pixels.len(),
        |p: int|
            if base is None || (in_grid(layout, p) && stale(
                next,
                base,
                col_of(layout, p),
                row_of(layout, p),
            )) {
                grid_pixel(layout, face, next, alpha, background, p)
            } else {
                pixels[p]
            },
    )
}

/// Whether the cell at an index has to be painted: it differs from the
/// baseline or, on a flooded surface, it shows more than the background.
pub open spec fn paints(next: GridView, base: Option<GridView>, i: int) -> bool {
    match base {
        Some(base) => next.cells[i] != base.cells[i],
        None => next.cells[i].bg is Some || next.cells[i].inked(),
    }
}

/// How many of the first `n` cells have to be painted.
pub open spec fn painted(next: GridView, base: Option<GridView>, n: nat) -> nat
    decreases n,
{
    if n == 0 {
        0
    } else {
        painted(next, base, (n - 1) as nat) + if paints(next, base, n - 1) {
            1nat
        } else {
            0
        }
    }
}

/// Whether rectangles report the damage of a frame: the runs of cells that
/// differ from either baseline, with gaps of up to [`DAMAGE_GAP`] bridged.
pub open spec fn is_damage(
    rects: Seq<CellRect>,
    next: GridView,
    base: Option<GridView>,
    screen: Option<GridView>,
) -> bool {
    exists|runs: Seq<RowSpan>|
        #![trigger reports(rects, runs)]
        reports(rects, runs) && is_runs(
            runs,
            stale_either(next, base, screen),
            next.cols,
            next.rows,
            DAMAGE_GAP as int,
        )
}

/// Draw `next` into `pixels` and report the damage.
pub fn render_frame(
    pixels: &mut [u32],
    layout: &Layout,
    raster: &Rasterizer,
    next: &Grid,
    history: History<'_>,
    alpha: u8,
    background: Rgb,
) -> (r: Rendered)
    requires
        next.wf(),
        next@.cols == layout.cols,
        next@.rows == layout.rows,
        history.wf(),
        raster.wf(),
        raster@.metrics == layout.cell,
        raster@.has_all(next@),
        layout.fits(),
        layout.width * layout.height <= old(pixels)@.len(),
    ensures
        final(pixels)@ == repainted(
            old(pixels)@,
            *layout,
            raster@,
            next@,
            baseline(recorded(history.buffer), alpha, next@),
            alpha,
            background,
        ),
        is_damage(
            r.rects@,
            next@,
            baseline(recorded(history.buffer), alpha, next@),
            baseline(recorded(history.presented), alpha, next@),
        ),
        r.rects@.len() <= MAX_RECTS,
        r.full_surface == (baseline(recorded(history.presented), alpha, next@) is None),
        r.cells_drawn == painted(
            next@,
            baseline(recorded(history.buffer), alpha, next@),
            next@.cells.len(),
        ),
{
    let buffer_base = comparable(history.buffer, alpha, next);
    let screen_base = comparable(history.presented, alpha, next);
    let ghost base = baseline(recorded(history.buffer), alpha, next@);
    let ghost screen = baseline(recorded(history.presented), alpha, next@);
    let ghost changed = stale_either(next@, base, screen);
    let ghost first = pixels@;
    let ghost goal = repainted(first, *layout, raster@, next@, base, alpha, background);

    let stride: usize = layout.width as usize;
    if buffer_base.is_none() {
        // Nothing here is reusable, so the margin outside the grid needs
        // painting too. It cannot change afterwards, which is why it never
        // appears in a damage rectangle.
        flood(pixels, background, alpha);
    }
    let ghost flooded = pixels@;

    // One pass over the grid decides both questions per cell.
    let cols: usize = next.cols();
    let rows: usize = next.rows();
    let mut cells_drawn: usize = 0;
    let mut runs: Vec<RowSpan> = Vec::new();
    let mut row: usize = 0;
    proof {
        assert(is_runs(
            runs@,
            changed_before(changed, 0, 0),
            cols as int,
            rows as int,
            DAMAGE_GAP as int,
        ));
        assert(0 * cols == 0) by (nonlinear_arith);
        assert forall|p: int| 0 <= p < goal.len() && in_grid(*layout, p) implies #[trigger] row_of(
            *layout,
            p,
        ) >= 0 && col_of(*layout, p) >= 0 by {
            lemma_cell_of(*layout, p);
        }
    }
    while row < rows
        invariant
            row <= rows,
            cols == next@.cols,
            rows == next@.rows,
            cols == layout.cols,
            rows == layout.rows,
            stride == layout.width,
            next.wf(),
            raster.wf(),
            raster@.metrics == layout.cell,
            raster@.has_all(next@),
            layout.fits(),
            layout.width * layout.height <= first.len(),
            buffer_base is Some ==> buffer_base->0.wf(),
            screen_base is Some ==> screen_base->0.wf(),
            base == (match buffer_base {
                Some(g) => Some(g@),
                None => None,
            }),
            screen == (match screen_base {
                Some(g) => Some(g@),
                None => None,
            }),
            base is Some ==> base->0.same_shape(next@),
            screen is Some ==> screen->0.same_shape(next@),
            changed == stale_either(next@, base, screen),
            goal == repainted(first, *layout, raster@, next@, base, alpha, background),
            flooded == if base is None {
                Seq::new(first.len(), |i: int| pixel_value(background, alpha) as u32)
            } else {
                first
            },
            pixels@.len() == first.len(),
            progress(pixels@, flooded, goal, *layout, 0, row as int),
            is_runs(
                runs@,
                changed_before(changed, 0, row as int),
                cols as int,
                rows as int,
                DAMAGE_GAP as int,
            ),
            0 <= row * cols <= next@.cells.len(),
            cells_drawn == painted(next@, base, (row * cols) as nat),
            cells_drawn <= row * cols,
        decreases rows - row,
    {
        let mut col: usize = 0;
        proof {
            assert(row * cols + cols <= cols * rows) by (nonlinear_arith)
                requires
                    row + 1 <= rows,
            ;
        }
        while col < cols
            invariant
                col <= cols,
                row < rows,
                cols == next@.cols,
                rows == next@.rows,
                cols == layout.cols,
                rows == layout.rows,
                stride == layout.width,
                next.wf(),
                raster.wf(),
                raster@.metrics == layout.cell,
                raster@.has_all(next@),
                layout.fits(),
                layout.width * layout.height <= first.len(),
                buffer_base is Some ==> buffer_base->0.wf(),
                screen_base is Some ==> screen_base->0.wf(),
                base == (match buffer_base {
                    Some(g) => Some(g@),
                    None => None,
                }),
                screen == (match screen_base {
                    Some(g) => Some(g@),
                    None => None,
                }),
                base is Some ==> base->0.same_shape(next@),
                screen is Some ==> screen->0.same_shape(next@),
                changed == stale_either(next@, base, screen),
                goal == repainted(first, *layout, raster@, next@, base, alpha, background),
                flooded == if base is None {
                    Seq::new(first.len(), |i: int| pixel_value(background, alpha) as u32)
                } else {
                    first
                },
                pixels@.len() == first.len(),
                progress(pixels@, flooded, goal, *layout, col as int, row as int),
                is_runs(
                    runs@,
                    changed_before(changed, col as int, row as int),
                    cols as int,
                    rows as int,
                    DAMAGE_GAP as int,
                ),
                0 <= row * cols,
                row * cols + cols <= next@.cells.len(),
                cells_drawn == painted(next@, base, (row * cols + col) as nat),
                cells_drawn <= row * cols + col,
            decreases cols - col,
        {
            proof {
                lemma_index(cols as int, rows as int, col as int, row as int);
            }
            let cell = next.get(col, row);
            let buffer_stale = match buffer_base {
                Some(prev) => prev.get(col, row) != cell,
                None => true,
            };
            let screen_stale = match screen_base {
                Some(prev) => prev.get(col, row) != cell,
                None => true,
            };
            let ghost before = pixels@;
            let mut drawn = false;
            if buffer_stale {
                // On a full repaint the surface is already flooded with the
                // background, so a cell that paints nothing beyond it can be
                // skipped: that is most of the screen, most of the time. The
                // pixels it would have written are identical either way.
                if buffer_base.is_some() || !cell.is_blank() {
                    proof {
                        lemma_cell_fits(*layout, col as int, row as int, first.len() as int);
                        assert(raster@.has(next@.cells[row * cols + col]));
                    }
                    let origin = layout.cell_origin(col, row);
                    raster.draw_cell(pixels, stride, origin, cell, alpha, background);
                    cells_drawn += 1;
                    drawn = true;
                }
            }
            proof {
                lemma_cell_done(
                    before,
                    pixels@,
                    first,
                    flooded,
                    goal,
                    *layout,
                    raster@,
                    next@,
                    base,
                    alpha,
                    background,
                    col as int,
                    row as int,
                    drawn,
                );
            }
            if buffer_stale || screen_stale {
                note_change(
                    &mut runs,
                    row,
                    col,
                    DAMAGE_GAP,
                    Ghost(changed),
                    Ghost(cols as int),
                    Ghost(rows as int),
                );
            } else {
                proof {
                    lemma_runs_congruent(
                        runs@,
                        changed_before(changed, col as int, row as int),
                        changed_before(changed, col + 1, row as int),
                        cols as int,
                        rows as int,
                        DAMAGE_GAP as int,
                    );
                }
            }
            col += 1;
        }
        proof {
            lemma_runs_congruent(
                runs@,
                changed_before(changed, cols as int, row as int),
                changed_before(changed, 0, row + 1),
                cols as int,
                rows as int,
                DAMAGE_GAP as int,
            );
            lemma_row_done(pixels@, flooded, goal, *layout, row as int);
            assert((row + 1) * cols == row * cols + cols) by (nonlinear_arith);
        }
        row += 1;
    }
    proof {
        lemma_runs_congruent(
            runs@,
            changed_before(changed, 0, rows as int),
            changed,
            cols as int,
            rows as int,
            DAMAGE_GAP as int,
        );
        assert(rows * cols == cols * rows) by (nonlinear_arith);
        assert forall|p: int| 0 <= p < first.len() implies pixels@[p] == goal[p] by {
            if in_grid(*layout, p) {
                lemma_cell_of(*layout, p);
            }
        }
        assert(pixels@ =~= goal);
        assert forall|i: int| 0 <= i < runs@.len() implies (#[trigger] runs@[i]).row < usize::MAX
            && runs@[i].start <= runs@[i].end by {
            assert(is_run(runs@[i], changed, cols as int, rows as int, DAMAGE_GAP as int));
        }
    }
    let rects = bound_rects(runs.as_slice());
    proof {
        assert(reports(rects@, runs@));
    }
    Rendered { rects, full_surface: screen_base.is_none(), cells_drawn }
}

/// Whether the cells before a position are painted and nothing else is
/// touched.
spec fn progress(
    pixels: Seq<u32>,
    flooded: Seq<u32>,
    goal: Seq<u32>,
    layout: Layout,
    col: int,
    row: int,
) -> bool {
    forall|p: int|
        0 <= p < goal.len() ==> #[trigger] pixels[p] == if in_grid(layout, p) && (row_of(layout, p)
            < row || (row_of(layout, p) == row && col_of(layout, p) < col)) {
            goal[p]
        } else {
            flooded[p]
        }
}

/// A cell of a grid that fits lies inside the buffer.
proof fn lemma_cell_fits(layout: Layout, col: int, row: int, len: int)
    requires
        layout.fits(),
        0 <= col < layout.cols,
        0 <= row < layout.rows,
        layout.width * layout.height <= len,
    ensures
        layout.origin_x + col * layout.cell.width + layout.cell.width <= layout.width,
        layout.origin_y + row * layout.cell.height + layout.cell.height <= layout.height,
        0 <= col * layout.cell.width,
        0 <= row * layout.cell.height,
        (layout.origin_y + row * layout.cell.height + layout.cell.height) * layout.width <= len,
{
    lemma_rows_end(layout.cell.width as int, col, layout.cols as int);
    lemma_rows_end(layout.cell.height as int, row, layout.rows as int);
    assert(0 <= col * layout.cell.width && 0 <= row * layout.cell.height) by (nonlinear_arith)
        requires
            0 <= col,
            0 <= row,
    ;
    let bottom = layout.origin_y + row * layout.cell.height + layout.cell.height;
    assert(bottom * layout.width <= layout.width * layout.height) by (nonlinear_arith)
        requires
            bottom <= layout.height,
            0 <= layout.width,
    ;
}

/// After a row the next one starts.
proof fn lemma_row_done(
    pixels: Seq<u32>,
    flooded: Seq<u32>,
    goal: Seq<u32>,
    layout: Layout,
    row: int,
)
    requires
        progress(pixels, flooded, goal, layout, layout.cols as int, row),
    ensures
        progress(pixels, flooded, goal, layout, 0, row + 1),
{
    assert forall|p: int| 0 <= p < goal.len() implies #[trigger] pixels[p] == if in_grid(layout, p)
        && (row_of(layout, p) < row + 1 || (row_of(layout, p) == row + 1 && col_of(layout, p)
        < 0)) {
        goal[p]
    } else {
        flooded[p]
    } by {
        if in_grid(layout, p) {
            lemma_cell_of(layout, p);
        }
    }
}

/// One cell further on, whether it was painted or left alone.
proof fn lemma_cell_done(
    before: Seq<u32>,
    after: Seq<u32>,
    first: Seq<u32>,
    flooded: Seq<u32>,
    goal: Seq<u32>,
    layout: Layout,
    face: Face,
    next: GridView,
    base: Option<GridView>,
    alpha: u8,
    background: Rgb,
    col: int,
    row: int,
    drawn: bool,
)
    requires
        next.wf(),
        next.cols == layout.cols,
        next.rows == layout.rows,
        base is Some ==> base->0.same_shape(next),
        0 <= col < layout.cols,
        0 <= row < layout.rows,
        face.metrics == layout.cell,
        goal == repainted(first, layout, face, next, base, alpha, background),
        flooded == if base is None {
            Seq::new(first.len(), |i: int| pixel_value(background, alpha) as u32)
        } else {
            first
        },
        before.len() == first.len(),
        progress(before, flooded, goal, layout, col, row),
        drawn == (stale(next, base, col, row) && (base is Some || next.at(col, row).bg is Some
            || next.at(col, row).inked())),
        after == if drawn {
            with_cell(
                before,
                layout.width as int,
                layout.origin_x + col * layout.cell.width,
                layout.origin_y + row * layout.cell.height,
                face,
                next.at(col, row),
                alpha,
                background,
            )
        } else {
            before
        },
    ensures
        progress(after, flooded, goal, layout, col + 1, row),
{
    assert forall|p: int| 0 <= p < goal.len() implies #[trigger] after[p] == if in_grid(layout, p)
        && (row_of(layout, p) < row || (row_of(layout, p) == row && col_of(layout, p) < col + 1)) {
        goal[p]
    } else {
        flooded[p]
    } by {
        assert(before[p] == if in_grid(layout, p) && (row_of(layout, p) < row || (row_of(layout, p)
            == row && col_of(layout, p) < col)) {
            goal[p]
        } else {
            flooded[p]
        });
        if in_cell(layout, col, row, p) {
            lemma_cell_in_grid(layout, col, row, p);
            lemma_cell_of(layout, p);
            if !drawn {
                if base is None {
                    let cell = next.at(col, row);
                    lemma_uncovered(
                        face,
                        cell,
                        pixel_x(p, layout.width as int) - (layout.origin_x + col
                            * layout.cell.width),
                        pixel_y(p, layout.width as int) - (layout.origin_y + row
                            * layout.cell.height),
                        background,
                    );
                }
            }
        } else if in_grid(layout, p) {
            lemma_cell_of(layout, p);
        }
    }
}

/// A cell rectangle in surface pixels: left, top, width and height.
pub fn pixel_rect(layout: &Layout, rect: CellRect) -> (r: (i32, i32, i32, i32))
    requires
        layout.origin_x + rect.col * layout.cell.width <= u32::MAX,
        layout.origin_y + rect.row * layout.cell.height <= u32::MAX,
        (rect.cols as u32) * layout.cell.width <= u32::MAX,
        (rect.rows as u32) * layout.cell.height <= u32::MAX,
    ensures
        r.0 == (layout.origin_x + rect.col * layout.cell.width) as u32 as i32,
        r.1 == (layout.origin_y + rect.row * layout.cell.height) as u32 as i32,
        r.2 == ((rect.cols as u32) * layout.cell.width) as u32 as i32,
        r.3 == ((rect.rows as u32) * layout.cell.height) as u32 as i32,
{
    let (x, y) = layout.cell_origin(rect.col, rect.row);
    proof {
        let cols = rect.cols as u32;
        let rows = rect.rows as u32;
        assert(0 <= cols * layout.cell.width) by (nonlinear_arith);
        assert(0 <= rows * layout.cell.height) by (nonlinear_arith);
    }
    let width: u32 = #[verifier::truncate] (rect.cols as u32) * layout.cell.width;
    let height: u32 = #[verifier::truncate] (rect.rows as u32) * layout.cell.height;
    (
        #[verifier::truncate] (x as i32),
        #[verifier::truncate] (y as i32),
        #[verifier::truncate] (width as i32),
        #[verifier::truncate] (height as i32),
    )
}

/// The cells that a list of runs covers, run by run.
pub open spec fn run_area(runs: Seq<RowSpan>) -> int
    decreases runs.len(),
{
    if runs.len() == 0 {
        0
    } else {
        run_area(runs.drop_last()) + (runs.last().end - runs.last().start)
    }
}

/// Total cells covered by a run list: how much area was declared damaged, as
/// distinct from [`crate::damage::changed_cells`], which is how much actually
/// moved.
pub fn run_cells(runs: &[RowSpan]) -> (n: usize)
    requires
        forall|i: int| 0 <= i < runs@.len() ==> (#[trigger] runs@[i]).start <= runs@[i].end,
        run_area(runs@) <= usize::MAX,
    ensures
        n == run_area(runs@),
{
    let mut n: usize = 0;
    let mut i: usize = 0;
    while i < runs.len()
        invariant
            i <= runs@.len(),
            forall|k: int| 0 <= k < runs@.len() ==> (#[trigger] runs@[k]).start <= runs@[k].end,
            run_area(runs@) <= usize::MAX,
            n == run_area(runs@.take(i as int)),
        decreases runs@.len() - i,
    {
        proof {
            assert(runs@.take(i + 1).drop_last() =~= runs@.take(i as int));
            assert(runs@.take(runs@.len() as int) =~= runs@);
            lemma_area_grows(runs@, i + 1, runs@.len() as int);
        }
        n += runs[i].len();
        i += 1;
    }
    proof {
        assert(runs@.take(i as int) =~= runs@);
    }
    n
}

/// More runs cover no fewer cells.
proof fn lemma_area_grows(runs: Seq<RowSpan>, i: int, j: int)
    requires
        forall|k: int| 0 <= k < runs.len() ==> (#[trigger] runs[k]).start <= runs[k].end,
        0 <= i <= j <= runs.len(),
    ensures
        run_area(runs.take(i)) <= run_area(runs.take(j)),
    decreases j - i,
{
    if i < j {
        lemma_area_grows(runs, i, j - 1);
        assert(runs.take(j).drop_last() =~= runs.take(j - 1));
        assert(runs.take(j).last() == runs[j - 1]);
    }
}

/// How many of the first `n` numbers a predicate picks out.
spec fn count(picked: spec_fn(int) -> bool, n: nat) -> nat
    decreases n,
{
    if n == 0 {
        0
    } else {
        count(picked, (n - 1) as nat) + if picked(n - 1) {
            1nat
        } else {
            0
        }
    }
}

/// Who picks more counts no fewer.
proof fn lemma_count_grows(a: spec_fn(int) -> bool, b: spec_fn(int) -> bool, n: nat)
    requires
        forall|k: int| 0 <= k < n && #[trigger] a(k) ==> b(k),
    ensures
        count(a, n) <= count(b, n),
    decreases n,
{
    if n > 0 {
        lemma_count_grows(a, b, (n - 1) as nat);
        assert(a(n - 1) ==> b(n - 1));
    }
}

/// Picking a further stretch of numbers counts as many more.
proof fn lemma_count_stretch(
    a: spec_fn(int) -> bool,
    b: spec_fn(int) -> bool,
    lo: int,
    hi: int,
    n: nat,
)
    requires
        0 <= lo <= hi,
        forall|k: int| #![trigger a(k)] #![trigger b(k)] b(k) == (a(k) || lo <= k < hi),
        forall|k: int| lo <= k < hi ==> !#[trigger] a(k),
    ensures
        count(b, n) == count(a, n) + if n <= lo {
            0int
        } else if n <= hi {
            n - lo
        } else {
            hi - lo
        },
    decreases n,
{
    if n > 0 {
        lemma_count_stretch(a, b, lo, hi, (n - 1) as nat);
        assert(b(n - 1) == (a(n - 1) || lo <= n - 1 < hi));
    }
}

/// Whether a run covers the `k`th cell of a grid, reading row by row.
spec fn covers_nth(run: RowSpan, cols: int, k: int) -> bool {
    run.row * cols + run.start <= k < run.row * cols + run.end
}

/// Whether some run covers the `k`th cell of a grid.
spec fn any_covers_nth(runs: Seq<RowSpan>, cols: int, k: int) -> bool {
    exists|i: int| 0 <= i < runs.len() && covers_nth(#[trigger] runs[i], cols, k)
}

/// Runs that do not overlap cover as many cells as they are long together.
proof fn lemma_area_counts(
    runs: Seq<RowSpan>,
    changed: spec_fn(int, int) -> bool,
    cols: int,
    rows: int,
    bridge: int,
    n: nat,
)
    requires
        forall|i: int|
            0 <= i < runs.len() ==> is_run(#[trigger] runs[i], changed, cols, rows, bridge),
        forall|i: int, j: int|
            0 <= i < j < runs.len() ==> run_before(#[trigger] runs[i], #[trigger] runs[j], bridge),
        0 <= bridge,
        0 <= cols,
        0 <= rows,
        n == cols * rows,
    ensures
        run_area(runs) == count(|k: int| any_covers_nth(runs, cols, k), n),
    decreases runs.len(),
{
    let all = |k: int| any_covers_nth(runs, cols, k);
    if runs.len() > 0 {
        let head = runs.drop_last();
        let run = runs.last();
        let some = |k: int| any_covers_nth(head, cols, k);
        lemma_area_counts(head, changed, cols, rows, bridge, n);
        assert(is_run(runs[runs.len() - 1], changed, cols, rows, bridge));
        let base = run.row * cols;
        lemma_index(cols, rows, 0, run.row as int);
        let lo = base + run.start;
        let hi = base + run.end;
        assert forall|k: int| lo <= k < hi implies !#[trigger] some(k) by {
            if any_covers_nth(head, cols, k) {
                let i = choose|i: int|
                    0 <= i < head.len() && covers_nth(#[trigger] head[i], cols, k);
                assert(run_before(runs[i], runs[runs.len() - 1], bridge));
                assert(is_run(runs[i], changed, cols, rows, bridge));
                if runs[i].row < run.row {
                    assert(runs[i].row * cols + cols <= base) by (nonlinear_arith)
                        requires
                            runs[i].row + 1 <= run.row,
                            cols >= 0,
                            base == run.row * cols,
                    ;
                }
            }
        }
        assert forall|k: int|
            #![trigger some(k)]
            #![trigger all(k)]
            all(k) == (some(k) || lo <= k < hi) by {
            if any_covers_nth(runs, cols, k) {
                let i = choose|i: int|
                    0 <= i < runs.len() && covers_nth(#[trigger] runs[i], cols, k);
                if i < head.len() {
                    assert(covers_nth(head[i], cols, k));
                }
            }
            if any_covers_nth(head, cols, k) {
                let i = choose|i: int|
                    0 <= i < head.len() && covers_nth(#[trigger] head[i], cols, k);
                assert(covers_nth(runs[i], cols, k));
            }
            if lo <= k < hi {
                assert(covers_nth(runs[runs.len() - 1], cols, k));
            }
        }
        lemma_count_stretch(some, all, lo, hi, n);
    } else {
        let none = |k: int| false;
        lemma_count_grows(all, none, n);
        lemma_count_nothing(n);
    }
}

/// Nothing picked counts nothing.
proof fn lemma_count_nothing(n: nat)
    ensures
        count(|k: int| false, n) == 0,
    decreases n,
{
    if n > 0 {
        lemma_count_nothing((n - 1) as nat);
    }
}

/// Everything picked counts everything.
proof fn lemma_count_everything(n: nat)
    ensures
        count(|k: int| true, n) == n,
    decreases n,
{
    if n > 0 {
        lemma_count_everything((n - 1) as nat);
    }
}

/// Whether the `k`th cell of a grid is not what the baseline holds there.
spec fn stale_nth(next: GridView, prev: Option<GridView>, k: int) -> bool {
    match prev {
        Some(prev) => next.same_shape(prev) ==> next.cells[k] != prev.cells[k],
        None => true,
    }
}

/// What moved is what is stale, counted.
proof fn lemma_moved_counts(next: GridView, prev: Option<GridView>, n: nat)
    requires
        n <= next.cells.len(),
    ensures
        count(|k: int| stale_nth(next, prev, k), n) == match prev {
            Some(prev) => if next.same_shape(prev) {
                differing(next.cells, prev.cells, n)
            } else {
                n
            },
            None => n,
        },
    decreases n,
{
    if n > 0 {
        lemma_moved_counts(next, prev, (n - 1) as nat);
    }
}

/// Damage may overstate what changed, never understate it, and without a gap
/// it is exact: the area of the runs between two grids is at least the number
/// of cells that moved, equal to it where no unchanged cell is bridged, and no
/// more than there are cells.
pub proof fn the_declared_area_is_no_less_than_what_moved(
    runs: Seq<RowSpan>,
    next: GridView,
    prev: Option<GridView>,
    gap: usize,
)
    requires
        next.wf(),
        prev is Some ==> prev->0.wf(),
        is_runs(
            runs,
            |col: int, row: int| stale(next, prev, col, row),
            next.cols,
            next.rows,
            bridge_of(gap),
        ),
    ensures
        moved(next, prev) <= run_area(runs) <= next.cells.len(),
        gap == 0 ==> run_area(runs) == moved(next, prev),
{
    let changed = |col: int, row: int| stale(next, prev, col, row);
    let cols = next.cols;
    let n = next.cells.len();
    let covered = |k: int| any_covers_nth(runs, cols, k);
    let moving = |k: int| stale_nth(next, prev, k);
    lemma_area_counts(runs, changed, cols, next.rows, bridge_of(gap), n);
    lemma_moved_counts(next, prev, n);
    lemma_count_everything(n);
    lemma_count_grows(covered, |k: int| true, n);
    assert forall|k: int| 0 <= k < n && #[trigger] moving(k) implies covered(k) by {
        assert(cols > 0 && next.rows > 0) by (nonlinear_arith)
            requires
                0 < cols * next.rows,
                0 <= cols,
                0 <= next.rows,
        ;
        lemma_pixel_of(cols, k);
        let col = pixel_x(k, cols);
        let row = pixel_y(k, cols);
        assert(row < next.rows) by (nonlinear_arith)
            requires
                row * cols <= k,
                k < cols * next.rows,
                0 < cols,
        ;
        assert(changed(col, row));
        assert(runs_cover(runs, col, row));
        let i = choose|i: int| 0 <= i < runs.len() && (#[trigger] runs[i]).covers(col, row);
        assert(covers_nth(runs[i], cols, k));
    }
    lemma_count_grows(moving, covered, n);
    if gap == 0 {
        assert forall|k: int| 0 <= k < n && #[trigger] covered(k) implies moving(k) by {
            let i = choose|i: int| 0 <= i < runs.len() && covers_nth(#[trigger] runs[i], cols, k);
            let run = runs[i];
            assert(is_run(run, changed, cols, next.rows, 0));
            let col = k - run.row * cols;
            assert(window_changed(changed, col, 0, run.row as int)) by {
                reveal(run_dense);
            }
            assert(changed(col, run.row as int));
        }
        lemma_count_grows(covered, moving, n);
    }
}

/// Without a baseline a render draws the whole picture, whatever the pixels
/// held before.
pub proof fn an_unknown_buffer_is_drawn_whole(
    pixels: Seq<u32>,
    layout: Layout,
    face: Face,
    next: GridView,
    alpha: u8,
    background: Rgb,
)
    ensures
        repainted(pixels, layout, face, next, None, alpha, background) == picture(
            layout,
            face,
            next,
            alpha,
            background,
            pixels.len(),
        ),
{
    assert(repainted(pixels, layout, face, next, None, alpha, background) =~= picture(
        layout,
        face,
        next,
        alpha,
        background,
        pixels.len(),
    ));
}

/// An incremental render matches a full one: over pixels that hold the picture
/// of the baseline, repainting the cells that differ gives exactly the picture
/// of the new grid.
pub proof fn an_incremental_render_matches_a_full_one(
    layout: Layout,
    face: Face,
    prev: GridView,
    next: GridView,
    alpha: u8,
    background: Rgb,
    len: nat,
)
    requires
        next.wf(),
        next.same_shape(prev),
        next.cols == layout.cols,
        next.rows == layout.rows,
    ensures
        repainted(
            picture(layout, face, prev, alpha, background, len),
            layout,
            face,
            next,
            Some(prev),
            alpha,
            background,
        ) == picture(layout, face, next, alpha, background, len),
{
    let before = picture(layout, face, prev, alpha, background, len);
    let after = picture(layout, face, next, alpha, background, len);
    assert(repainted(before, layout, face, next, Some(prev), alpha, background) =~= after);
}

/// Loading more glyphs changes no picture that was already complete, so what a
/// buffer holds stays described by its record while the cache grows.
pub proof fn a_growing_face_keeps_pictures(
    layout: Layout,
    face: Face,
    larger: Face,
    grid: GridView,
    alpha: u8,
    background: Rgb,
    len: nat,
)
    requires
        face.grows_to(larger),
        face.has_all(grid),
        grid.wf(),
        grid.cols == layout.cols,
        grid.rows == layout.rows,
    ensures
        picture(layout, face, grid, alpha, background, len) == picture(
            layout,
            larger,
            grid,
            alpha,
            background,
            len,
        ),
{
    assert forall|p: int| 0 <= p < len implies grid_pixel(
        layout,
        face,
        grid,
        alpha,
        background,
        p,
    ) == grid_pixel(layout, larger, grid, alpha, background, p) by {
        if in_grid(layout, p) {
            lemma_cell_of(layout, p);
            let col = col_of(layout, p);
            let row = row_of(layout, p);
            lemma_index(grid.cols, grid.rows, col, row);
            let cell = grid.cells[row * grid.cols + col];
            assert(face.has(cell));
            if cell.inked() {
                let key = (cell.ch, cell.bold);
                assert(face.glyphs.contains_key(key));
                assert(larger.glyphs.contains_key(key));
                assert(larger.glyphs[key] == face.glyphs[key]);
            }
            assert(cell == grid.at(col, row));
        }
    }
    assert(picture(layout, face, grid, alpha, background, len) =~= picture(
        layout,
        larger,
        grid,
        alpha,
        background,
        len,
    ));
}

/// A grid has no more runs than cells.
proof fn lemma_few_runs(
    runs: Seq<RowSpan>,
    changed: spec_fn(int, int) -> bool,
    cols: int,
    rows: int,
    bridge: int,
    n: int,
)
    requires
        is_runs(runs, changed, cols, rows, bridge),
        0 <= bridge,
        0 < n <= runs.len(),
    ensures
        n <= runs[n - 1].row * cols + runs[n - 1].start + 1 <= cols * rows,
    decreases n,
{
    let run = runs[n - 1];
    assert(is_run(run, changed, cols, rows, bridge));
    lemma_index(cols, rows, run.start as int, run.row as int);
    assert(run.row * cols >= 0) by (nonlinear_arith)
        requires
            cols >= 0,
    ;
    if n > 1 {
        lemma_few_runs(runs, changed, cols, rows, bridge, n - 1);
        let prev = runs[n - 2];
        assert(is_run(prev, changed, cols, rows, bridge));
        assert(run_before(prev, run, bridge));
        if prev.row < run.row {
            assert(prev.row * cols + cols <= run.row * cols) by (nonlinear_arith)
                requires
                    prev.row + 1 <= run.row,
                    cols >= 0,
            ;
        }
    }
}

/// Coarsening runs that lie in a grid gives spans that lie in it, and no more
/// of them.
proof fn lemma_coarsened_inside(runs: Seq<RowSpan>, cols: int, rows: int)
    requires
        forall|i: int|
            0 <= i < runs.len() ==> (#[trigger] runs[i]).end <= cols && runs[i].row < rows,
    ensures
        coarsened(runs).len() <= runs.len(),
        forall|i: int|
            0 <= i < coarsened(runs).len() ==> (#[trigger] coarsened(runs)[i]).end <= cols
                && coarsened(runs)[i].row < rows,
    decreases runs.len(),
{
    if runs.len() > 0 {
        let head = runs.drop_last();
        assert forall|i: int| 0 <= i < head.len() implies (#[trigger] head[i]).end <= cols
            && head[i].row < rows by {
            assert(head[i] == runs[i]);
        }
        lemma_coarsened_inside(head, cols, rows);
        assert(runs.last() == runs[runs.len() - 1]);
    }
}

/// Damage never understates: a cell that differs from what the buffer held or
/// from what the screen shows lies in a reported rectangle.
pub proof fn damage_never_understates(
    rects: Seq<CellRect>,
    next: GridView,
    base: Option<GridView>,
    screen: Option<GridView>,
    col: int,
    row: int,
)
    requires
        next.wf(),
        is_damage(rects, next, base, screen),
        next.contains(col, row),
        stale(next, base, col, row) || stale(next, screen, col, row),
    ensures
        rects_cover(rects, col, row),
{
    let changed = stale_either(next, base, screen);
    let runs = choose|runs: Seq<RowSpan>|
        #![trigger reports(rects, runs)]
        reports(rects, runs) && is_runs(runs, changed, next.cols, next.rows, DAMAGE_GAP as int);
    assert(changed(col, row));
    assert(runs_cover(runs, col, row));
    lemma_runs_inside(runs, changed, next);
    if merged(runs).len() <= MAX_RECTS {
        merging_keeps_the_cells(runs, col, row);
    } else if merged(coarsened(runs)).len() <= MAX_RECTS {
        coarsening_loses_no_cell(runs, col, row);
        lemma_coarsened_inside(runs, next.cols, next.rows);
        merging_keeps_the_cells(coarsened(runs), col, row);
    } else {
        bounds_lose_no_cell(rects[0], runs, col, row);
    }
}

/// The runs of a grid lie in it, and there are not too many to count.
proof fn lemma_runs_inside(
    runs: Seq<RowSpan>,
    changed: spec_fn(int, int) -> bool,
    grid: GridView,
)
    requires
        grid.wf(),
        is_runs(runs, changed, grid.cols, grid.rows, DAMAGE_GAP as int),
    ensures
        runs.len() <= usize::MAX,
        forall|i: int|
            0 <= i < runs.len() ==> (#[trigger] runs[i]).end <= grid.cols && runs[i].row
                < grid.rows,
{
    if runs.len() > 0 {
        lemma_few_runs(
            runs,
            changed,
            grid.cols,
            grid.rows,
            DAMAGE_GAP as int,
            runs.len() as int,
        );
    }
    assert forall|i: int| 0 <= i < runs.len() implies (#[trigger] runs[i]).end <= grid.cols
        && runs[i].row < grid.rows by {
        assert(is_run(runs[i], changed, grid.cols, grid.rows, DAMAGE_GAP as int));
    }
}

/// The margin is never reported as damaged: every reported rectangle holds
/// cells of the grid only.
pub proof fn the_margin_is_never_reported_as_damaged(
    rects: Seq<CellRect>,
    next: GridView,
    base: Option<GridView>,
    screen: Option<GridView>,
    col: int,
    row: int,
)
    requires
        next.wf(),
        is_damage(rects, next, base, screen),
        rects_cover(rects, col, row),
    ensures
        next.contains(col, row),
{
    let changed = stale_either(next, base, screen);
    let runs = choose|runs: Seq<RowSpan>|
        #![trigger reports(rects, runs)]
        reports(rects, runs) && is_runs(runs, changed, next.cols, next.rows, DAMAGE_GAP as int);
    lemma_runs_inside(runs, changed, next);
    if merged(runs).len() <= MAX_RECTS {
        merging_keeps_the_cells(runs, col, row);
    } else if merged(coarsened(runs)).len() <= MAX_RECTS {
        lemma_coarsened_inside(runs, next.cols, next.rows);
        merging_keeps_the_cells(coarsened(runs), col, row);
    }
}

/// What a compositor shows that copies nothing but what it was told to: the
/// damaged cells from the buffer, the rest as it was.
pub open spec fn composited(
    shown: Seq<u32>,
    buffer: Seq<u32>,
    layout: Layout,
    rects: Seq<CellRect>,
    full_surface: bool,
) -> Seq<u32> {
    Seq::new(
        shown.len(),
        |p: int|
            if full_surface || (in_grid(layout, p) && rects_cover(
                rects,
                col_of(layout, p),
                row_of(layout, p),
            )) {
                buffer[p]
            } else {
                shown[p]
            },
    )
}

/// A compositor that copies nothing but the reported damage ends up showing
/// exactly the new picture, whatever two frames the buffer and the screen held
/// before.
pub proof fn a_strict_compositor_shows_the_new_frame(
    shown: Seq<u32>,
    pixels: Seq<u32>,
    layout: Layout,
    face: Face,
    next: GridView,
    base: Option<GridView>,
    screen: Option<GridView>,
    alpha: u8,
    background: Rgb,
    rects: Seq<CellRect>,
)
    requires
        next.wf(),
        next.cols == layout.cols,
        next.rows == layout.rows,
        base is Some ==> base->0.same_shape(next) && pixels == picture(
            layout,
            face,
            base->0,
            alpha,
            background,
            pixels.len(),
        ),
        screen is Some ==> screen->0.same_shape(next) && shown == picture(
            layout,
            face,
            screen->0,
            alpha,
            background,
            pixels.len(),
        ),
        shown.len() == pixels.len(),
        is_damage(rects, next, base, screen),
    ensures
        composited(
            shown,
            repainted(pixels, layout, face, next, base, alpha, background),
            layout,
            rects,
            screen is None,
        ) == picture(layout, face, next, alpha, background, pixels.len()),
{
    let buffer = repainted(pixels, layout, face, next, base, alpha, background);
    let after = picture(layout, face, next, alpha, background, pixels.len());
    if base is Some {
        an_incremental_render_matches_a_full_one(
            layout,
            face,
            base->0,
            next,
            alpha,
            background,
            pixels.len(),
        );
    } else {
        an_unknown_buffer_is_drawn_whole(pixels, layout, face, next, alpha, background);
    }
    assert forall|p: int| 0 <= p < shown.len() implies composited(
        shown,
        buffer,
        layout,
        rects,
        screen is None,
    )[p] == after[p] by {
        if screen is Some && in_grid(layout, p) {
            lemma_cell_of(layout, p);
            let col = col_of(layout, p);
            let row = row_of(layout, p);
            if stale(next, screen, col, row) {
                damage_never_understates(rects, next, base, screen, col, row);
            }
        }
    }
    assert(composited(shown, buffer, layout, rects, screen is None) =~= after);
}

/// An unchanged frame costs nothing: no cell is painted, no pixel changes and
/// nothing is reported.
pub proof fn an_unchanged_frame_costs_nothing(
    pixels: Seq<u32>,
    layout: Layout,
    face: Face,
    next: GridView,
    alpha: u8,
    background: Rgb,
    rects: Seq<CellRect>,
)
    requires
        is_damage(rects, next, Some(next), Some(next)),
    ensures
        rects.len() == 0,
        painted(next, Some(next), next.cells.len()) == 0,
        repainted(pixels, layout, face, next, Some(next), alpha, background) == pixels,
{
    let changed = stale_either(next, Some(next), Some(next));
    let runs = choose|runs: Seq<RowSpan>|
        #![trigger reports(rects, runs)]
        reports(rects, runs) && is_runs(runs, changed, next.cols, next.rows, DAMAGE_GAP as int);
    if runs.len() > 0 {
        assert(is_run(runs[0], changed, next.cols, next.rows, DAMAGE_GAP as int));
        assert(false);
    }
    lemma_nothing_painted(next, next.cells.len());
    assert(repainted(pixels, layout, face, next, Some(next), alpha, background) =~= pixels);
}

proof fn lemma_nothing_painted(next: GridView, n: nat)
    ensures
        painted(next, Some(next), n) == 0,
    decreases n,
{
    if n > 0 {
        lemma_nothing_painted(next, (n - 1) as nat);
    }
}

/// A fade step repaints and damages everything: a record made at another fade
/// level is no baseline, so every pixel is redrawn and every cell reported.
pub proof fn a_fade_step_repaints_and_damages_everything(
    snapshot: SnapshotView,
    pixels: Seq<u32>,
    layout: Layout,
    face: Face,
    next: GridView,
    alpha: u8,
    background: Rgb,
    rects: Seq<CellRect>,
    col: int,
    row: int,
)
    requires
        snapshot.alpha != alpha,
        next.wf(),
        is_damage(
            rects,
            next,
            baseline(Some(snapshot), alpha, next),
            baseline(Some(snapshot), alpha, next),
        ),
        next.contains(col, row),
    ensures
        baseline(Some(snapshot), alpha, next) is None,
        rects_cover(rects, col, row),
        repainted(
            pixels,
            layout,
            face,
            next,
            baseline(Some(snapshot), alpha, next),
            alpha,
            background,
        ) == picture(layout, face, next, alpha, background, pixels.len()),
{
    damage_never_understates(rects, next, None, None, col, row);
    an_unknown_buffer_is_drawn_whole(pixels, layout, face, next, alpha, background);
}

/// A record is a baseline exactly if it was drawn at the fade level and has the
/// shape of what is compared with it, and then it is compared as it is.
pub proof fn a_record_is_a_baseline_at_its_own_level_and_shape(
    record: SnapshotView,
    alpha: u8,
    next: GridView,
)
    ensures
        record.alpha == alpha && record.grid.cols == next.cols && record.grid.rows == next.rows
            ==> baseline(Some(record), alpha, next) == Some(record.grid),
        record.alpha != alpha || record.grid.cols != next.cols || record.grid.rows != next.rows
            ==> baseline(Some(record), alpha, next) is None,
        baseline(None, alpha, next) is None,
{
}

/// Every pixel of a cell shows that cell: in the picture of a grid, the pixel at
/// a place inside the cell at a column and a row of the grid is what painting
/// that cell puts there.
pub proof fn every_cell_is_shown_in_its_place(
    layout: Layout,
    face: Face,
    grid: GridView,
    alpha: u8,
    background: Rgb,
    len: nat,
    col: int,
    row: int,
    x: int,
    y: int,
)
    requires
        layout.fits(),
        0 <= col < layout.cols,
        0 <= row < layout.rows,
        0 <= x < layout.cell.width,
        0 <= y < layout.cell.height,
        layout.width * layout.height <= len,
    ensures
        ({
            let px = layout.origin_x + col * layout.cell.width + x;
            let py = layout.origin_y + row * layout.cell.height + y;
            &&& 0 <= py * layout.width + px < len
            &&& picture(layout, face, grid, alpha, background, len)[py * layout.width + px]
                == cell_pixel(face, grid.cells[row * grid.cols + col], x, y, alpha, background)
        }),
{
    let px = layout.origin_x + col * layout.cell.width + x;
    let py = layout.origin_y + row * layout.cell.height + y;
    let p = py * layout.width + px;
    lemma_rows_end(layout.cell.width as int, col, layout.cols as int);
    lemma_rows_end(layout.cell.height as int, row, layout.rows as int);
    assert(0 <= col * layout.cell.width && 0 <= row * layout.cell.height) by (nonlinear_arith)
        requires
            0 <= col,
            0 <= row,
    ;
    lemma_pixel_at(layout.width as int, px, py);
    lemma_rows_end(layout.width as int, py, layout.height as int);
    assert(layout.height * layout.width == layout.width * layout.height) by (nonlinear_arith);
    assert(in_cell(layout, col, row, p));
    lemma_cell_in_grid(layout, col, row, p);
    lemma_cell_of(layout, p);
}

/// The margin shows the background, at the fade level, and nothing else.
pub proof fn the_margin_shows_the_background(
    layout: Layout,
    face: Face,
    grid: GridView,
    alpha: u8,
    background: Rgb,
    len: nat,
    px: int,
    py: int,
)
    requires
        0 <= px < layout.width,
        0 <= py < layout.height,
        py * layout.width + px < len,
        px < layout.origin_x || layout.origin_x + layout.cols * layout.cell.width <= px || py
            < layout.origin_y || layout.origin_y + layout.rows * layout.cell.height <= py,
    ensures
        picture(layout, face, grid, alpha, background, len)[py * layout.width + px]
            == pixel_value(background, alpha),
{
    lemma_pixel_at(layout.width as int, px, py);
    a_pixel_holds_alpha_red_green_and_blue(background, alpha);
}

/// A cell that differs from the baseline is painted, and no other is: the count
/// is that of the cells that differ.
pub proof fn what_is_painted_is_what_differs(next: GridView, base: GridView, n: nat)
    requires
        n <= next.cells.len(),
    ensures
        painted(next, Some(base), n) == differing(next.cells, base.cells, n),
    decreases n,
{
    if n > 0 {
        what_is_painted_is_what_differs(next, base, (n - 1) as nat);
    }
}

/// On a flooded surface a cell is painted exactly if it shows a symbol or has a
/// background of its own: no cell of white space without one counts, and every
/// other counts one.
pub proof fn on_a_flooded_surface_only_what_shows_is_painted(
    grid: GridView,
    i: int,
    cell: Cell,
    n: nat,
)
    requires
        0 <= i < n <= grid.cells.len(),
        grid.cells[i].bg is None,
        grid.cells[i].ch == ' ' || grid.cells[i].ch == '\0',
    ensures
        ({
            let after = GridView { cells: grid.cells.update(i, cell), ..grid };
            painted(after, None, n) == painted(grid, None, n) + if cell.bg is Some || (cell.ch
                != ' ' && cell.ch != '\0') {
                1int
            } else {
                0
            }
        }),
    decreases n,
{
    let after = GridView { cells: grid.cells.update(i, cell), ..grid };
    if i < n - 1 {
        on_a_flooded_surface_only_what_shows_is_painted(grid, i, cell, (n - 1) as nat);
    } else {
        lemma_painted_prefix(grid, after, (n - 1) as nat);
    }
}

proof fn lemma_painted_prefix(a: GridView, b: GridView, n: nat)
    requires
        forall|k: int| 0 <= k < n ==> #[trigger] a.cells[k] == b.cells[k],
    ensures
        painted(a, None, n) == painted(b, None, n),
    decreases n,
{
    if n > 0 {
        lemma_painted_prefix(a, b, (n - 1) as nat);
        assert(a.cells[n - 1] == b.cells[n - 1]);
    }
}

/// A blank grid costs no painting on a flooded surface.
pub proof fn a_blank_grid_costs_no_painting(grid: GridView, n: nat)
    requires
        n <= grid.cells.len(),
        forall|i: int|
            0 <= i < n ==> (#[trigger] grid.cells[i]).bg is None && (grid.cells[i].ch == ' '
                || grid.cells[i].ch == '\0'),
    ensures
        painted(grid, None, n) == 0,
    decreases n,
{
    if n > 0 {
        a_blank_grid_costs_no_painting(grid, (n - 1) as nat);
        assert(grid.cells[n - 1].bg is None);
    }
}

/// Damage stays close to what changed: as long as the runs are no more than can
/// be sent, a cell that is reported lies no more than eight unchanged cells
/// before one that differs from a baseline, on its own row.
pub proof fn damage_stays_close_to_what_changed(
    rects: Seq<CellRect>,
    runs: Seq<RowSpan>,
    next: GridView,
    base: Option<GridView>,
    screen: Option<GridView>,
    col: int,
    row: int,
)
    requires
        reports(rects, runs),
        runs.len() <= 32,
        is_runs(
            runs,
            stale_either(next, base, screen),
            next.cols,
            next.rows,
            DAMAGE_GAP as int,
        ),
        rects_cover(rects, col, row),
    ensures
        exists|d: int|
            col <= d <= col + 8 && d < next.cols && (#[trigger] stale(next, base, d, row) || stale(
                next,
                screen,
                d,
                row,
            )),
{
    let changed = stale_either(next, base, screen);
    lemma_merged_few(runs);
    merging_keeps_the_cells(runs, col, row);
    let i = choose|i: int| 0 <= i < runs.len() && (#[trigger] runs[i]).covers(col, row);
    let run = runs[i];
    assert(is_run(run, changed, next.cols, next.rows, DAMAGE_GAP as int));
    if col < run.end - DAMAGE_GAP {
        assert(window_changed(changed, col, DAMAGE_GAP as int, row)) by {
            reveal(run_dense);
        }
        let d = choose|d: int| col <= d <= col + DAMAGE_GAP && #[trigger] changed(d, row);
        assert(col <= d <= col + 8 && d < next.cols && (stale(next, base, d, row) || stale(
            next,
            screen,
            d,
            row,
        )));
    } else {
        let d = run.end - 1;
        assert(changed(d, run.row as int));
        assert(col <= d <= col + 8 && d < next.cols && (stale(next, base, d, row) || stale(
            next,
            screen,
            d,
            row,
        )));
    }
}

/// Changes that are few enough are reported exactly: a cell is in a rectangle if
/// and only if it is on a run.
pub proof fn few_runs_are_reported_exactly(
    rects: Seq<CellRect>,
    runs: Seq<RowSpan>,
    col: int,
    row: int,
)
    requires
        reports(rects, runs),
        runs.len() <= 32,
    ensures
        rects_cover(rects, col, row) == runs_cover(runs, col, row),
{
    lemma_merged_few(runs);
    merging_keeps_the_cells(runs, col, row);
}

/// However many runs there are, they are reported in at most thirty-two
/// rectangles.
pub proof fn a_report_is_never_long(rects: Seq<CellRect>, runs: Seq<RowSpan>)
    requires
        reports(rects, runs),
    ensures
        rects.len() <= 32,
{
}

/// What merges into few enough rectangles is reported exactly, however many
/// runs it takes: a cell is in a rectangle if and only if it is on a run.
pub proof fn what_merges_into_few_rectangles_is_reported_exactly(
    rects: Seq<CellRect>,
    runs: Seq<RowSpan>,
    col: int,
    row: int,
)
    requires
        reports(rects, runs),
        runs.len() <= usize::MAX,
        merged(runs).len() <= 32,
    ensures
        rects_cover(rects, col, row) == runs_cover(runs, col, row),
{
    merging_keeps_the_cells(runs, col, row);
}

/// Scattered changes on few rows stay on their rows: where the runs lie on no
/// more than thirty-two rows, a cell that is reported lies between the ends of
/// runs on its own row, however many runs there are.
pub proof fn scattered_changes_stay_on_their_rows(
    rects: Seq<CellRect>,
    runs: Seq<RowSpan>,
    top: int,
    col: int,
    row: int,
)
    requires
        reports(rects, runs),
        runs.len() <= usize::MAX,
        forall|i: int, j: int|
            0 <= i < j < runs.len() ==> (#[trigger] runs[i]).row <= (#[trigger] runs[j]).row,
        forall|i: int| 0 <= i < runs.len() ==> top <= (#[trigger] runs[i]).row < top + 32,
        rects_cover(rects, col, row),
    ensures
        exists|i: int|
            0 <= i < runs.len() && (#[trigger] runs[i]).row == row && runs[i].start <= col,
        exists|i: int|
            0 <= i < runs.len() && (#[trigger] runs[i]).row == row && col < runs[i].end,
{
    if merged(runs).len() <= 32 {
        merging_keeps_the_cells(runs, col, row);
        let i = choose|i: int| 0 <= i < runs.len() && (#[trigger] runs[i]).covers(col, row);
        assert(runs[i].row == row && runs[i].start <= col && col < runs[i].end);
    } else {
        let spans = coarsened(runs);
        coarsening_leaves_one_span_a_row(runs, top);
        lemma_merged_few(spans);
        if runs.len() > 0 {
            assert(runs[runs.len() - 1] == runs.last());
        }
        assert(spans.len() <= 32);
        merging_keeps_the_cells(spans, col, row);
        let i = choose|i: int| 0 <= i < spans.len() && (#[trigger] spans[i]).covers(col, row);
        coarsening_reaches_no_further_than_the_runs(runs, i);
        let a = choose|k: int|
            0 <= k < runs.len() && (#[trigger] runs[k]).row == spans[i].row && runs[k].start
                == spans[i].start;
        let b = choose|k: int|
            0 <= k < runs.len() && (#[trigger] runs[k]).row == spans[i].row && runs[k].end
                == spans[i].end;
        assert(runs[a].row == row && runs[a].start <= col);
        assert(runs[b].row == row && col < runs[b].end);
    }
}

/// What is said of a record is what its fields hold.
pub proof fn a_record_says_what_it_holds(s: &Snapshot)
    ensures
        s@.grid == s.grid@,
        s@.alpha == s.alpha,
        recorded(Some(s)) == Some(s@),
        recorded(None) is None,
{
}

} // verus!
