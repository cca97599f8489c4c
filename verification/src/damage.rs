//! The shapes a change between two frames is described in: runs of cells
//! within a row, and rectangles of cells.
//!
//! This is the *damage* shape, not the repaint shape. Repainting walks cells
//! directly and touches only the ones that moved; damage is a promise to a
//! compositor, and a promise made in forty tiny rectangles costs more to keep
//! than one slightly generous one.

use vstd::prelude::*;

use crate::grid::{lemma_index, Cell, Grid, GridView};

verus! {

/// A half-open run of changed cells within one row: `start..end`.
#[derive(Clone, Copy, PartialEq, Eq, Debug)]
pub struct RowSpan {
    pub row: usize,
    pub start: usize,
    pub end: usize,
}

impl RowSpan {
    pub fn len(&self) -> (r: usize)
        requires
            self.start <= self.end,
        ensures
            r == self.end - self.start,
    {
        self.end - self.start
    }

    pub fn is_empty(&self) -> (r: bool)
        ensures
            r == (self.start >= self.end),
    {
        self.start >= self.end
    }

    /// Whether a cell lies on the run.
    pub open spec fn covers(self, col: int, row: int) -> bool {
        row == self.row && self.start <= col < self.end
    }
}

/// A rectangle in cell coordinates.
#[derive(Clone, Copy, PartialEq, Eq, Debug)]
pub struct CellRect {
    pub col: usize,
    pub row: usize,
    pub cols: usize,
    pub rows: usize,
}

impl CellRect {
    /// Whether a cell lies in the rectangle.
    pub open spec fn covers(self, col: int, row: int) -> bool {
        &&& self.col <= col < self.col + self.cols
        &&& self.row <= row < self.row + self.rows
    }
}

/// Whether some run covers a cell.
pub open spec fn runs_cover(runs: Seq<RowSpan>, col: int, row: int) -> bool {
    exists|i: int| 0 <= i < runs.len() && (#[trigger] runs[i]).covers(col, row)
}

/// Whether some rectangle covers a cell.
pub open spec fn rects_cover(rects: Seq<CellRect>, col: int, row: int) -> bool {
    exists|i: int| 0 <= i < rects.len() && (#[trigger] rects[i]).covers(col, row)
}

/// Whether one of the `bridge + 1` columns from `from` on changed.
pub open spec fn window_changed(
    changed: spec_fn(int, int) -> bool,
    from: int,
    bridge: int,
    row: int,
) -> bool {
    exists|d: int| from <= d <= from + bridge && #[trigger] changed(d, row)
}

/// Whether a run holds nowhere more than `bridge` unchanged cells in a row.
#[verifier::opaque]
pub open spec fn run_dense(
    run: RowSpan,
    changed: spec_fn(int, int) -> bool,
    bridge: int,
) -> bool {
    forall|c: int|
        run.start <= c < run.end - bridge ==> #[trigger] window_changed(
            changed,
            c,
            bridge,
            run.row as int,
        )
}

/// Whether a run lies in a `cols` by `rows` grid, starts and ends on a changed
/// cell, and holds nowhere more than `bridge` unchanged cells in a row.
pub open spec fn is_run(
    run: RowSpan,
    changed: spec_fn(int, int) -> bool,
    cols: int,
    rows: int,
    bridge: int,
) -> bool {
    &&& run.row < rows
    &&& run.start < run.end <= cols
    &&& changed(run.start as int, run.row as int)
    &&& changed(run.end - 1, run.row as int)
    &&& run_dense(run, changed, bridge)
}

/// What a list of runs has to be, for the cells that `changed` (a predicate on
/// a column and a row) picks out of a `cols` by `rows` grid.
///
/// Each run starts and ends on a changed cell and holds nowhere more than
/// `bridge` unchanged cells in a row; the runs come top to bottom and left to
/// right, with more than `bridge` unchanged cells between two runs of one row;
/// and every changed cell is on a run.
pub open spec fn is_runs(
    runs: Seq<RowSpan>,
    changed: spec_fn(int, int) -> bool,
    cols: int,
    rows: int,
    bridge: int,
) -> bool {
    &&& forall|i: int|
        0 <= i < runs.len() ==> is_run(#[trigger] runs[i], changed, cols, rows, bridge)
    &&& forall|i: int, j: int|
        0 <= i < j < runs.len() ==> run_before(#[trigger] runs[i], #[trigger] runs[j], bridge)
    &&& forall|col: int, row: int|
        0 <= col < cols && 0 <= row < rows && changed(col, row) ==> #[trigger] runs_cover(
            runs,
            col,
            row,
        )
}

/// Whether `a` comes before `b`: on an earlier row, or on the same row with
/// more than `bridge` cells in between.
pub open spec fn run_before(a: RowSpan, b: RowSpan, bridge: int) -> bool {
    a.row < b.row || (a.row == b.row && a.end + bridge < b.start)
}

/// The changed cells that come before a position, reading row by row.
pub open spec fn changed_before(
    changed: spec_fn(int, int) -> bool,
    col: int,
    row: int,
) -> spec_fn(int, int) -> bool {
    |c: int, r: int| changed(c, r) && (r < row || (r == row && c < col))
}

/// A run depends on the changed cells only through where they are.
proof fn lemma_run_congruent(
    run: RowSpan,
    a: spec_fn(int, int) -> bool,
    b: spec_fn(int, int) -> bool,
    cols: int,
    rows: int,
    bridge: int,
)
    requires
        is_run(run, a, cols, rows, bridge),
        0 <= bridge,
        forall|c: int|
            run.start <= c < run.end ==> (#[trigger] a(c, run.row as int) ==> b(
                c,
                run.row as int,
            )),
    ensures
        is_run(run, b, cols, rows, bridge),
{
    reveal(run_dense);
    assert(a(run.start as int, run.row as int));
    assert(a(run.end - 1, run.row as int));
    assert forall|c: int|
        run.start <= c < run.end - bridge implies #[trigger] window_changed(
        b,
        c,
        bridge,
        run.row as int,
    ) by {
        assert(window_changed(a, c, bridge, run.row as int));
        let d = choose|d: int| c <= d <= c + bridge && #[trigger] a(d, run.row as int);
        assert(b(d, run.row as int));
    }
}

/// A list of runs depends on the changed cells only through where they are.
pub proof fn lemma_runs_congruent(
    runs: Seq<RowSpan>,
    a: spec_fn(int, int) -> bool,
    b: spec_fn(int, int) -> bool,
    cols: int,
    rows: int,
    bridge: int,
)
    requires
        is_runs(runs, a, cols, rows, bridge),
        0 <= bridge,
        forall|c: int, r: int| 0 <= c < cols && 0 <= r < rows ==> #[trigger] a(c, r) == b(c, r),
    ensures
        is_runs(runs, b, cols, rows, bridge),
{
    assert forall|i: int| 0 <= i < runs.len() implies is_run(
        #[trigger] runs[i],
        b,
        cols,
        rows,
        bridge,
    ) by {
        lemma_run_congruent(runs[i], a, b, cols, rows, bridge);
    }
    assert forall|col: int, row: int|
        0 <= col < cols && 0 <= row < rows && b(col, row) implies #[trigger] runs_cover(
        runs,
        col,
        row,
    ) by {
        assert(a(col, row));
    }
}

/// Runs of the cells before a position end before it.
proof fn lemma_runs_end_before(
    runs: Seq<RowSpan>,
    changed: spec_fn(int, int) -> bool,
    col: int,
    row: int,
    cols: int,
    rows: int,
    bridge: int,
)
    requires
        is_runs(runs, changed_before(changed, col, row), cols, rows, bridge),
    ensures
        forall|i: int|
            0 <= i < runs.len() ==> (#[trigger] runs[i]).row < row || (runs[i].row == row
                && runs[i].end <= col),
{
    assert forall|i: int| 0 <= i < runs.len() implies (#[trigger] runs[i]).row < row || (
    runs[i].row == row && runs[i].end <= col) by {
        assert(is_run(runs[i], changed_before(changed, col, row), cols, rows, bridge));
        assert(changed_before(changed, col, row)(runs[i].end - 1, runs[i].row as int));
    }
}

/// Lengthening the last run up to a changed cell close behind it.
proof fn lemma_run_lengthened(
    runs: Seq<RowSpan>,
    changed: spec_fn(int, int) -> bool,
    col: usize,
    row: usize,
    cols: int,
    rows: int,
    bridge: int,
)
    requires
        0 <= bridge,
        col < cols <= usize::MAX,
        row < rows,
        changed(col as int, row as int),
        is_runs(runs, changed_before(changed, col as int, row as int), cols, rows, bridge),
        runs.len() > 0,
        runs.last().row == row,
        col - runs.last().end <= bridge,
    ensures
        is_runs(
            runs.update(
                runs.len() - 1,
                RowSpan { row, start: runs.last().start, end: (col + 1) as usize },
            ),
            changed_before(changed, col + 1, row as int),
            cols,
            rows,
            bridge,
        ),
{
    let before = changed_before(changed, col as int, row as int);
    let after = changed_before(changed, col + 1, row as int);
    let n = runs.len() - 1;
    let o = runs[n];
    let l = RowSpan { row, start: o.start, end: (col + 1) as usize };
    let r = runs.update(n, l);
    lemma_runs_end_before(runs, changed, col as int, row as int, cols, rows, bridge);
    assert(is_run(o, before, cols, rows, bridge));
    assert(before(o.start as int, o.row as int) && before(o.end - 1, o.row as int));
    assert(after(o.start as int, o.row as int) && after(o.end - 1, o.row as int));
    assert(after(col as int, row as int));
    assert(is_run(l, after, cols, rows, bridge)) by {
        reveal(run_dense);
        assert forall|c: int|
            l.start <= c < l.end - bridge implies #[trigger] window_changed(
            after,
            c,
            bridge,
            l.row as int,
        ) by {
            if c < o.end - bridge {
                assert(window_changed(before, c, bridge, o.row as int));
                let d = choose|d: int| c <= d <= c + bridge && #[trigger] before(d, o.row as int);
                assert(after(d, o.row as int));
            }
        }
    }
    assert forall|i: int| 0 <= i < r.len() implies is_run(
        #[trigger] r[i],
        after,
        cols,
        rows,
        bridge,
    ) by {
        if i < n {
            assert(is_run(runs[i], before, cols, rows, bridge));
            lemma_run_congruent(runs[i], before, after, cols, rows, bridge);
        }
    }
    assert forall|i: int, j: int| 0 <= i < j < r.len() implies run_before(
        #[trigger] r[i],
        #[trigger] r[j],
        bridge,
    ) by {
        assert(run_before(runs[i], runs[j], bridge));
    }
    assert forall|c: int, w: int|
        0 <= c < cols && 0 <= w < rows && after(c, w) implies #[trigger] runs_cover(r, c, w) by {
        if c == col && w == row {
            assert(r[n].covers(c, w));
        } else {
            assert(before(c, w));
            assert(runs_cover(runs, c, w));
            let k = choose|k: int| 0 <= k < runs.len() && (#[trigger] runs[k]).covers(c, w);
            assert(r[k].covers(c, w));
        }
    }
}

/// Opening a run on a changed cell far from every run before it.
proof fn lemma_run_opened(
    runs: Seq<RowSpan>,
    changed: spec_fn(int, int) -> bool,
    col: usize,
    row: usize,
    cols: int,
    rows: int,
    bridge: int,
)
    requires
        0 <= bridge,
        col < cols <= usize::MAX,
        row < rows,
        changed(col as int, row as int),
        is_runs(runs, changed_before(changed, col as int, row as int), cols, rows, bridge),
        runs.len() == 0 || runs.last().row != row || col - runs.last().end > bridge,
    ensures
        is_runs(
            runs.push(RowSpan { row, start: col, end: (col + 1) as usize }),
            changed_before(changed, col + 1, row as int),
            cols,
            rows,
            bridge,
        ),
{
    let before = changed_before(changed, col as int, row as int);
    let after = changed_before(changed, col + 1, row as int);
    let n = runs.len();
    let l = RowSpan { row, start: col, end: (col + 1) as usize };
    let r = runs.push(l);
    lemma_runs_end_before(runs, changed, col as int, row as int, cols, rows, bridge);
    assert(after(col as int, row as int));
    assert(is_run(l, after, cols, rows, bridge)) by {
        reveal(run_dense);
        assert forall|c: int|
            l.start <= c < l.end - bridge implies #[trigger] window_changed(
            after,
            c,
            bridge,
            l.row as int,
        ) by {}
    }
    assert forall|i: int| 0 <= i < r.len() implies is_run(
        #[trigger] r[i],
        after,
        cols,
        rows,
        bridge,
    ) by {
        if i < n {
            assert(is_run(runs[i], before, cols, rows, bridge));
            lemma_run_congruent(runs[i], before, after, cols, rows, bridge);
        }
    }
    assert forall|i: int, j: int| 0 <= i < j < r.len() implies run_before(
        #[trigger] r[i],
        #[trigger] r[j],
        bridge,
    ) by {
        if j < n {
            assert(run_before(runs[i], runs[j], bridge));
        } else if i < n - 1 {
            assert(run_before(runs[i], runs[n - 1], bridge));
            assert(is_run(runs[n - 1], before, cols, rows, bridge));
        }
    }
    assert forall|c: int, w: int|
        0 <= c < cols && 0 <= w < rows && after(c, w) implies #[trigger] runs_cover(r, c, w) by {
        if c == col && w == row {
            assert(r[n as int].covers(c, w));
        } else {
            assert(before(c, w));
            assert(runs_cover(runs, c, w));
            let k = choose|k: int| 0 <= k < runs.len() && (#[trigger] runs[k]).covers(c, w);
            assert(r[k].covers(c, w));
        }
    }
}

/// Take note of a changed cell: lengthen the run it continues, or open one.
pub(crate) fn note_change(
    runs: &mut Vec<RowSpan>,
    row: usize,
    col: usize,
    bridge: usize,
    Ghost(changed): Ghost<spec_fn(int, int) -> bool>,
    Ghost(cols): Ghost<int>,
    Ghost(rows): Ghost<int>,
)
    requires
        col < cols <= usize::MAX,
        row < rows,
        changed(col as int, row as int),
        is_runs(
            old(runs)@,
            changed_before(changed, col as int, row as int),
            cols,
            rows,
            bridge as int,
        ),
    ensures
        is_runs(
            final(runs)@,
            changed_before(changed, col + 1, row as int),
            cols,
            rows,
            bridge as int,
        ),
{
    let n: usize = runs.len();
    proof {
        lemma_runs_end_before(runs@, changed, col as int, row as int, cols, rows, bridge as int);
    }
    if n > 0 && runs[n - 1].row == row && col - runs[n - 1].end <= bridge {
        proof {
            lemma_run_lengthened(runs@, changed, col, row, cols, rows, bridge as int);
        }
        runs[n - 1].end = col + 1;
    } else {
        proof {
            lemma_run_opened(runs@, changed, col, row, cols, rows, bridge as int);
        }
        runs.push(RowSpan { row, start: col, end: col + 1 });
    }
}

/// The grid an optional reference stands for.
pub open spec fn grid_of(grid: Option<&Grid>) -> Option<GridView> {
    match grid {
        Some(g) => Some(g@),
        None => None,
    }
}

/// Whether a cell of `next` is not what the baseline holds there. A baseline
/// that is missing, or that has another shape, holds nothing.
pub open spec fn stale(next: GridView, base: Option<GridView>, col: int, row: int) -> bool {
    match base {
        Some(base) => next.same_shape(base) ==> next.at(col, row) != base.at(col, row),
        None => true,
    }
}

/// The cells that differ from one baseline or the other.
pub open spec fn stale_either(
    next: GridView,
    buffer: Option<GridView>,
    screen: Option<GridView>,
) -> spec_fn(int, int) -> bool {
    |col: int, row: int| stale(next, buffer, col, row) || stale(next, screen, col, row)
}

/// How many unchanged cells may lie between two changed cells of one run, when
/// runs separated by fewer than `gap` unchanged cells coalesce.
pub open spec fn bridge_of(gap: usize) -> int {
    if gap == 0 {
        0
    } else {
        gap - 1
    }
}

/// Whether a cell differs from its baseline, for a baseline of the same shape.
fn is_stale(next: &Grid, base: Option<&Grid>, col: usize, row: usize) -> (r: bool)
    requires
        next.wf(),
        base is Some ==> base->0.wf(),
        next@.contains(col as int, row as int),
    ensures
        r == stale(next@, grid_of(base), col as int, row as int),
{
    proof {
        lemma_index(next@.cols, next@.rows, col as int, row as int);
    }
    match base {
        Some(base) => !next.same_shape(base) || next.get(col, row) != base.get(col, row),
        None => true,
    }
}

/// Runs of cells that differ from `prev`, one or more per row, coalescing runs
/// separated by fewer than `gap` unchanged cells.
///
/// A run per row rather than one bounding box for the whole frame: effects
/// that touch a few cells at the top and a few at the bottom would otherwise
/// damage everything in between, and the compositor would re-upload a screen's
/// worth of texture to move a dozen glyphs.
///
/// `prev` of `None` (a fresh buffer, or one whose fade alpha no longer
/// matches) means every row, in full.
pub fn changed_runs(next: &Grid, prev: Option<&Grid>, gap: usize) -> (runs: Vec<RowSpan>)
    requires
        next.wf(),
        prev is Some ==> prev->0.wf(),
    ensures
        is_runs(
            runs@,
            |col: int, row: int| stale(next@, grid_of(prev), col, row),
            next@.cols,
            next@.rows,
            bridge_of(gap),
        ),
{
    let runs = runs_where(next, gap, prev, prev);
    proof {
        lemma_runs_congruent(
            runs@,
            stale_either(next@, grid_of(prev), grid_of(prev)),
            |col: int, row: int| stale(next@, grid_of(prev), col, row),
            next@.cols,
            next@.rows,
            bridge_of(gap),
        );
    }
    runs
}

/// Runs of cells that differ from *either* baseline, coalesced like those of
/// [`changed_runs`].
///
/// One pass rather than two lists merged afterwards, because the two questions
/// have the same answer shape and only the predicate differs. See
/// [`crate::render`] for why there are two baselines at all.
pub fn damaged_runs(
    next: &Grid,
    buffer: Option<&Grid>,
    screen: Option<&Grid>,
    gap: usize,
) -> (runs: Vec<RowSpan>)
    requires
        next.wf(),
        buffer is Some ==> buffer->0.wf(),
        screen is Some ==> screen->0.wf(),
    ensures
        is_runs(
            runs@,
            stale_either(next@, grid_of(buffer), grid_of(screen)),
            next@.cols,
            next@.rows,
            bridge_of(gap),
        ),
{
    runs_where(next, gap, buffer, screen)
}

/// The runs of the cells of `next` that one baseline or the other lacks.
fn runs_where(
    next: &Grid,
    gap: usize,
    buffer: Option<&Grid>,
    screen: Option<&Grid>,
) -> (runs: Vec<RowSpan>)
    requires
        next.wf(),
        buffer is Some ==> buffer->0.wf(),
        screen is Some ==> screen->0.wf(),
    ensures
        is_runs(
            runs@,
            stale_either(next@, grid_of(buffer), grid_of(screen)),
            next@.cols,
            next@.rows,
            bridge_of(gap),
        ),
{
    let ghost pred = stale_either(next@, grid_of(buffer), grid_of(screen));
    let bridge: usize = gap.saturating_sub(1);
    let cols: usize = next.cols();
    let rows: usize = next.rows();
    let mut runs: Vec<RowSpan> = Vec::new();
    let mut row: usize = 0;
    while row < rows
        invariant
            cols == next@.cols,
            rows == next@.rows,
            row <= rows,
            next.wf(),
            buffer is Some ==> buffer->0.wf(),
            screen is Some ==> screen->0.wf(),
            pred == stale_either(next@, grid_of(buffer), grid_of(screen)),
            is_runs(
                runs@,
                changed_before(pred, 0, row as int),
                cols as int,
                rows as int,
                bridge as int,
            ),
        decreases rows - row,
    {
        let mut col: usize = 0;
        while col < cols
            invariant
                cols == next@.cols,
                rows == next@.rows,
                row < rows,
                col <= cols,
                next.wf(),
                buffer is Some ==> buffer->0.wf(),
                screen is Some ==> screen->0.wf(),
                pred == stale_either(next@, grid_of(buffer), grid_of(screen)),
                is_runs(
                    runs@,
                    changed_before(pred, col as int, row as int),
                    cols as int,
                    rows as int,
                    bridge as int,
                ),
            decreases cols - col,
        {
            if is_stale(next, buffer, col, row) || is_stale(next, screen, col, row) {
                note_change(
                    &mut runs,
                    row,
                    col,
                    bridge,
                    Ghost(pred),
                    Ghost(cols as int),
                    Ghost(rows as int),
                );
            } else {
                proof {
                    lemma_runs_congruent(
                        runs@,
                        changed_before(pred, col as int, row as int),
                        changed_before(pred, col + 1, row as int),
                        cols as int,
                        rows as int,
                        bridge as int,
                    );
                }
            }
            col += 1;
        }
        proof {
            lemma_runs_congruent(
                runs@,
                changed_before(pred, cols as int, row as int),
                changed_before(pred, 0, row + 1),
                cols as int,
                rows as int,
                bridge as int,
            );
        }
        row += 1;
    }
    proof {
        lemma_runs_congruent(
            runs@,
            changed_before(pred, 0, rows as int),
            pred,
            cols as int,
            rows as int,
            bridge as int,
        );
    }
    runs
}

/// How many of the first `n` cells of two grids differ.
pub open spec fn differing(a: Seq<Cell>, b: Seq<Cell>, n: nat) -> nat
    decreases n,
{
    if n == 0 {
        0
    } else {
        differing(a, b, (n - 1) as nat) + if a[n - 1] != b[n - 1] {
            1nat
        } else {
            0
        }
    }
}

/// How many cells of `next` are not what the baseline holds there: all of them,
/// for a baseline that is missing or that has another shape.
pub open spec fn moved(next: GridView, prev: Option<GridView>) -> nat {
    match prev {
        Some(prev) => if next.same_shape(prev) {
            differing(next.cells, prev.cells, next.cells.len())
        } else {
            next.cells.len()
        },
        None => next.cells.len(),
    }
}

/// How many cells actually differ. The honest measure of how much a frame
/// moved, as distinct from how much area had to be declared damaged.
pub fn changed_cells(next: &Grid, prev: Option<&Grid>) -> (n: usize)
    requires
        next.wf(),
        prev is Some ==> prev->0.wf(),
    ensures
        n == moved(next@, grid_of(prev)),
        n <= next@.cells.len(),
{
    let cells = next.cells();
    let prev: &Grid = match prev {
        Some(p) => p,
        None => {
            return cells.len();
        },
    };
    if !next.same_shape(prev) {
        return cells.len();
    }
    let others = prev.cells();
    let mut n: usize = 0;
    let mut i: usize = 0;
    while i < cells.len()
        invariant
            i <= cells@.len(),
            cells@.len() == others@.len(),
            n <= i,
            n == differing(cells@, others@, i as nat),
        decreases cells@.len() - i,
    {
        if cells[i] != others[i] {
            n += 1;
        }
        i += 1;
    }
    n
}

/// Whether a run continues a rectangle downwards over the same columns.
pub open spec fn extends_down(rect: CellRect, span: RowSpan) -> bool {
    &&& rect.col == span.start
    &&& rect.cols == span.end - span.start
    &&& rect.row + rect.rows == span.row
}

/// The rectangles a list of runs collapses into, a run at a time: an empty run
/// adds nothing, a run that continues the rectangle before it makes that one a
/// row taller, and any other run is a rectangle of its own.
pub open spec fn merged(spans: Seq<RowSpan>) -> Seq<CellRect>
    decreases spans.len(),
{
    if spans.len() == 0 {
        Seq::empty()
    } else {
        let rects = merged(spans.drop_last());
        let span = spans.last();
        if span.start >= span.end {
            rects
        } else if rects.len() > 0 && extends_down(rects.last(), span) {
            rects.drop_last().push(
                CellRect { rows: (rects.last().rows + 1) as usize, ..rects.last() },
            )
        } else {
            rects.push(
                CellRect {
                    col: span.start,
                    row: span.row,
                    cols: (span.end - span.start) as usize,
                    rows: 1,
                },
            )
        }
    }
}

/// Collapse vertically adjacent rows that changed over the same columns into
/// one rectangle. Effects that sweep a column band change the same span on
/// every row, so this is usually the difference between forty damage
/// rectangles and one.
///
/// Only *identical* spans merge. Merging overlapping-but-different spans would
/// mean damaging cells neither row actually touched, and the whole point of
/// the exercise is not to.
pub fn merge_spans(spans: &[RowSpan]) -> (out: Vec<CellRect>)
    ensures
        out@ == merged(spans@),
{
    let mut out: Vec<CellRect> = Vec::new();
    let mut i: usize = 0;
    while i < spans.len()
        invariant
            i <= spans@.len(),
            out@ == merged(spans@.take(i as int)),
            out@.len() <= i,
            forall|k: int| 0 <= k < out@.len() ==> (#[trigger] out@[k]).rows <= i,
        decreases spans@.len() - i,
    {
        let span = spans[i];
        let ghost before = out@;
        proof {
            assert(spans@.take(i + 1).drop_last() =~= spans@.take(i as int));
            assert(spans@.take(i + 1).last() == span);
        }
        i += 1;
        if span.is_empty() {
            continue;
        }
        let n: usize = out.len();
        if n > 0 && out[n - 1].col == span.start && out[n - 1].cols == span.len() && span.row
            >= out[n - 1].row && span.row - out[n - 1].row == out[n - 1].rows {
            out[n - 1].rows = out[n - 1].rows + 1;
            proof {
                assert(out@ =~= merged(spans@.take(i as int)));
            }
        } else {
            out.push(CellRect { col: span.start, row: span.row, cols: span.len(), rows: 1 });
        }
    }
    proof {
        assert(spans@.take(i as int) =~= spans@);
    }
    out
}

/// The smaller of two numbers.
pub open spec fn min_of(a: usize, b: usize) -> usize {
    if b < a {
        b
    } else {
        a
    }
}

/// The larger of two numbers.
pub open spec fn max_of(a: usize, b: usize) -> usize {
    if b > a {
        b
    } else {
        a
    }
}

/// A list of runs with neighbouring runs of one row widened into one span.
pub open spec fn coarsened(runs: Seq<RowSpan>) -> Seq<RowSpan>
    decreases runs.len(),
{
    if runs.len() == 0 {
        Seq::empty()
    } else {
        let out = coarsened(runs.drop_last());
        let run = runs.last();
        if out.len() > 0 && out.last().row == run.row {
            out.drop_last().push(
                RowSpan {
                    row: run.row,
                    start: min_of(out.last().start, run.start),
                    end: max_of(out.last().end, run.end),
                },
            )
        } else {
            out.push(run)
        }
    }
}

/// Collapse each row's runs into a single span covering all of them.
///
/// The first fallback when a frame's changes are scattered enough that
/// declaring them precisely would cost more messages than it saves copying.
pub fn coarsen_to_rows(runs: &[RowSpan]) -> (out: Vec<RowSpan>)
    ensures
        out@ == coarsened(runs@),
{
    let mut out: Vec<RowSpan> = Vec::new();
    let mut i: usize = 0;
    while i < runs.len()
        invariant
            i <= runs@.len(),
            out@ == coarsened(runs@.take(i as int)),
        decreases runs@.len() - i,
    {
        let run = runs[i];
        proof {
            assert(runs@.take(i + 1).drop_last() =~= runs@.take(i as int));
            assert(runs@.take(i + 1).last() == run);
        }
        let n: usize = out.len();
        if n > 0 && out[n - 1].row == run.row {
            if run.start < out[n - 1].start {
                out[n - 1].start = run.start;
            }
            if run.end > out[n - 1].end {
                out[n - 1].end = run.end;
            }
            proof {
                assert(out@ =~= coarsened(runs@.take(i + 1)));
            }
        } else {
            out.push(run);
        }
        i += 1;
    }
    proof {
        assert(runs@.take(i as int) =~= runs@);
    }
    out
}

/// Whether a rectangle is the smallest one around a list of runs: it holds all
/// of them, and each of its four sides lies on one.
pub open spec fn is_bounds(rect: CellRect, runs: Seq<RowSpan>) -> bool {
    &&& forall|i: int|
        0 <= i < runs.len() ==> {
            &&& rect.col <= (#[trigger] runs[i]).start
            &&& runs[i].end <= rect.col + rect.cols
            &&& rect.row <= runs[i].row < rect.row + rect.rows
        }
    &&& exists|i: int| 0 <= i < runs.len() && (#[trigger] runs[i]).start == rect.col
    &&& exists|i: int| 0 <= i < runs.len() && (#[trigger] runs[i]).end == rect.col + rect.cols
    &&& exists|i: int| 0 <= i < runs.len() && (#[trigger] runs[i]).row == rect.row
    &&& exists|i: int| 0 <= i < runs.len() && (#[trigger] runs[i]).row + 1 == rect.row + rect.rows
}

/// One rectangle covering every run. The last fallback.
pub fn bounding_rect(runs: &[RowSpan]) -> (r: Option<CellRect>)
    requires
        runs@.len() > 0 ==> runs@[0].start <= runs@[0].end,
        forall|i: int| 0 <= i < runs@.len() ==> (#[trigger] runs@[i]).row < usize::MAX,
    ensures
        match r {
            Some(rect) => runs@.len() > 0 && is_bounds(rect, runs@),
            None => runs@.len() == 0,
        },
{
    if runs.len() == 0 {
        return None;
    }
    let first = runs[0];
    let mut left: usize = first.start;
    let mut right: usize = first.end;
    let mut top: usize = first.row;
    let mut bottom: usize = first.row;
    let mut i: usize = 1;
    while i < runs.len()
        invariant
            1 <= i <= runs@.len(),
            left <= right,
            top <= bottom < usize::MAX,
            forall|k: int| 0 <= k < runs@.len() ==> (#[trigger] runs@[k]).row < usize::MAX,
            forall|k: int|
                0 <= k < i ==> {
                    &&& left <= (#[trigger] runs@[k]).start
                    &&& runs@[k].end <= right
                    &&& top <= runs@[k].row <= bottom
                },
            exists|k: int| 0 <= k < i && (#[trigger] runs@[k]).start == left,
            exists|k: int| 0 <= k < i && (#[trigger] runs@[k]).end == right,
            exists|k: int| 0 <= k < i && (#[trigger] runs@[k]).row == top,
            exists|k: int| 0 <= k < i && (#[trigger] runs@[k]).row == bottom,
        decreases runs@.len() - i,
    {
        let run = runs[i];
        let ghost k = i as int;
        proof {
            assert(runs@[k] == run);
        }
        if run.start < left {
            left = run.start;
        }
        if run.end > right {
            right = run.end;
        }
        if run.row < top {
            top = run.row;
        }
        if run.row > bottom {
            bottom = run.row;
        }
        i += 1;
    }
    Some(CellRect { col: left, row: top, cols: right - left, rows: bottom - top + 1 })
}

/// There is only one list of runs: two lists that both describe the same
/// changed cells are the same list.
pub proof fn runs_are_unique(
    a: Seq<RowSpan>,
    b: Seq<RowSpan>,
    changed: spec_fn(int, int) -> bool,
    cols: int,
    rows: int,
    bridge: int,
)
    requires
        0 <= bridge,
        is_runs(a, changed, cols, rows, bridge),
        is_runs(b, changed, cols, rows, bridge),
    ensures
        a == b,
{
    lemma_runs_prefix(a, b, changed, cols, rows, bridge, a.len() as int);
    lemma_runs_prefix(b, a, changed, cols, rows, bridge, b.len() as int);
    assert(a =~= b);
}

proof fn lemma_runs_prefix(
    a: Seq<RowSpan>,
    b: Seq<RowSpan>,
    changed: spec_fn(int, int) -> bool,
    cols: int,
    rows: int,
    bridge: int,
    n: int,
)
    requires
        0 <= bridge,
        is_runs(a, changed, cols, rows, bridge),
        is_runs(b, changed, cols, rows, bridge),
        0 <= n <= a.len(),
    ensures
        n <= b.len(),
        forall|i: int| 0 <= i < n ==> a[i] == b[i],
    decreases n,
{
    if n > 0 {
        lemma_runs_prefix(a, b, changed, cols, rows, bridge, n - 1);
        let i = n - 1;
        assert(is_run(a[i], changed, cols, rows, bridge));
        let k = lemma_run_met(a, b, changed, cols, rows, bridge, i);
        assert(is_run(b[i], changed, cols, rows, bridge));
        assert forall|j: int| 0 <= j < i implies b[j] == a[j] by {
            assert(a[j] == b[j]);
        }
        let m = lemma_run_met(b, a, changed, cols, rows, bridge, i);
        if k > i {
            assert(run_before(b[i], b[k], bridge));
        }
        if m > i {
            assert(run_before(a[i], a[m], bridge));
        }
        lemma_run_no_longer(a, b, changed, cols, rows, bridge, i);
        lemma_run_no_longer(b, a, changed, cols, rows, bridge, i);
    }
}

/// The start of a run is on a run of the other list, not an earlier one.
proof fn lemma_run_met(
    a: Seq<RowSpan>,
    b: Seq<RowSpan>,
    changed: spec_fn(int, int) -> bool,
    cols: int,
    rows: int,
    bridge: int,
    i: int,
) -> (k: int)
    requires
        0 <= bridge,
        is_runs(a, changed, cols, rows, bridge),
        is_runs(b, changed, cols, rows, bridge),
        0 <= i < a.len(),
        i <= b.len(),
        forall|j: int| 0 <= j < i ==> a[j] == b[j],
    ensures
        i <= k < b.len(),
        b[k].covers(a[i].start as int, a[i].row as int),
{
    assert(is_run(a[i], changed, cols, rows, bridge));
    let col = a[i].start as int;
    let row = a[i].row as int;
    assert(changed(col, row));
    assert(runs_cover(b, col, row));
    let k = choose|k: int| 0 <= k < b.len() && (#[trigger] b[k]).covers(col, row);
    if k < i {
        assert(a[k] == b[k]);
        assert(run_before(a[k], a[i], bridge));
    }
    k
}

/// Of two runs that start at one place, neither is longer.
proof fn lemma_run_no_longer(
    a: Seq<RowSpan>,
    b: Seq<RowSpan>,
    changed: spec_fn(int, int) -> bool,
    cols: int,
    rows: int,
    bridge: int,
    i: int,
)
    requires
        0 <= bridge,
        is_runs(a, changed, cols, rows, bridge),
        is_runs(b, changed, cols, rows, bridge),
        0 <= i < a.len(),
        i < b.len(),
        forall|j: int| 0 <= j < i ==> a[j] == b[j],
        a[i].row == b[i].row,
        a[i].start == b[i].start,
    ensures
        b[i].end <= a[i].end,
{
    let r = a[i];
    let s = b[i];
    assert(is_run(r, changed, cols, rows, bridge));
    assert(is_run(s, changed, cols, rows, bridge));
    if r.end < s.end {
        let row = r.row as int;
        // A changed cell of the longer run, at most `bridge` past the shorter.
        let d = if r.end < s.end - bridge {
            reveal(run_dense);
            assert(window_changed(changed, r.end as int, bridge, row));
            choose|d: int| r.end <= d <= r.end + bridge && #[trigger] changed(d, row)
        } else {
            s.end - 1
        };
        assert(changed(d, row));
        assert(r.end <= d <= r.end + bridge);
        assert(runs_cover(a, d, row));
        let k = choose|k: int| 0 <= k < a.len() && (#[trigger] a[k]).covers(d, row);
        if k < i {
            assert(run_before(a[k], a[i], bridge));
        } else if k > i {
            assert(run_before(a[i], a[k], bridge));
        }
        assert(false);
    }
}

/// Merging runs into rectangles neither adds a cell nor loses one.
pub proof fn merging_keeps_the_cells(spans: Seq<RowSpan>, col: int, row: int)
    requires
        spans.len() <= usize::MAX,
    ensures
        rects_cover(merged(spans), col, row) == runs_cover(spans, col, row),
    decreases spans.len(),
{
    lemma_merged_rows(spans);
    if spans.len() > 0 {
        let head = spans.drop_last();
        let span = spans.last();
        let n = spans.len() - 1;
        let rects = merged(head);
        let out = merged(spans);
        merging_keeps_the_cells(head, col, row);
        lemma_merged_rows(head);
        // One more run covers what the others did, and its own cells.
        assert(runs_cover(spans, col, row) == (runs_cover(head, col, row) || span.covers(
            col,
            row,
        ))) by {
            if runs_cover(head, col, row) {
                let k = choose|k: int| 0 <= k < head.len() && (#[trigger] head[k]).covers(col, row);
                assert(spans[k].covers(col, row));
            }
            if span.covers(col, row) {
                assert(spans[n].covers(col, row));
            }
            if runs_cover(spans, col, row) {
                let k = choose|k: int|
                    0 <= k < spans.len() && (#[trigger] spans[k]).covers(col, row);
                if k < n {
                    assert(head[k].covers(col, row));
                }
            }
        }
        if span.start >= span.end {
        } else if rects.len() > 0 && extends_down(rects.last(), span) {
            let l = rects.len() - 1;
            assert(out[l].covers(col, row) == (rects[l].covers(col, row) || span.covers(col, row)));
            lemma_rects_replaced(rects, out, l, col, row, span.covers(col, row));
        } else {
            let l = rects.len() as int;
            assert(out[l].covers(col, row) == span.covers(col, row));
            assert(rects_cover(out, col, row) == (rects_cover(rects, col, row) || out[l].covers(
                col,
                row,
            ))) by {
                if rects_cover(rects, col, row) {
                    let k = choose|k: int|
                        0 <= k < rects.len() && (#[trigger] rects[k]).covers(col, row);
                    assert(out[k].covers(col, row));
                }
                if rects_cover(out, col, row) {
                    let k = choose|k: int|
                        0 <= k < out.len() && (#[trigger] out[k]).covers(col, row);
                    if k < l {
                        assert(rects[k].covers(col, row));
                    }
                }
            }
        }
    }
}

proof fn lemma_rects_replaced(
    rects: Seq<CellRect>,
    out: Seq<CellRect>,
    l: int,
    col: int,
    row: int,
    more: bool,
)
    requires
        out.len() == rects.len(),
        l == rects.len() - 1,
        l >= 0,
        forall|k: int| 0 <= k < l ==> out[k] == rects[k],
        out[l].covers(col, row) == (rects[l].covers(col, row) || more),
    ensures
        rects_cover(out, col, row) == (rects_cover(rects, col, row) || more),
{
    if rects_cover(rects, col, row) {
        let k = choose|k: int| 0 <= k < rects.len() && (#[trigger] rects[k]).covers(col, row);
        assert(out[k].covers(col, row));
    }
    if rects_cover(out, col, row) {
        let k = choose|k: int| 0 <= k < out.len() && (#[trigger] out[k]).covers(col, row);
        if k < l {
            assert(out[k] == rects[k]);
            assert(rects[k].covers(col, row));
        } else {
            assert(rects[l].covers(col, row) || more);
        }
    }
    if more {
        assert(out[l].covers(col, row));
    }
}

/// No merged rectangle is taller than the number of runs.
proof fn lemma_merged_rows(spans: Seq<RowSpan>)
    ensures
        merged(spans).len() <= spans.len(),
        forall|k: int| 0 <= k < merged(spans).len() ==> (#[trigger] merged(spans)[k]).rows
            <= spans.len(),
    decreases spans.len(),
{
    if spans.len() > 0 {
        lemma_merged_rows(spans.drop_last());
    }
}

/// Coarsening may cover more cells, never fewer.
pub proof fn coarsening_loses_no_cell(runs: Seq<RowSpan>, col: int, row: int)
    requires
        runs_cover(runs, col, row),
    ensures
        runs_cover(coarsened(runs), col, row),
    decreases runs.len(),
{
    let i = choose|i: int| 0 <= i < runs.len() && (#[trigger] runs[i]).covers(col, row);
    let head = runs.drop_last();
    let out = coarsened(head);
    let all = coarsened(runs);
    let last = all.len() - 1;
    if i < runs.len() - 1 {
        assert(head[i].covers(col, row));
        coarsening_loses_no_cell(head, col, row);
        let k = choose|k: int| 0 <= k < out.len() && (#[trigger] out[k]).covers(col, row);
        assert(all[k].covers(col, row));
    } else {
        assert(all[last].covers(col, row));
    }
}

/// Coarsening runs that come top to bottom leaves one span per row.
pub proof fn coarsening_leaves_one_span_per_row(runs: Seq<RowSpan>)
    requires
        forall|i: int, j: int| 0 <= i < j < runs.len() ==> runs[i].row <= runs[j].row,
    ensures
        forall|i: int, j: int|
            0 <= i < j < coarsened(runs).len() ==> coarsened(runs)[i].row < coarsened(runs)[j].row,
        coarsened(runs).len() > 0 <==> runs.len() > 0,
        runs.len() > 0 ==> coarsened(runs).last().row == runs.last().row,
    decreases runs.len(),
{
    if runs.len() > 0 {
        let head = runs.drop_last();
        coarsening_leaves_one_span_per_row(head);
        if head.len() > 0 {
            assert(runs[head.len() - 1].row <= runs[head.len() as int].row);
        }
    }
}

/// The smallest rectangle around a list of runs covers every one of them.
pub proof fn bounds_lose_no_cell(rect: CellRect, runs: Seq<RowSpan>, col: int, row: int)
    requires
        is_bounds(rect, runs),
        runs_cover(runs, col, row),
    ensures
        rect.covers(col, row),
{
}

/// A cell is stale exactly if the baseline holds another cell at its place, row
/// by row; without a baseline of the same shape every cell is.
pub proof fn a_cell_is_stale_where_the_baseline_differs(
    next: GridView,
    base: Option<GridView>,
    col: int,
    row: int,
)
    ensures
        stale(next, base, col, row) == match base {
            Some(base) => !(next.cols == base.cols && next.rows == base.rows)
                || next.cells[row * next.cols + col] != base.cells[row * base.cols + col],
            None => true,
        },
{
}

/// Changed cells with fewer unchanged ones between them than the gap share a
/// run, and neighbours always do; ones with as many between them, or more, do
/// not.
pub proof fn close_changes_share_a_run(
    runs: Seq<RowSpan>,
    changed: spec_fn(int, int) -> bool,
    cols: int,
    rows: int,
    gap: usize,
    a: int,
    b: int,
    row: int,
)
    requires
        is_runs(runs, changed, cols, rows, bridge_of(gap)),
        0 <= a < b < cols,
        0 <= row < rows,
        changed(a, row),
        changed(b, row),
        forall|c: int| a < c < b ==> !#[trigger] changed(c, row),
    ensures
        (exists|i: int|
            0 <= i < runs.len() && (#[trigger] runs[i]).covers(a, row) && runs[i].covers(b, row))
            <==> (b == a + 1 || b - a - 1 < gap),
{
    let bridge = bridge_of(gap);
    assert(runs_cover(runs, a, row) && runs_cover(runs, b, row));
    let i = choose|i: int| 0 <= i < runs.len() && (#[trigger] runs[i]).covers(a, row);
    let j = choose|j: int| 0 <= j < runs.len() && (#[trigger] runs[j]).covers(b, row);
    assert(is_run(runs[i], changed, cols, rows, bridge));
    assert(is_run(runs[j], changed, cols, rows, bridge));
    if b == a + 1 || b - a - 1 < gap {
        if i < j {
            assert(run_before(runs[i], runs[j], bridge));
            if runs[i].end - 1 > a {
                assert(changed(runs[i].end - 1, row));
            }
            if runs[j].start < b {
                assert(changed(runs[j].start as int, row));
            }
        } else if j < i {
            assert(run_before(runs[j], runs[i], bridge));
        }
        assert(runs[i].covers(a, row) && runs[i].covers(b, row));
    } else if exists|k: int|
        0 <= k < runs.len() && (#[trigger] runs[k]).covers(a, row) && runs[k].covers(b, row) {
        let k = choose|k: int|
            0 <= k < runs.len() && (#[trigger] runs[k]).covers(a, row) && runs[k].covers(b, row);
        assert(is_run(runs[k], changed, cols, rows, bridge));
        assert(window_changed(changed, a + 1, bridge, row)) by {
            reveal(run_dense);
        }
        let d = choose|d: int| a + 1 <= d <= a + 1 + bridge && #[trigger] changed(d, row);
        assert(!changed(d, row));
    }
}

/// A grid has not moved from itself, and one cell that becomes another is one
/// cell moved more.
pub proof fn one_more_changed_cell_counts_one_more(
    a: Seq<Cell>,
    b: Seq<Cell>,
    i: int,
    cell: Cell,
)
    requires
        a.len() == b.len(),
        0 <= i < a.len(),
        b[i] == a[i],
        cell != a[i],
    ensures
        differing(a, a, a.len()) == 0,
        differing(a, b.update(i, cell), a.len()) == differing(a, b, a.len()) + 1,
{
    lemma_differing_same(a, a.len());
    lemma_differing_update(a, b, i, cell, a.len());
}

proof fn lemma_differing_same(a: Seq<Cell>, n: nat)
    ensures
        differing(a, a, n) == 0,
    decreases n,
{
    if n > 0 {
        lemma_differing_same(a, (n - 1) as nat);
    }
}

proof fn lemma_differing_update(a: Seq<Cell>, b: Seq<Cell>, i: int, cell: Cell, n: nat)
    requires
        a.len() == b.len(),
        0 <= i < a.len(),
        b[i] == a[i],
        cell != a[i],
        n <= a.len(),
    ensures
        differing(a, b.update(i, cell), n) == differing(a, b, n) + if i < n {
            1int
        } else {
            0
        },
    decreases n,
{
    if n > 0 {
        lemma_differing_update(a, b, i, cell, (n - 1) as nat);
    }
}

/// What moved from a grid of the same shape are the cells that differ; from
/// anything else, all of them.
pub proof fn what_moved_is_what_differs(next: GridView, prev: GridView)
    ensures
        next.cols == prev.cols && next.rows == prev.rows ==> moved(next, Some(prev)) == differing(
            next.cells,
            prev.cells,
            next.cells.len(),
        ),
        next.cols != prev.cols || next.rows != prev.rows ==> moved(next, Some(prev))
            == next.cells.len(),
        moved(next, None) == next.cells.len(),
{
}

/// A band merges into one rectangle: rows below each other that changed over
/// the same columns.
pub proof fn a_band_merges_into_one_rectangle(start: usize, end: usize, top: usize, n: nat)
    requires
        start < end,
        0 < n,
        top + n <= usize::MAX,
    ensures
        merged(
            Seq::new(n, |k: int| RowSpan { row: (top + k) as usize, start, end }),
        ) == seq![CellRect { col: start, row: top, cols: (end - start) as usize, rows: n as usize }],
    decreases n,
{
    let spans = Seq::new(n, |k: int| RowSpan { row: (top + k) as usize, start, end });
    let head = Seq::new((n - 1) as nat, |k: int| RowSpan { row: (top + k) as usize, start, end });
    assert(spans.drop_last() =~= head);
    if n > 1 {
        a_band_merges_into_one_rectangle(start, end, top, (n - 1) as nat);
    } else {
        assert(merged(head) =~= Seq::<CellRect>::empty());
    }
    assert(merged(spans) =~= seq![
        CellRect { col: start, row: top, cols: (end - start) as usize, rows: n as usize },
    ]);
}

/// Merging leaves no two neighbours that would make one rectangle, and never
/// more rectangles than there were runs.
pub proof fn merging_leaves_nothing_to_merge(spans: Seq<RowSpan>, i: int)
    requires
        spans.len() <= usize::MAX,
        0 <= i,
        i + 1 < merged(spans).len(),
    ensures
        merged(spans).len() <= spans.len(),
        !({
            let above = merged(spans)[i];
            let below = merged(spans)[i + 1];
            above.col == below.col && above.cols == below.cols && above.row + above.rows
                == below.row
        }),
    decreases spans.len(),
{
    lemma_merged_rows(spans);
    lemma_merged_few(spans);
    let head = spans.drop_last();
    let rects = merged(head);
    lemma_merged_rows(head);
    if i + 1 < rects.len() {
        merging_leaves_nothing_to_merge(head, i);
    }
}

/// There are no more rectangles than runs.
pub proof fn lemma_merged_few(spans: Seq<RowSpan>)
    ensures
        merged(spans).len() <= spans.len(),
    decreases spans.len(),
{
    if spans.len() > 0 {
        lemma_merged_few(spans.drop_last());
    }
}

/// Coarsening reaches no further than the runs do: a cell it covers lies at or
/// behind the start of one run of its row, and before the end of one.
pub proof fn coarsening_reaches_no_further_than_the_runs(runs: Seq<RowSpan>, i: int)
    requires
        0 <= i < coarsened(runs).len(),
    ensures
        exists|k: int|
            0 <= k < runs.len() && (#[trigger] runs[k]).row == coarsened(runs)[i].row
                && runs[k].start == coarsened(runs)[i].start,
        exists|k: int|
            0 <= k < runs.len() && (#[trigger] runs[k]).row == coarsened(runs)[i].row
                && runs[k].end == coarsened(runs)[i].end,
    decreases runs.len(),
{
    let head = runs.drop_last();
    let out = coarsened(head);
    let run = runs.last();
    let all = coarsened(runs);
    assert(runs[runs.len() - 1] == run);
    if i < out.len() {
        coarsening_reaches_no_further_than_the_runs(head, i);
        let a = choose|k: int|
            0 <= k < head.len() && (#[trigger] head[k]).row == out[i].row && head[k].start
                == out[i].start;
        let b = choose|k: int|
            0 <= k < head.len() && (#[trigger] head[k]).row == out[i].row && head[k].end
                == out[i].end;
        assert(runs[a] == head[a] && runs[b] == head[b]);
    }
}

/// No rectangle that holds every run is smaller than their bounds, on any
/// side.
pub proof fn the_bounds_are_the_smallest(rect: CellRect, other: CellRect, runs: Seq<RowSpan>)
    requires
        is_bounds(rect, runs),
        forall|i: int|
            0 <= i < runs.len() ==> {
                &&& other.col <= (#[trigger] runs[i]).start
                &&& runs[i].end <= other.col + other.cols
                &&& other.row <= runs[i].row < other.row + other.rows
            },
    ensures
        other.col <= rect.col,
        rect.col + rect.cols <= other.col + other.cols,
        other.row <= rect.row,
        rect.row + rect.rows <= other.row + other.rows,
{
}

/// Coarsening leaves one span a row: of runs that come top to bottom, each span
/// lies on a lower row than the one before it, so there are no more of them
/// than there are rows.
pub proof fn coarsening_leaves_one_span_a_row(runs: Seq<RowSpan>, top: int)
    requires
        forall|i: int, j: int|
            0 <= i < j < runs.len() ==> (#[trigger] runs[i]).row <= (#[trigger] runs[j]).row,
        forall|i: int| 0 <= i < runs.len() ==> top <= (#[trigger] runs[i]).row,
    ensures
        forall|i: int, j: int|
            0 <= i < j < coarsened(runs).len() ==> (#[trigger] coarsened(runs)[i]).row < (
            #[trigger] coarsened(runs)[j]).row,
        runs.len() > 0 ==> coarsened(runs).len() > 0 && coarsened(runs).last().row
            == runs.last().row && coarsened(runs).len() <= runs.last().row - top + 1,
    decreases runs.len(),
{
    if runs.len() > 0 {
        let head = runs.drop_last();
        coarsening_leaves_one_span_a_row(head, top);
        assert(runs[runs.len() - 1] == runs.last());
        if head.len() > 0 {
            assert(head.last() == runs[runs.len() - 2]);
            let out = coarsened(head);
            let all = coarsened(runs);
            assert forall|i: int, j: int| 0 <= i < j < all.len() implies (#[trigger] all[i]).row < (
            #[trigger] all[j]).row by {
                assert(i < out.len() && all[i].row == out[i].row);
                if j < out.len() {
                    assert(out[i].row < out[j].row);
                    assert(all[j].row == out[j].row);
                } else if i < out.len() - 1 {
                    assert(out[i].row < out[out.len() - 1].row);
                }
            }
        }
    }
}

/// An optional grid stands for itself.
pub proof fn an_optional_grid_stands_for_itself(grid: &Grid)
    ensures
        grid_of(Some(grid)) == Some(grid@),
        grid_of(None) is None,
{
}

/// A run covers its own row from its start up to but not including its end, and
/// a rectangle its columns and its rows.
pub proof fn a_run_covers_its_columns(run: RowSpan, rect: CellRect, col: int, row: int)
    ensures
        run.covers(col, row) <==> row == run.row && run.start <= col && col < run.end,
        rect.covers(col, row) <==> rect.col <= col && col < rect.col + rect.cols && rect.row <= row
            && row < rect.row + rect.rows,
{
}

/// Runs are tight and leave nothing out: each starts and ends on a changed cell
/// inside the grid, and every changed cell is on one.
pub proof fn runs_are_tight_and_leave_nothing_out(
    runs: Seq<RowSpan>,
    changed: spec_fn(int, int) -> bool,
    cols: int,
    rows: int,
    gap: usize,
    i: int,
)
    requires
        is_runs(runs, changed, cols, rows, bridge_of(gap)),
        0 <= i < runs.len(),
    ensures
        runs[i].row < rows,
        runs[i].start < runs[i].end <= cols,
        changed(runs[i].start as int, runs[i].row as int),
        changed(runs[i].end - 1, runs[i].row as int),
        forall|col: int, row: int|
            0 <= col < cols && 0 <= row < rows && #[trigger] changed(col, row) ==> exists|k: int|
                0 <= k < runs.len() && (#[trigger] runs[k]).row == row && runs[k].start <= col
                    < runs[k].end,
{
    assert(is_run(runs[i], changed, cols, rows, bridge_of(gap)));
    assert forall|col: int, row: int|
        0 <= col < cols && 0 <= row < rows && #[trigger] changed(col, row) implies exists|k: int|
        0 <= k < runs.len() && (#[trigger] runs[k]).row == row && runs[k].start <= col
            < runs[k].end by {
        assert(runs_cover(runs, col, row));
        let k = choose|k: int| 0 <= k < runs.len() && (#[trigger] runs[k]).covers(col, row);
        assert(runs[k].row == row && runs[k].start <= col < runs[k].end);
    }
}

/// Runs come in reading order: a later one lies on a lower row or, at least a
/// gap further right, on the same one.
pub proof fn runs_come_in_reading_order(
    runs: Seq<RowSpan>,
    changed: spec_fn(int, int) -> bool,
    cols: int,
    rows: int,
    gap: usize,
    i: int,
    j: int,
)
    requires
        is_runs(runs, changed, cols, rows, bridge_of(gap)),
        0 <= i < j < runs.len(),
    ensures
        runs[i].row < runs[j].row || (runs[i].row == runs[j].row && runs[i].end + gap
            <= runs[j].start && runs[i].end < runs[j].start),
{
    assert(run_before(runs[i], runs[j], bridge_of(gap)));
}

} // verus!
