//! Grids, turned into pixels and damage.

use nirisaver::damage::{changed_cells, changed_runs, CellRect, RowSpan};
use nirisaver::grid::{Cell, Grid};
use nirisaver::raster::{Bitmap, CellMetrics, Layout, Rasterizer};
use nirisaver::render::{
    bound_rects, comparable, pixel_rect, render_frame, run_cells, History, Rendered, Snapshot,
};

struct Harness {
    raster: Rasterizer,
    layout: Layout,
    pixels: Vec<u32>,
}

/// A glyph with a pattern of its own for every character, overhanging its cell.
fn glyph(ch: char) -> Bitmap {
    let coverage = (0..15 * 20).map(|i: u32| (i * (ch as u32 % 97 + 3) % 256) as u8).collect();
    Bitmap { width: 15, height: 20, xmin: -3, ymin: -6, coverage }
}

impl Harness {
    fn new() -> Self {
        let raster = Rasterizer::new(CellMetrics { width: 9, height: 17, baseline: 13 });
        let layout = Layout::fit(320, 240, raster.metrics());
        let pixels = vec![0u32; (layout.width * layout.height) as usize];
        Harness { raster, layout, pixels }
    }

    fn load(&mut self, grid: &Grid) {
        for (ch, bold) in self.raster.missing(grid) {
            self.raster.load(ch, bold, glyph(ch));
        }
    }

    fn full(&mut self, grid: &Grid, alpha: u8) -> Vec<u32> {
        self.load(grid);
        let mut pixels = vec![0u32; self.pixels.len()];
        render_frame(
            &mut pixels,
            &self.layout,
            &self.raster,
            grid,
            History::unknown(),
            alpha,
            [0, 0, 0],
        );
        pixels
    }

    fn render(&mut self, grid: &Grid, history: History<'_>, alpha: u8) -> Rendered {
        self.load(grid);
        render_frame(
            &mut self.pixels,
            &self.layout,
            &self.raster,
            grid,
            history,
            alpha,
            [0, 0, 0],
        )
    }
}

fn lit(ch: char) -> Cell {
    Cell { ch, fg: [200, 220, 255], bg: None, bold: false }
}

#[test]
fn an_incremental_render_matches_a_full_one() {
    let mut h = Harness::new();
    let mut grid = Grid::new(h.layout.cols, h.layout.rows);
    let first = h.full(&grid, 255);
    h.pixels.copy_from_slice(&first);
    let mut buffer = Some(Snapshot { grid: grid.clone(), alpha: 255 });

    for step in 0..8 {
        grid.set(step % grid.cols(), step % grid.rows(), lit('#'));
        grid.set((step + 3) % grid.cols(), (step + 1) % grid.rows(), lit('@'));
        let oracle = h.full(&grid, 255);
        h.render(
            &grid,
            History { buffer: buffer.as_ref(), presented: buffer.as_ref() },
            255,
        );
        assert_eq!(h.pixels, oracle, "incremental diverged from the oracle at step {step}");
        buffer = Some(Snapshot { grid: grid.clone(), alpha: 255 });
    }
}

#[test]
fn a_cell_that_changes_back_is_still_damaged() {
    // The three-frame X, Y, X sequence. The buffer being drawn into holds
    // the first X, so it needs no repaint; the screen holds Y, so it needs
    // the damage anyway.
    let mut h = Harness::new();
    let mut x = Grid::new(h.layout.cols, h.layout.rows);
    x.set(4, 2, lit('X'));
    let mut y = x.clone();
    y.set(4, 2, lit('Y'));

    let buffer = Snapshot { grid: x.clone(), alpha: 255 };
    let presented = Snapshot { grid: y, alpha: 255 };
    let out = h.render(
        &x,
        History { buffer: Some(&buffer), presented: Some(&presented) },
        255,
    );
    assert_eq!(out.cells_drawn, 0, "the buffer already holds this frame");
    assert_eq!(out.rects, vec![CellRect { col: 4, row: 2, cols: 1, rows: 1 }]);
    assert!(!out.full_surface);
}

#[test]
fn a_fade_step_repaints_and_damages_everything() {
    let mut h = Harness::new();
    let grid = Grid::new(h.layout.cols, h.layout.rows);
    let snap = Snapshot { grid: grid.clone(), alpha: 128 };
    let out = h.render(
        &grid,
        History { buffer: Some(&snap), presented: Some(&snap) },
        200,
    );
    assert!(out.full_surface, "alpha moved, so the screen record does not apply");
    let whole = CellRect { col: 0, row: 0, cols: grid.cols(), rows: grid.rows() };
    assert_eq!(out.rects, vec![whole]);
}

#[test]
fn an_unchanged_frame_costs_nothing() {
    let mut h = Harness::new();
    let mut grid = Grid::new(h.layout.cols, h.layout.rows);
    grid.set(1, 1, lit('o'));
    let snap = Snapshot { grid: grid.clone(), alpha: 255 };
    let before = h.pixels.clone();
    let out = h.render(
        &grid,
        History { buffer: Some(&snap), presented: Some(&snap) },
        255,
    );
    assert_eq!(out, Rendered { rects: vec![], full_surface: false, cells_drawn: 0 });
    assert_eq!(out, Rendered::default());
    assert_eq!(h.pixels, before);
}

#[test]
fn the_margin_is_never_reported_as_damaged() {
    let mut h = Harness::new();
    let grid = Grid::new(h.layout.cols, h.layout.rows);
    let snap = Snapshot { grid: grid.clone(), alpha: 255 };
    let mut moved = grid.clone();
    moved.set(0, 0, lit('!'));
    let out = h.render(
        &moved,
        History { buffer: Some(&snap), presented: Some(&snap) },
        255,
    );
    for rect in &out.rects {
        let (x, y, w, hgt) = pixel_rect(&h.layout, *rect);
        assert!(x >= h.layout.origin_x as i32);
        assert!(y >= h.layout.origin_y as i32);
        assert!(x + w <= (h.layout.origin_x + h.layout.cols as u32 * h.layout.cell.width) as i32);
        assert!(
            y + hgt <= (h.layout.origin_y + h.layout.rows as u32 * h.layout.cell.height) as i32
        );
    }
}

#[test]
fn a_first_frame_paints_the_margin_and_skips_blank_cells() {
    let mut h = Harness::new();
    h.pixels.fill(0x1234_5678);
    let mut grid = Grid::new(h.layout.cols, h.layout.rows);
    grid.set(0, 0, lit('a'));
    grid.set(1, 0, Cell { bg: Some([9, 9, 9]), ..Cell::blank() });
    let out = h.render(&grid, History::unknown(), 255);
    assert_eq!(out.cells_drawn, 2);
    assert!(out.full_surface);
    assert!(h.pixels.iter().all(|p| *p != 0x1234_5678));
    assert_eq!(h.pixels[0], 0xff00_0000);
}

#[test]
fn damage_bridges_up_to_eight_unchanged_cells() {
    let mut h = Harness::new();
    let grid = Grid::new(h.layout.cols, h.layout.rows);
    let snap = Snapshot { grid: grid.clone(), alpha: 255 };
    let history = History { buffer: Some(&snap), presented: Some(&snap) };
    let mut near = grid.clone();
    near.set(2, 1, lit('a'));
    near.set(11, 1, lit('b'));
    let out = h.render(&near, history, 255);
    assert_eq!(out.rects, vec![CellRect { col: 2, row: 1, cols: 10, rows: 1 }]);
    let mut far = grid.clone();
    far.set(2, 1, lit('a'));
    far.set(12, 1, lit('b'));
    let out = h.render(&far, history, 255);
    assert_eq!(out.rects.len(), 2);
}

#[test]
fn scattered_damage_gets_coarser_rather_than_longer() {
    let few: Vec<RowSpan> = (0..32).map(|i| RowSpan { row: i * 2, start: i, end: i + 1 }).collect();
    assert_eq!(bound_rects(&few).len(), 32);
    // Forty runs on twenty rows: a rectangle per row.
    let rows: Vec<RowSpan> = (0..40)
        .map(|i| RowSpan { row: i / 2 * 2, start: (i % 2) * 20 + i, end: (i % 2) * 20 + i + 1 })
        .collect();
    assert_eq!(bound_rects(&rows).len(), 20);
    // Forty rows that do not line up: one rectangle.
    let many: Vec<RowSpan> =
        (0..40).map(|i| RowSpan { row: i * 2, start: i, end: i + 1 }).collect();
    assert_eq!(bound_rects(&many), vec![CellRect { col: 0, row: 0, cols: 40, rows: 79 }]);
}

#[test]
fn a_record_compares_only_at_its_fade_level_and_shape() {
    let grid = Grid::new(3, 2);
    let snap = Snapshot { grid: grid.clone(), alpha: 9 };
    assert!(comparable(Some(&snap), 9, &grid).is_some());
    assert!(comparable(Some(&snap), 8, &grid).is_none());
    assert!(comparable(Some(&snap), 9, &Grid::new(2, 3)).is_none());
    assert!(comparable(None, 9, &grid).is_none());
}

#[test]
fn rectangles_and_runs_have_sizes() {
    let layout = Layout::fit(320, 240, CellMetrics { width: 9, height: 17, baseline: 13 });
    assert_eq!((layout.origin_x, layout.origin_y), (2, 1));
    let rect = CellRect { col: 3, row: 2, cols: 4, rows: 5 };
    assert_eq!(pixel_rect(&layout, rect), (29, 35, 36, 85));
    let runs = [RowSpan { row: 0, start: 2, end: 5 }, RowSpan { row: 3, start: 0, end: 1 }];
    assert_eq!(run_cells(&runs), 4);
    assert_eq!(run_cells(&[]), 0);
}

#[test]
fn the_declared_area_is_no_less_than_what_moved() {
    let prev = Grid::new(12, 3);
    let mut next = prev.clone();
    for (col, row) in [(0, 0), (1, 0), (4, 0), (7, 2)] {
        next.set(col, row, lit('#'));
    }
    let moved = changed_cells(&next, Some(&prev));
    assert_eq!(moved, 4);
    assert_eq!(run_cells(&changed_runs(&next, Some(&prev), 0)), 4);
    assert_eq!(run_cells(&changed_runs(&next, Some(&prev), 3)), 6);
    assert_eq!(run_cells(&changed_runs(&next, None, 0)), changed_cells(&next, None));
}

#[test]
fn a_report_copies_whole() {
    let mut h = Harness::new();
    let mut grid = Grid::new(h.layout.cols, h.layout.rows);
    grid.set(2, 1, lit('#'));
    let out = h.render(&grid, History::default(), 255);
    assert!(!out.rects.is_empty());
    assert_eq!(out.clone(), out);
}
