//! A compositor that takes damage at its word.
//!
//! Reporting damage is a promise: everything outside the rectangles you name
//! is unchanged, and the compositor is entitled to copy nothing else. So this
//! keeps a screen, and on every commit it copies *only* the damaged rectangles
//! out of the attached buffer. Anything that was not declared stays stale, and
//! the comparison against a full-frame oracle catches it immediately.

use nirisaver::grid::{Cell, Grid};
use nirisaver::raster::{Bitmap, CellMetrics, Layout, Rasterizer};
use nirisaver::render::{pixel_rect, render_frame, History, Snapshot};

struct StrictCompositor {
    screen: Vec<u32>,
    width: usize,
}

impl StrictCompositor {
    fn new(width: usize, height: usize) -> Self {
        StrictCompositor { screen: vec![0; width * height], width }
    }

    fn commit(&mut self, buffer: &[u32], rects: &[(i32, i32, i32, i32)]) {
        for &(x, y, w, h) in rects {
            for row in y..y + h {
                let start = row as usize * self.width + x as usize;
                let end = start + w as usize;
                self.screen[start..end].copy_from_slice(&buffer[start..end]);
            }
        }
    }

    fn stale_pixels(&self, oracle: &[u32]) -> usize {
        self.screen.iter().zip(oracle).filter(|(a, b)| a != b).count()
    }
}

/// Frames that churn glyphs: a handful of cells change each time, and half of
/// them change back.
struct Churn {
    state: u64,
    grid: Grid,
    undo: Vec<(usize, usize)>,
}

impl Churn {
    fn draw(&mut self, n: u64) -> usize {
        self.state = self.state.wrapping_mul(6364136223846793005).wrapping_add(1442695040888963407);
        ((self.state >> 33) % n) as usize
    }

    fn next_grid(&mut self) -> Grid {
        for (col, row) in std::mem::take(&mut self.undo) {
            self.grid.set(col, row, Cell::blank());
        }
        let n = self.draw(40);
        for _ in 0..n {
            let col = self.draw(self.grid.cols() as u64);
            let row = self.draw(self.grid.rows() as u64);
            let ch = char::from(b'a' + self.draw(26) as u8);
            self.grid.set(col, row, Cell { ch, ..Cell::blank() });
            if self.draw(2) == 0 {
                self.undo.push((col, row));
            }
        }
        self.grid.clone()
    }
}

fn glyph(ch: char) -> Bitmap {
    let coverage = (0..10 * 14).map(|i: u32| (i * (ch as u32 % 89 + 5) % 256) as u8).collect();
    Bitmap { width: 10, height: 14, xmin: -1, ymin: -3, coverage }
}

/// Run `frames` frames through the strict compositor and return the worst
/// number of stale pixels seen.
///
/// `honest` picks which record the damage report is computed against: the
/// screen (correct) or the buffer being drawn into (the bug).
fn run(seed: u64, frames: usize, honest: bool) -> usize {
    let mut raster = Rasterizer::new(CellMetrics { width: 8, height: 13, baseline: 10 });
    for ch in 'a'..='z' {
        raster.load(ch, false, glyph(ch));
    }
    let layout = Layout::fit(240, 160, raster.metrics());
    let pixels = (layout.width * layout.height) as usize;
    let mut churn =
        Churn { state: seed, grid: Grid::new(layout.cols, layout.rows), undo: Vec::new() };
    let mut buffers = [vec![0u32; pixels], vec![0u32; pixels]];
    let mut contents: [Option<Snapshot>; 2] = [None, None];
    let mut presented: Option<Snapshot> = None;
    let mut compositor = StrictCompositor::new(layout.width as usize, layout.height as usize);
    let mut oracle = vec![0u32; pixels];
    let mut worst = 0;

    for frame in 0..frames {
        let grid = churn.next_grid();
        // The compositor holds the buffer it was last given and releases the
        // other, so the free one alternates. That is the situation the whole
        // two-record scheme exists for.
        let slot = frame % 2;

        let screen_record = if honest { presented.clone() } else { contents[slot].clone() };
        let rendered = render_frame(
            &mut buffers[slot],
            &layout,
            &raster,
            &grid,
            History { buffer: contents[slot].as_ref(), presented: screen_record.as_ref() },
            255,
            [0, 0, 0],
        );
        assert!(rendered.rects.len() <= 32);

        let rects: Vec<_> = if rendered.full_surface {
            vec![(0, 0, layout.width as i32, layout.height as i32)]
        } else {
            rendered.rects.iter().map(|r| pixel_rect(&layout, *r)).collect()
        };
        compositor.commit(&buffers[slot], &rects);

        let snapshot = Snapshot { grid: grid.clone(), alpha: 255 };
        contents[slot] = Some(snapshot.clone());
        presented = Some(snapshot);

        render_frame(
            &mut oracle,
            &layout,
            &raster,
            &grid,
            History::unknown(),
            255,
            [0, 0, 0],
        );
        worst = worst.max(compositor.stale_pixels(&oracle));
    }
    worst
}

#[test]
fn damage_against_the_screen_leaves_nothing_stale() {
    for seed in [1u64, 7, 12345] {
        assert_eq!(run(seed, 240, true), 0, "seed {seed} left stale pixels on screen");
    }
}

#[test]
fn damage_against_only_the_buffer_leaves_the_screen_wrong() {
    // The negative control. Without it the test above proves only that the
    // renderer works, not that reporting damage against the screen is what
    // makes it work.
    let stale: usize = [1u64, 7, 12345].iter().map(|seed| run(*seed, 240, false)).sum();
    assert!(
        stale > 0,
        "the buffer-only damage report should have left the screen stale; \
         if this passes, the test no longer distinguishes the two records"
    );
}
