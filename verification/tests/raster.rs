//! Cells, painted pixel by pixel.

use nirisaver::grid::{Cell, Grid};
use nirisaver::raster::{
    blend, flood, premultiplied, Bitmap, CellMetrics, Layout, Rasterizer,
};

const METRICS: CellMetrics = CellMetrics { width: 6, height: 10, baseline: 8 };

fn bitmap(width: usize, height: usize, xmin: i32, ymin: i32, cov: u8) -> Bitmap {
    Bitmap { width, height, xmin, ymin, coverage: vec![cov; width * height] }
}

#[test]
fn the_full_block_fills_its_cell() {
    // Several effects draw with block-drawing symbols, which have to tile
    // without seams.
    let mut r = Rasterizer::new(METRICS);
    r.load('█', false, bitmap(6, 10, 0, -2, 255));
    let (w, h) = (6usize, 10usize);
    let mut pixels = vec![0u32; w * h];
    r.draw_cell(
        &mut pixels,
        w,
        (0, 0),
        Cell { ch: '█', fg: [255, 255, 255], bg: None, bold: false },
        255,
        [0, 0, 0],
    );
    let lit = pixels.iter().filter(|p| **p & 0x00ff_ffff != 0).count();
    let ratio = lit as f32 / (w * h) as f32;
    assert!(ratio > 0.97, "full block covered only {:.1}% of its cell", ratio * 100.0);
}

#[test]
fn a_glyph_never_escapes_its_cell() {
    // The guarantee the incremental redraw is built on: glyphs that overhang
    // on every side are clipped.
    let mut r = Rasterizer::new(METRICS);
    let (w, h) = (6usize, 10usize);
    let stride = w * 3;
    let mut pixels = vec![0u32; stride * h * 3];
    let shapes = [
        ('W', bitmap(9, 14, -2, -4, 255)),
        ('█', bitmap(6, 30, 0, -12, 200)),
        ('@', bitmap(20, 4, -9, 3, 255)),
        ('g', bitmap(3, 9, 5, -6, 90)),
        ('│', bitmap(1, 40, 3, -20, 255)),
        ('M', bitmap(8, 8, 7, 9, 255)),
    ];
    for (ch, shape) in shapes {
        r.load(ch, true, shape);
        pixels.fill(0);
        r.draw_cell(
            &mut pixels,
            stride,
            (w as u32, h as u32),
            Cell { ch, fg: [255, 255, 255], bg: None, bold: true },
            255,
            [0, 0, 0],
        );
        for y in 0..h * 3 {
            for x in 0..stride {
                let inside = (w..w * 2).contains(&x) && (h..h * 2).contains(&y);
                if !inside {
                    assert_eq!(pixels[y * stride + x], 0, "{ch:?} escaped its cell at {x},{y}");
                }
            }
        }
    }
}

#[test]
fn a_blank_cell_is_exactly_the_background() {
    let r = Rasterizer::new(METRICS);
    let m = r.metrics();
    let (w, h) = (m.width as usize, m.height as usize);
    let mut pixels = vec![0xdead_beef_u32; w * h];
    r.draw_cell(&mut pixels, w, (0, 0), Cell::blank(), 255, [17, 34, 51]);
    assert!(pixels.iter().all(|p| *p == premultiplied([17, 34, 51], 255)));
}

#[test]
fn a_glyph_sits_where_its_metrics_put_it() {
    // Two by three pixels, one right of the pen, standing on the baseline.
    let mut r = Rasterizer::new(METRICS);
    r.load('i', false, bitmap(2, 3, 1, 0, 255));
    let mut pixels = vec![0u32; 60];
    let cell = Cell { ch: 'i', fg: [200, 100, 50], bg: Some([1, 2, 3]), bold: false };
    r.draw_cell(&mut pixels, 6, (0, 0), cell, 255, [9, 9, 9]);
    for y in 0..10 {
        for x in 0..6 {
            let inked = (1..3).contains(&x) && (5..8).contains(&y);
            let want = if inked { 0xffc8_6432 } else { 0xff01_0203 };
            assert_eq!(pixels[y * 6 + x], want, "{x},{y}");
        }
    }
}

#[test]
fn partial_coverage_blends_towards_the_foreground() {
    let mut r = Rasterizer::new(METRICS);
    r.load('o', false, bitmap(1, 1, 0, 7, 128));
    let mut pixels = vec![0u32; 60];
    let cell = Cell { ch: 'o', fg: [255, 0, 100], bg: None, bold: false };
    r.draw_cell(&mut pixels, 6, (0, 0), cell, 128, [0, 0, 0]);
    // Blended to [128, 0, 50], then scaled by 128/255.
    assert_eq!(pixels[0], 0x8040_0019);
    assert_eq!(pixels[1], 0x8000_0000);
}

#[test]
fn bold_smears_one_pixel_to_the_right() {
    let mut r = Rasterizer::new(METRICS);
    let shape = |cov: Vec<u8>| Bitmap { width: 4, height: 1, xmin: 0, ymin: 7, coverage: cov };
    r.load('a', true, shape(vec![255, 0, 0, 255]));
    r.load('a', false, shape(vec![255, 0, 0, 255]));
    let draw = |bold: bool| {
        let mut pixels = vec![0u32; 60];
        let cell = Cell { ch: 'a', fg: [255, 255, 255], bg: None, bold };
        r.draw_cell(&mut pixels, 6, (0, 0), cell, 255, [0, 0, 0]);
        pixels[..6].iter().map(|p| p & 0xff != 0).collect::<Vec<_>>()
    };
    assert_eq!(draw(true), [true, true, false, true, false, false]);
    assert_eq!(draw(false), [true, false, false, true, false, false]);
}

#[test]
fn a_glyph_is_loaded_once() {
    let mut r = Rasterizer::new(METRICS);
    assert_eq!(r.warm(&['x', 'y']).len(), 4);
    r.load('x', false, bitmap(6, 10, 0, -2, 255));
    assert!(r.is_loaded('x', false) && !r.is_loaded('x', true));
    r.load('x', false, bitmap(6, 10, 0, -2, 0));
    let mut pixels = vec![0u32; 60];
    let cell = Cell { ch: 'x', ..Cell::blank() };
    r.draw_cell(&mut pixels, 6, (0, 0), cell, 255, [0, 0, 0]);
    assert_eq!(pixels[0], 0xffff_ffff);
    assert_eq!(r.warm(&['x']), vec![('x', true)]);
}

#[test]
fn only_glyphs_a_grid_shows_are_missing() {
    let mut r = Rasterizer::new(METRICS);
    let mut grid = Grid::new(3, 1);
    assert!(r.missing(&grid).is_empty());
    grid.set(0, 0, Cell { ch: 'q', ..Cell::blank() });
    grid.set(2, 0, Cell { ch: 'q', bold: true, ..Cell::blank() });
    assert_eq!(r.missing(&grid), vec![('q', false), ('q', true)]);
    r.load('q', true, bitmap(1, 1, 0, 0, 9));
    assert_eq!(r.missing(&grid), vec![('q', false)]);
}

#[test]
fn premultiplication_scales_colour_with_alpha() {
    assert_eq!(premultiplied([255, 255, 255], 255), 0xffff_ffff);
    assert_eq!(premultiplied([255, 255, 255], 0), 0x0000_0000);
    assert_eq!(premultiplied([200, 100, 50], 128), 0x8064_3219);
}

#[test]
fn blending_hits_both_endpoints_exactly() {
    assert_eq!(blend(10, 200, 0), 10);
    assert_eq!(blend(10, 200, 255), 200);
}

#[test]
fn blending_rounds_half_up_and_stays_between() {
    assert_eq!(blend(0, 255, 127), 127);
    assert_eq!(blend(100, 0, 51), 80);
    for cov in 0..=255u8 {
        let v = blend(40, 90, cov);
        assert!((40..=90).contains(&v));
    }
}

#[test]
fn a_flood_writes_every_pixel() {
    let mut pixels = vec![7u32; 5];
    flood(&mut pixels, [255, 0, 255], 255);
    assert_eq!(pixels, vec![0xffff_00ff; 5]);
}

#[test]
fn a_layout_holds_the_largest_grid_and_centres_it() {
    let l = Layout::fit(100, 55, METRICS);
    assert_eq!((l.cols, l.rows, l.origin_x, l.origin_y), (16, 5, 2, 2));
    assert_eq!(l.cell_origin(3, 2), (20, 22));
    let l = Layout::centred(100, 55, 10, 3, METRICS);
    assert_eq!((l.cols, l.rows, l.origin_x, l.origin_y), (10, 3, 20, 12));
    // A grid that does not fit starts at the corner.
    let l = Layout::centred(10, 10, 4, 4, METRICS);
    assert_eq!((l.origin_x, l.origin_y), (0, 0));
    // A cell of no size counts as one pixel.
    let none = CellMetrics { width: 0, height: 0, baseline: 0 };
    let l = Layout::fit(7, 3, none);
    assert_eq!((l.cols, l.rows), (7, 3));
}
