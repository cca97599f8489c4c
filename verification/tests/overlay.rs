//! What the overlay decides.

use nirisaver::engine::Advance;
use nirisaver::grid::{Cell, Grid};
use nirisaver::overlay::{
    free_slot, geometry, Geometry, Overlay, Point, PointerEvent, Slot, FADE_STEP_MS, NEVER,
};
use nirisaver::raster::{Bitmap, CellMetrics, Rasterizer};

const CELL: CellMetrics = CellMetrics { width: 8, height: 16, baseline: 12 };
const MS: u64 = 1_000_000;

fn with_output(o: &mut Overlay, logical: (u32, u32)) -> Option<(usize, usize)> {
    o.add_output(Some(1));
    let index = o.surfaces.len() - 1;
    let size = o.configure(index, logical).unwrap();
    let g = geometry(size, o.surfaces[index].scale).unwrap();
    o.reconfigure(index, size, g, CELL)
}

#[test]
fn a_free_buffer_is_one_the_compositor_does_not_hold() {
    assert_eq!(free_slot(true, true), Some(Slot::First));
    assert_eq!(free_slot(false, true), Some(Slot::Second));
    assert_eq!(free_slot(true, false), Some(Slot::First));
    assert_eq!(free_slot(false, false), None);
}

#[test]
fn buffers_have_a_geometry() {
    assert_eq!(
        geometry((100, 50), 2),
        Some(Geometry { width: 200, height: 100, stride: 800, size: 80_000, pool: 160_000 })
    );
    assert_eq!(geometry((u32::MAX, 1), 1), None);
    assert_eq!(geometry((1, u32::MAX), 1), None);
}

#[test]
fn the_smallest_output_decides_the_grid() {
    let mut o = Overlay::new(250, 255);
    assert_eq!(with_output(&mut o, (800, 480)), Some((100, 30)));
    o.restarted();
    assert_eq!(with_output(&mut o, (640, 640)), Some((80, 30)));
    for s in &o.surfaces {
        let l = s.layout.unwrap();
        assert_eq!((l.cols, l.rows), (80, 30));
    }
    // The wider output centres the shared grid.
    assert_eq!(o.surfaces[0].layout.unwrap().origin_x, 80);
    // A bigger one changes nothing.
    assert_eq!(with_output(&mut o, (1920, 1080)), None);
    // Without the small one the grid grows again.
    assert_eq!(o.output_destroyed(1), Some((100, 30)));
    assert_eq!(o.surfaces.len(), 2);
    assert!(!o.closed);
}

#[test]
fn an_output_without_room_for_a_cell_changes_nothing() {
    let mut o = Overlay::new(250, 255);
    assert_eq!(with_output(&mut o, (4, 480)), None);
    assert_eq!(o.grid_size, None);
}

#[test]
fn an_overlay_without_surfaces_is_closed() {
    let mut o = Overlay::new(250, 255);
    with_output(&mut o, (800, 480));
    with_output(&mut o, (800, 480));
    o.surface_closed(0);
    assert!(!o.finished(0));
    assert_eq!(o.output_destroyed(0), None);
    assert!(o.closed && o.finished(0));
}

#[test]
fn a_configure_that_changes_nothing_is_ignored() {
    let mut o = Overlay::new(250, 255);
    with_output(&mut o, (800, 480));
    assert_eq!(o.configure(0, (800, 480)), None);
    assert_eq!(o.configure(0, (0, 480)), None);
    assert_eq!(o.configure(0, (801, 480)), Some((801, 480)));
}

#[test]
fn a_scale_is_at_least_one_and_reconfigures() {
    let mut o = Overlay::new(250, 255);
    o.add_output(Some(-3));
    o.add_output(None);
    assert_eq!((o.surfaces[0].scale, o.surfaces[1].scale), (1, 1));
    assert_eq!(o.rescale(0, 2), None, "no size yet");
    assert_eq!(o.surfaces[0].scale, 2);
    let g = geometry((400, 300), 2).unwrap();
    o.reconfigure(0, (400, 300), g, CELL);
    assert_eq!(o.rescale(0, 2), None);
    assert_eq!(o.rescale(0, 0), Some((400, 300)));
    assert_eq!(o.surfaces[0].scale, 1);
}

#[test]
fn input_counts_after_a_grace_period() {
    let mut o = Overlay::new(250, 255);
    o.key(true, 249 * MS + 999_999);
    assert_eq!(o.dismissing, None);
    o.key(false, 300 * MS);
    assert_eq!(o.dismissing, None);
    o.key(true, 250 * MS);
    assert_eq!(o.dismissing, Some(250 * MS));
    o.dismiss(900 * MS);
    assert_eq!(o.dismissing, Some(250 * MS), "the first one stands");
}

#[test]
fn a_stationary_pointer_does_not_dismiss() {
    let mut o = Overlay::new(250, 255);
    let here = Point { x: 512, y: 256 };
    assert!(o.pointer(PointerEvent::Enter(here), MS));
    assert!(!o.pointer(PointerEvent::Motion(here), 400 * MS));
    assert_eq!(o.dismissing, None);
    o.pointer(PointerEvent::Motion(Point { x: 513, y: 256 }), 100 * MS);
    assert_eq!(o.dismissing, None);
    o.pointer(PointerEvent::Other, 400 * MS);
    assert_eq!(o.dismissing, None);
    o.pointer(PointerEvent::Motion(Point { x: 513, y: 256 }), 400 * MS);
    assert_eq!(o.dismissing, Some(400 * MS));
}

#[test]
fn leaving_forgets_where_the_pointer_was_and_a_press_dismisses() {
    let mut o = Overlay::new(250, 255);
    let here = Point { x: 1, y: 1 };
    o.pointer(PointerEvent::Enter(here), MS);
    o.pointer(PointerEvent::Leave, 2 * MS);
    o.pointer(PointerEvent::Motion(here), 300 * MS);
    assert_eq!(o.dismissing, Some(300 * MS));
    let mut o = Overlay::new(250, 255);
    o.pointer(PointerEvent::Press, 249 * MS);
    assert_eq!(o.dismissing, None);
    o.pointer(PointerEvent::Press, 251 * MS);
    assert_eq!(o.dismissing, Some(251 * MS));
}

#[test]
fn the_fade_out_is_shown_to_the_end() {
    let mut o = Overlay::new(250, 255);
    with_output(&mut o, (80, 32));
    o.restarted();
    let grid = Grid::new(10, 2);
    o.dismiss(1_000 * MS);
    o.set_alpha(0);
    assert!(!o.animates());
    assert!(!o.finished(1_250 * MS), "the last step has not been presented");
    o.commit(0, Slot::First, &grid, false);
    assert!(!o.finished(1_249 * MS + 999_999));
    assert!(o.finished(1_250 * MS));
    let mut failed = Overlay::new(250, 255);
    failed.fail();
    assert!(failed.finished(0));
}

#[test]
fn an_idle_hold_sleeps_through() {
    let mut o = Overlay::new(250, 255);
    with_output(&mut o, (80, 32));
    o.restarted();
    assert_eq!(o.next_wakeup(), None, "something to present, nowhere to draw it");
    o.commit(0, Slot::First, &Grid::new(10, 2), true);
    o.record_advance(Advance::Idle { until_ms: 15_000 }, 1_000);
    assert_eq!(o.next_wakeup(), Some(14_000));
    o.record_advance(Advance::Idle { until_ms: 10 }, 1_000);
    assert_eq!(o.next_wakeup(), Some(0));
    o.record_advance(Advance::Frame, 1_000);
    assert_eq!((o.next_wakeup(), o.pending_deadline), (None, Some(0)));
    o.set_alpha(200);
    assert!(o.fading());
    assert_eq!(o.next_wakeup(), Some(FADE_STEP_MS));
}

#[test]
fn one_frame_per_callback_and_serial() {
    let mut o = Overlay::new(250, 255);
    with_output(&mut o, (80, 32));
    o.restarted();
    let grid = Grid::new(10, 2);
    assert!(o.wants_frame(0, 10, 2));
    assert!(!o.wants_frame(0, 11, 2), "laid out for another grid");
    assert_eq!(o.surfaces[0].presented_serial, NEVER);
    assert_eq!(o.opacity_change(0), Some(true));
    o.commit(0, Slot::Second, &grid, true);
    assert_eq!(o.opacity_change(0), None);
    assert!(o.surfaces[0].first.is_none() && o.surfaces[0].second.is_some());
    o.record_advance(Advance::Frame, 5);
    assert!(!o.wants_frame(0, 10, 2), "the callback has not arrived");
    o.frame_done(0);
    assert!(o.wants_frame(0, 10, 2));
    o.set_alpha(254);
    assert_eq!(o.opacity_change(0), Some(false));
}

#[test]
fn painting_goes_by_the_buffer_and_reports_by_the_screen() {
    let mut o = Overlay::new(250, 255);
    with_output(&mut o, (80, 32));
    o.restarted();
    let mut raster = Rasterizer::new(CELL);
    for ch in ['X', 'Y'] {
        raster.load(
            ch,
            false,
            Bitmap { width: 8, height: 16, xmin: 0, ymin: -4, coverage: vec![ch as u8; 128] },
        );
    }
    let mut x = Grid::new(10, 2);
    x.set(4, 1, Cell { ch: 'X', ..Cell::blank() });
    let mut y = x.clone();
    y.set(4, 1, Cell { ch: 'Y', ..Cell::blank() });
    let mut first = vec![0u32; 80 * 32];
    let mut second = vec![0u32; 80 * 32];

    let out = o.paint(0, Slot::First, &mut first, &raster, &x, [1, 2, 3]);
    assert!(out.full_surface);
    o.commit(0, Slot::First, &x, true);
    let out = o.paint(0, Slot::Second, &mut second, &raster, &y, [1, 2, 3]);
    assert!(!out.full_surface, "the screen shows the frame before");
    assert_eq!(out.rects.len(), 1);
    o.commit(0, Slot::Second, &y, true);
    // X again, into the buffer that still holds it.
    let before = first.clone();
    let out = o.paint(0, Slot::First, &mut first, &raster, &x, [1, 2, 3]);
    assert_eq!(out.cells_drawn, 0);
    assert_eq!(out.rects.len(), 1);
    assert_eq!(first, before);
}

#[test]
fn a_resize_forgets_what_was_shown() {
    let mut o = Overlay::new(250, 255);
    with_output(&mut o, (800, 480));
    o.restarted();
    let grid = Grid::new(100, 30);
    o.commit(0, Slot::First, &grid, true);
    o.frame_done(0);
    o.commit(0, Slot::Second, &grid, true);
    o.frame_done(0);
    assert!(!o.wants_frame(0, 100, 30), "nothing new to present");
    assert_eq!(with_output(&mut o, (640, 640)), Some((80, 30)));
    let s = &o.surfaces[0];
    assert!(s.first.is_none() && s.second.is_none() && s.presented.is_none());
    assert!(o.wants_frame(0, 80, 30));
}

#[test]
fn a_record_outlives_new_glyphs() {
    let mut o = Overlay::new(250, 255);
    with_output(&mut o, (80, 32));
    o.restarted();
    let block = |level: u8| Bitmap {
        width: 8,
        height: 16,
        xmin: 0,
        ymin: -4,
        coverage: vec![level; 128],
    };
    let mut raster = Rasterizer::new(CELL);
    raster.load('X', false, block(90));
    let mut grid = Grid::new(10, 2);
    grid.set(4, 1, Cell { ch: 'X', ..Cell::blank() });
    let mut pixels = vec![0u32; 80 * 32];
    o.paint(0, Slot::First, &mut pixels, &raster, &grid, [1, 2, 3]);
    o.commit(0, Slot::First, &grid, true);

    raster.load('Y', false, block(180));
    grid.set(5, 1, Cell { ch: 'Y', ..Cell::blank() });
    let out = o.paint(0, Slot::First, &mut pixels, &raster, &grid, [1, 2, 3]);
    assert_eq!(out.cells_drawn, 1);
    let mut whole = vec![0u32; 80 * 32];
    o.paint(0, Slot::Second, &mut whole, &raster, &grid, [1, 2, 3]);
    assert_eq!(pixels, whole);
}

#[test]
fn a_declaration_is_kept_without_a_commit() {
    let mut o = Overlay::new(250, 255);
    with_output(&mut o, (80, 32));
    o.restarted();
    assert_eq!(o.opacity_change(0), Some(true));
    o.declare(0, true);
    assert_eq!(o.opacity_change(0), None);
    assert!(o.wants_frame(0, 10, 2), "nothing was presented");
}
