//! What the overlay decides, one layer surface per output.
//!
//! The compositor's side of it (connections, buffers, protocol messages) is
//! the caller's. What is kept here is what the caller acts on: which surface
//! shows what, when there is something new to present and where it may be
//! drawn, how long the event loop may sleep, and when to leave.
//!
//! Two things here were learned the expensive way and are load-bearing.
//!
//! **Two buffers, not one.** A design that keeps a single reusable buffer per
//! output and refuses to redraw until the compositor releases it will present
//! exactly one frame and then stop. Nothing in the protocol promises a deadline
//! on release: a compositor that has attached your only buffer and has no
//! reason to let go of it may hold it indefinitely. Release arrives when a
//! *different* buffer is attached, so a client with one buffer deadlocks
//! against itself. The fix is to own two buffers and draw into whichever is
//! free.
//!
//! **Damage describes the screen, not the buffer.** See [`crate::render`].
//!
//! Times are nanoseconds since the overlay started; durations that come from
//! the configuration are milliseconds, as they are there.

use vstd::prelude::*;

use crate::damage::CellRect;
use crate::engine::Advance;
use crate::grid::{Grid, GridView, Rgb};
use crate::raster::{
    a_margin_centres, cells_in, margin, the_largest_grid_fits, CellMetrics, Face, Layout,
    Rasterizer,
};
use crate::render::{
    a_growing_face_keeps_pictures, a_strict_compositor_shows_the_new_frame,
    an_incremental_render_matches_a_full_one, an_unknown_buffer_is_drawn_whole, baseline,
    composited, is_damage, painted, picture, render_frame, repainted, History, Rendered, Snapshot,
    SnapshotView, MAX_RECTS,
};

verus! {

/// The layer-shell namespace this program identifies itself by. It is what
/// anything scripted around the overlay matches on.
pub const NAMESPACE: &'static str = "nirisaver";

/// Input is ignored for this long after the overlay maps, in milliseconds.
///
/// Mapping a surface under a stationary pointer produces an enter and,
/// depending on the compositor, a motion at the position the pointer was
/// already at. Neither is anyone asking for the screensaver to go away.
pub const INPUT_GRACE_MS: u64 = 250;

/// How finely a fade is stepped, in milliseconds. The engine's own rate
/// governs content; this governs only the ramp, and only while one is running.
pub const FADE_STEP_MS: u64 = 16;

/// How many nanoseconds a millisecond has.
pub const NS_PER_MS: u64 = 1_000_000;

/// The serial of a surface that has presented nothing worth keeping.
pub const NEVER: u64 = 0xffff_ffff_ffff_ffff;

/// One of a surface's two buffers.
#[derive(Clone, Copy, PartialEq, Eq, Structural, Debug)]
pub enum Slot {
    First,
    Second,
}

/// Whichever buffer the compositor is not holding. If it is holding both there
/// is genuinely nowhere to draw: skip the frame and let the release wake us.
pub fn free_slot(first_free: bool, second_free: bool) -> (r: Option<Slot>)
    ensures
        r == (if first_free {
            Some(Slot::First)
        } else if second_free {
            Some(Slot::Second)
        } else {
            None
        }),
{
    if first_free {
        Some(Slot::First)
    } else if second_free {
        Some(Slot::Second)
    } else {
        None
    }
}

/// What is known of one output's surface.
pub struct Surface {
    /// What each buffer currently holds.
    pub first: Option<Snapshot>,
    pub second: Option<Snapshot>,
    /// What the compositor is showing, which is a different picture from
    /// either buffer once more than one is in flight.
    pub presented: Option<Snapshot>,
    pub presented_serial: u64,
    pub layout: Option<Layout>,
    pub scale: i32,
    pub logical: (u32, u32),
    /// Set between committing a frame and its callback arriving: at most one
    /// presentation per frame callback.
    pub awaiting_callback: bool,
    pub opaque: bool,
}

/// What a [`Surface`] says.
pub struct SurfaceView {
    pub first: Option<SnapshotView>,
    pub second: Option<SnapshotView>,
    pub presented: Option<SnapshotView>,
    pub presented_serial: u64,
    pub layout: Option<Layout>,
    pub scale: i32,
    pub logical: (u32, u32),
    pub awaiting_callback: bool,
    pub opaque: bool,
}

/// What a record says, if there is one.
pub open spec fn record_of(snapshot: Option<Snapshot>) -> Option<SnapshotView> {
    match snapshot {
        Some(s) => Some(s@),
        None => None,
    }
}

impl View for Surface {
    type V = SurfaceView;

    open spec fn view(&self) -> SurfaceView {
        SurfaceView {
            first: record_of(self.first),
            second: record_of(self.second),
            presented: record_of(self.presented),
            presented_serial: self.presented_serial,
            layout: self.layout,
            scale: self.scale,
            logical: self.logical,
            awaiting_callback: self.awaiting_callback,
            opaque: self.opaque,
        }
    }
}

/// Whether a record holds a proper grid.
pub open spec fn sound_record(record: Option<SnapshotView>) -> bool {
    record is Some ==> record->0.grid.wf()
}

impl SurfaceView {
    /// Whether a surface is sound: its records hold proper grids, its grid lies
    /// inside it, and its scale is a scale.
    pub open spec fn wf(self) -> bool {
        &&& sound_record(self.first)
        &&& sound_record(self.second)
        &&& sound_record(self.presented)
        &&& self.layout is Some ==> self.layout->0.fits()
        &&& self.scale >= 1
    }

    /// What one of the buffers holds.
    pub open spec fn held(self, slot: Slot) -> Option<SnapshotView> {
        match slot {
            Slot::First => self.first,
            Slot::Second => self.second,
        }
    }
}

/// A scale of at least one.
pub open spec fn proper_scale(factor: i32) -> i32 {
    if factor < 1 {
        1
    } else {
        factor
    }
}

/// A surface that has not been configured yet.
pub open spec fn fresh_surface(factor: Option<i32>) -> SurfaceView {
    SurfaceView {
        first: None,
        second: None,
        presented: None,
        presented_serial: NEVER,
        layout: None,
        scale: match factor {
            Some(factor) => proper_scale(factor),
            None => 1,
        },
        logical: (0, 0),
        awaiting_callback: false,
        opaque: false,
    }
}

/// A surface with nothing known of what it shows.
pub open spec fn forgotten(s: SurfaceView) -> SurfaceView {
    SurfaceView { first: None, second: None, presented: None, presented_serial: NEVER, ..s }
}

/// The layout of a grid of a given size, centred on a surface.
pub open spec fn recentred(l: Layout, cols: usize, rows: usize) -> Layout {
    Layout {
        cols,
        rows,
        origin_x: margin(l.width, cols * l.cell.width) as u32,
        origin_y: margin(l.height, rows * l.cell.height) as u32,
        ..l
    }
}

/// A surface that shows a grid of a given size, if it has been configured.
pub open spec fn regridded(s: SurfaceView, cols: usize, rows: usize) -> SurfaceView {
    match s.layout {
        Some(l) => SurfaceView { layout: Some(recentred(l, cols, rows)), ..forgotten(s) },
        None => s,
    }
}

impl Surface {
    /// Whether a surface is sound.
    pub open spec fn wf(&self) -> bool {
        self@.wf()
    }

    fn forget(&mut self)
        ensures
            final(self)@ == forgotten(old(self)@),
    {
        self.first = None;
        self.second = None;
        self.presented = None;
        self.presented_serial = NEVER;
    }

    fn regrid(&mut self, cols: usize, rows: usize)
        requires
            old(self).wf(),
            old(self)@.layout is Some ==> cols * old(self)@.layout->0.cell.width
                <= old(self)@.layout->0.width && rows * old(self)@.layout->0.cell.height
                <= old(self)@.layout->0.height,
        ensures
            final(self).wf(),
            final(self)@ == regridded(old(self)@, cols, rows),
    {
        if let Some(layout) = self.layout {
            let next = Layout::centred(layout.width, layout.height, cols, rows, layout.cell);
            self.layout = Some(next);
            self.forget();
        }
    }
}

/// The pixels of a surface's buffers.
#[derive(Clone, Copy, PartialEq, Eq, Structural, Debug)]
pub struct Geometry {
    pub width: u32,
    pub height: u32,
    /// Bytes from one row to the next.
    pub stride: usize,
    /// Bytes of one buffer.
    pub size: usize,
    /// Bytes of both.
    pub pool: usize,
}

/// Whether buffers of a size can be asked for at all: the protocol counts in
/// signed 32-bit numbers, and memory in machine words.
pub open spec fn buffers_exist(logical: (u32, u32), scale: i32) -> bool {
    let width = logical.0 * scale;
    let height = logical.1 * scale;
    &&& 0 <= width
    &&& 0 <= height
    &&& width * 4 <= i32::MAX
    &&& height <= i32::MAX
    &&& width * 4 * height * 2 <= usize::MAX
}

/// The buffers a surface of a logical size needs at a scale; `None` where no
/// such buffers exist.
pub fn geometry(logical: (u32, u32), scale: i32) -> (r: Option<Geometry>)
    requires
        scale >= 1,
    ensures
        r is Some <==> buffers_exist(logical, scale),
        r is Some ==> {
            let g = r->0;
            &&& g.width == logical.0 * scale
            &&& g.height == logical.1 * scale
            &&& g.stride == g.width * 4
            &&& g.size == g.stride * g.height
            &&& g.pool == g.size * 2
        },
{
    let factor: u64 = scale as u64;
    proof {
        assert(0 <= logical.0 * factor <= 0xffff_ffff * 0x7fff_ffff) by (nonlinear_arith)
            requires
                0 <= factor <= 0x7fff_ffff,
        ;
        assert(0 <= logical.1 * factor <= 0xffff_ffff * 0x7fff_ffff) by (nonlinear_arith)
            requires
                0 <= factor <= 0x7fff_ffff,
        ;
    }
    let width: u64 = logical.0 as u64 * factor;
    let height: u64 = logical.1 as u64 * factor;
    if width > 0x1fff_ffff || height > 0x7fff_ffff {
        return None;
    }
    proof {
        assert(0 <= (width * 4) * height <= 0x7fff_fffc * 0x7fff_ffff) by (nonlinear_arith)
            requires
                0 <= width * 4 <= 0x7fff_fffc,
                0 <= height <= 0x7fff_ffff,
        ;
        assert(width * 4 * height * 2 == ((width * 4) * height) * 2);
    }
    let stride: u64 = width * 4;
    let size: u64 = stride * height;
    if size > (usize::MAX / 2) as u64 {
        return None;
    }
    Some(
        Geometry {
            width: width as u32,
            height: height as u32,
            stride: stride as usize,
            size: size as usize,
            pool: size as usize * 2,
        },
    )
}

/// A point on a surface, in 256ths of a logical pixel.
#[derive(Clone, Copy, PartialEq, Eq, Structural, Debug)]
pub struct Point {
    pub x: i32,
    pub y: i32,
}

/// What the pointer did.
#[derive(Clone, Copy, PartialEq, Eq, Structural, Debug)]
pub enum PointerEvent {
    Enter(Point),
    Leave,
    Motion(Point),
    Press,
    Other,
}

/// The overlay: every output's surface, and what they share.
pub struct Overlay {
    pub surfaces: Vec<Surface>,
    pub grid_size: Option<(usize, usize)>,
    /// How long until the animator has something to say, in milliseconds.
    /// During a hold this is the whole hold.
    pub pending_deadline: Option<u64>,
    pub pointer_origin: Option<Point>,
    /// When the overlay was dismissed.
    pub dismissing: Option<u64>,
    /// Bumped whenever there is something new to present. Comparing an integer
    /// is what keeps an idle hold from diffing a grid on every wakeup.
    pub serial: u64,
    pub alpha: u8,
    pub closed: bool,
    pub failed: bool,
    /// How long the overlay takes to go, in milliseconds.
    pub fade_out: u64,
}

/// What an [`Overlay`] is, mathematically.
pub struct Scene {
    pub surfaces: Seq<SurfaceView>,
    pub grid_size: Option<(usize, usize)>,
    pub pending_deadline: Option<u64>,
    pub pointer_origin: Option<Point>,
    pub dismissing: Option<u64>,
    pub serial: u64,
    pub alpha: u8,
    pub closed: bool,
    pub failed: bool,
    pub fade_out: u64,
}

impl View for Overlay {
    type V = Scene;

    open spec fn view(&self) -> Scene {
        Scene {
            surfaces: self.surfaces@.map_values(|s: Surface| s@),
            grid_size: self.grid_size,
            pending_deadline: self.pending_deadline,
            pointer_origin: self.pointer_origin,
            dismissing: self.dismissing,
            serial: self.serial,
            alpha: self.alpha,
            closed: self.closed,
            failed: self.failed,
            fade_out: self.fade_out,
        }
    }
}

impl Scene {
    /// Whether every surface is sound.
    pub open spec fn wf(self) -> bool {
        forall|i: int| 0 <= i < self.surfaces.len() ==> (#[trigger] self.surfaces[i]).wf()
    }

    /// Whether every surface has presented the newest picture.
    pub open spec fn settled(self) -> bool {
        forall|i: int|
            0 <= i < self.surfaces.len() ==> (#[trigger] self.surfaces[i]).presented_serial
                == self.serial
    }

    /// Whether the fade-out has run its time.
    pub open spec fn faded(self, now_ns: u64) -> bool {
        match self.dismissing {
            Some(at) => {
                let since = if now_ns >= at {
                    now_ns - at
                } else {
                    0
                };
                since / NS_PER_MS as int >= self.fade_out
            },
            None => false,
        }
    }

    /// Whether it is time to leave: something failed or closed the overlay, or
    /// the fade-out has run and every surface has actually presented the last
    /// frame of it. Exiting early would drop the overlay in one step instead
    /// of fading it.
    pub open spec fn over(self, now_ns: u64) -> bool {
        self.failed || self.closed || (self.faded(now_ns) && self.settled())
    }

    /// Whether a fade is running.
    pub open spec fn fades(self) -> bool {
        self.dismissing is Some || self.alpha != u8::MAX
    }

    /// How long the event loop may sleep, in milliseconds; `None` means until
    /// something happens.
    pub open spec fn wakeup(self) -> Option<u64> {
        if self.fades() {
            Some(FADE_STEP_MS)
        } else if !self.settled() {
            None
        } else {
            self.pending_deadline
        }
    }

    /// The scene once something asks for it to go away.
    pub open spec fn dismissed(self, now_ns: u64) -> Scene {
        Scene {
            dismissing: match self.dismissing {
                Some(at) => Some(at),
                None => Some(now_ns),
            },
            ..self
        }
    }

    /// The scene with one surface in another state.
    pub open spec fn with(self, index: int, surface: SurfaceView) -> Scene {
        Scene { surfaces: self.surfaces.update(index, surface), ..self }
    }
}

/// Whether input counts yet.
pub open spec fn input_counts(now_ns: u64) -> bool {
    now_ns / NS_PER_MS >= INPUT_GRACE_MS
}

/// The scene after an advance up to `now_ms`: a frame is something new to
/// present, and an idle stretch is slept through.
pub open spec fn advanced(o: Scene, advance: Advance, now_ms: u64) -> Scene {
    match advance {
        Advance::Frame => Scene {
            serial: (o.serial + 1) as u64,
            pending_deadline: Some(0),
            ..o
        },
        Advance::Idle { until_ms } => Scene {
            pending_deadline: Some(
                if until_ms >= now_ms {
                    (until_ms - now_ms) as u64
                } else {
                    0
                },
            ),
            ..o
        },
    }
}

/// The scene after a pointer event. A motion counts if it is to another place
/// than the pointer entered at: mapping under a stationary pointer can produce
/// a motion at the position it was already at.
pub open spec fn pointed(o: Scene, event: PointerEvent, now_ns: u64) -> Scene {
    match event {
        PointerEvent::Enter(at) => Scene { pointer_origin: Some(at), ..o },
        PointerEvent::Leave => Scene { pointer_origin: None, ..o },
        PointerEvent::Motion(at) => if o.pointer_origin != Some(at) && input_counts(now_ns) {
            o.dismissed(now_ns)
        } else {
            o
        },
        PointerEvent::Press => if input_counts(now_ns) {
            o.dismissed(now_ns)
        } else {
            o
        },
        PointerEvent::Other => o,
    }
}

impl Overlay {
    /// Whether an overlay is sound.
    pub open spec fn wf(&self) -> bool {
        self@.wf()
    }

    /// An overlay without surfaces, at a fade level.
    pub fn new(fade_out: u64, alpha: u8) -> (r: Overlay)
        ensures
            r.wf(),
            r@ == (Scene {
                surfaces: Seq::empty(),
                grid_size: None,
                pending_deadline: None,
                pointer_origin: None,
                dismissing: None,
                serial: 0,
                alpha,
                closed: false,
                failed: false,
                fade_out,
            }),
    {
        let r = Overlay {
            surfaces: Vec::new(),
            grid_size: None,
            pending_deadline: None,
            pointer_origin: None,
            dismissing: None,
            serial: 0,
            alpha,
            closed: false,
            failed: false,
            fade_out,
        };
        proof {
            assert(r@.surfaces =~= Seq::empty());
        }
        r
    }

    /// Whether every surface has presented the newest picture.
    fn settled(&self) -> (r: bool)
        ensures
            r == self@.settled(),
    {
        let mut i: usize = 0;
        while i < self.surfaces.len()
            invariant
                i <= self.surfaces@.len(),
                forall|k: int|
                    0 <= k < i ==> (#[trigger] self.surfaces@[k]).presented_serial == self.serial,
            decreases self.surfaces@.len() - i,
        {
            if self.surfaces[i].presented_serial != self.serial {
                proof {
                    assert(self@.surfaces[i as int].presented_serial != self@.serial);
                }
                return false;
            }
            i += 1;
        }
        proof {
            assert forall|k: int| 0 <= k < self@.surfaces.len() implies (
            #[trigger] self@.surfaces[k]).presented_serial == self@.serial by {
                assert(self.surfaces@[k].presented_serial == self.serial);
            }
        }
        true
    }

    /// Whether it is time to leave.
    pub fn finished(&self, now_ns: u64) -> (r: bool)
        ensures
            r == self@.over(now_ns),
    {
        if self.failed || self.closed {
            return true;
        }
        match self.dismissing {
            Some(at) => {
                let since: u64 = now_ns.saturating_sub(at);
                since / NS_PER_MS >= self.fade_out && self.settled()
            },
            None => false,
        }
    }

    /// Start going away, unless already on the way.
    pub fn dismiss(&mut self, now_ns: u64)
        ensures
            final(self)@ == old(self)@.dismissed(now_ns),
    {
        if self.dismissing.is_none() {
            self.dismissing = Some(now_ns);
        }
    }

    /// Whether input counts yet.
    pub fn input_is_live(now_ns: u64) -> (r: bool)
        ensures
            r == input_counts(now_ns),
    {
        now_ns / NS_PER_MS >= INPUT_GRACE_MS
    }

    /// Whether a fade is running.
    pub fn fading(&self) -> (r: bool)
        ensures
            r == self@.fades(),
    {
        self.dismissing.is_some() || self.alpha != u8::MAX
    }

    /// How long the event loop may sleep, in milliseconds. `None` means "until
    /// something happens", which is what an idle hold wants: one wakeup at the
    /// end of it, not a poll timeout ticking through the whole thing.
    pub fn next_wakeup(&self) -> (r: Option<u64>)
        ensures
            r == self@.wakeup(),
    {
        if self.fading() {
            return Some(FADE_STEP_MS);
        }
        // A surface with something to present but no free buffer is waiting on
        // a release, which arrives on the Wayland socket: no timer needed.
        if !self.settled() {
            return None;
        }
        self.pending_deadline
    }

    /// Take a new fade level. A step of the fade is something new to present.
    pub fn set_alpha(&mut self, alpha: u8)
        requires
            alpha == old(self)@.alpha || old(self)@.serial < u64::MAX,
        ensures
            final(self)@ == if alpha == old(self)@.alpha {
                old(self)@
            } else {
                Scene { alpha, serial: (old(self)@.serial + 1) as u64, ..old(self)@ }
            },
    {
        if alpha != self.alpha {
            self.alpha = alpha;
            self.serial += 1;
        }
    }

    /// Whether the animation goes on: it stops once the overlay is dismissed.
    pub fn animates(&self) -> (r: bool)
        ensures
            r == (self@.dismissing is None),
    {
        self.dismissing.is_none()
    }

    /// Take what an advance up to `now_ms` came to.
    pub fn record_advance(&mut self, advance: Advance, now_ms: u64)
        requires
            advance == Advance::Frame ==> old(self)@.serial < u64::MAX,
        ensures
            final(self)@ == advanced(old(self)@, advance, now_ms),
    {
        match advance {
            Advance::Frame => {
                self.serial += 1;
                self.pending_deadline = Some(0);
            },
            Advance::Idle { until_ms } => {
                self.pending_deadline = Some(until_ms.saturating_sub(now_ms));
            },
        }
    }

    /// Take a key: going down, it dismisses the overlay once input counts.
    pub fn key(&mut self, pressed: bool, now_ns: u64)
        ensures
            final(self)@ == if pressed && input_counts(now_ns) {
                old(self)@.dismissed(now_ns)
            } else {
                old(self)@
            },
    {
        if pressed && Overlay::input_is_live(now_ns) {
            self.dismiss(now_ns);
        }
    }

    /// Take a pointer event. Returns whether the cursor is to be hidden, which
    /// is what an enter asks for.
    pub fn pointer(&mut self, event: PointerEvent, now_ns: u64) -> (hide: bool)
        ensures
            final(self)@ == pointed(old(self)@, event, now_ns),
            hide == (event is Enter),
    {
        match event {
            PointerEvent::Enter(at) => {
                self.pointer_origin = Some(at);
                true
            },
            PointerEvent::Leave => {
                self.pointer_origin = None;
                false
            },
            PointerEvent::Motion(at) => {
                let moved = match self.pointer_origin {
                    Some(origin) => origin != at,
                    None => true,
                };
                if moved && Overlay::input_is_live(now_ns) {
                    self.dismiss(now_ns);
                }
                false
            },
            PointerEvent::Press => {
                if Overlay::input_is_live(now_ns) {
                    self.dismiss(now_ns);
                }
                false
            },
            PointerEvent::Other => false,
        }
    }
}

/// The fewest columns that fit any of the configured surfaces.
pub open spec fn least_cols(surfaces: Seq<SurfaceView>) -> int
    decreases surfaces.len(),
{
    if surfaces.len() == 0 {
        usize::MAX as int
    } else {
        let before = least_cols(surfaces.drop_last());
        match surfaces.last().layout {
            Some(l) => {
                let own = cells_in(l.width, l.cell.width);
                if own < before {
                    own
                } else {
                    before
                }
            },
            None => before,
        }
    }
}

/// The fewest rows that fit any of the configured surfaces.
pub open spec fn least_rows(surfaces: Seq<SurfaceView>) -> int
    decreases surfaces.len(),
{
    if surfaces.len() == 0 {
        usize::MAX as int
    } else {
        let before = least_rows(surfaces.drop_last());
        match surfaces.last().layout {
            Some(l) => {
                let own = cells_in(l.height, l.cell.height);
                if own < before {
                    own
                } else {
                    before
                }
            },
            None => before,
        }
    }
}

/// Whether the configured surfaces leave room for a grid at all.
pub open spec fn has_grid(surfaces: Seq<SurfaceView>) -> bool {
    &&& least_cols(surfaces) != usize::MAX
    &&& least_cols(surfaces) != 0
    &&& least_rows(surfaces) != 0
}

/// The scene with the grid that its surfaces leave room for.
///
/// The *smallest* output decides it. A grid sized to the largest screen would
/// have its edges cut off on the others, and a screensaver whose quote is
/// missing its last word on the second monitor is worse than one that leaves a
/// wider margin there.
pub open spec fn resized(o: Scene) -> Scene {
    if has_grid(o.surfaces) {
        let cols = least_cols(o.surfaces) as usize;
        let rows = least_rows(o.surfaces) as usize;
        Scene {
            surfaces: o.surfaces.map_values(|s: SurfaceView| regridded(s, cols, rows)),
            grid_size: Some((cols, rows)),
            ..o
        }
    } else {
        o
    }
}

/// The grid that has to be animated anew, if the surfaces leave room for one
/// of another size than before.
pub open spec fn new_grid(o: Scene) -> Option<(usize, usize)> {
    if has_grid(o.surfaces) && resized(o).grid_size != o.grid_size {
        resized(o).grid_size
    } else {
        None
    }
}

/// No surface has room for fewer cells than the least.
proof fn lemma_least(surfaces: Seq<SurfaceView>, i: int)
    requires
        0 <= i < surfaces.len(),
        surfaces[i].layout is Some,
    ensures
        least_cols(surfaces) <= cells_in(
            surfaces[i].layout->0.width,
            surfaces[i].layout->0.cell.width,
        ),
        least_rows(surfaces) <= cells_in(
            surfaces[i].layout->0.height,
            surfaces[i].layout->0.cell.height,
        ),
    decreases surfaces.len(),
{
    if i < surfaces.len() - 1 {
        lemma_least(surfaces.drop_last(), i);
    }
}

/// A number of cells that is at most what fits, fits.
proof fn lemma_fewer_fit(length: u32, cell: u32, n: int)
    requires
        0 <= n <= cells_in(length, cell),
    ensures
        0 <= n * cell <= length,
{
    let size = if cell == 0 {
        1int
    } else {
        cell as int
    };
    vstd::arithmetic::div_mod::lemma_fundamental_div_mod(length as int, size);
    vstd::arithmetic::div_mod::lemma_mod_bound(length as int, size);
    assert(0 <= n * cell <= size * cells_in(length, cell)) by (nonlinear_arith)
        requires
            0 <= n <= cells_in(length, cell),
            0 <= cell <= size,
    ;
}

/// The least is a count of cells.
proof fn lemma_least_bounds(surfaces: Seq<SurfaceView>)
    ensures
        0 <= least_cols(surfaces) <= usize::MAX,
        0 <= least_rows(surfaces) <= usize::MAX,
    decreases surfaces.len(),
{
    if surfaces.len() > 0 {
        lemma_least_bounds(surfaces.drop_last());
        if let Some(l) = surfaces.last().layout {
            lemma_cells_in(l.width, l.cell.width);
            lemma_cells_in(l.height, l.cell.height);
        }
    }
}

proof fn lemma_cells_in(length: u32, cell: u32)
    ensures
        0 <= cells_in(length, cell) <= length,
{
    let size = if cell == 0 {
        1int
    } else {
        cell as int
    };
    assert(0 <= length as int / size <= length) by (nonlinear_arith)
        requires
            size >= 1,
            length >= 0,
    ;
}

/// A surface after a frame was drawn into one of its buffers and committed.
pub open spec fn committed(
    s: SurfaceView,
    slot: Slot,
    frame: SnapshotView,
    serial: u64,
    opaque: bool,
) -> SurfaceView {
    SurfaceView {
        first: if slot == Slot::First {
            Some(frame)
        } else {
            s.first
        },
        second: if slot == Slot::Second {
            Some(frame)
        } else {
            s.second
        },
        presented: Some(frame),
        presented_serial: serial,
        awaiting_callback: true,
        opaque,
        ..s
    }
}

/// A surface with buffers of a new size.
pub open spec fn reconfigured(
    s: SurfaceView,
    logical: (u32, u32),
    layout: Layout,
) -> SurfaceView {
    SurfaceView {
        logical,
        layout: Some(layout),
        awaiting_callback: false,
        opaque: false,
        ..forgotten(s)
    }
}

/// The largest grid that fits a size, centred.
pub open spec fn fitted(width: u32, height: u32, cell: CellMetrics) -> Layout {
    recentred(
        Layout {
            width,
            height,
            cols: 0,
            rows: 0,
            cell,
            origin_x: 0,
            origin_y: 0,
        },
        cells_in(width, cell.width) as usize,
        cells_in(height, cell.height) as usize,
    )
}

impl Overlay {
    /// Whether a scene is this one with one surface changed.
    proof fn lemma_with(&self, before: Scene, index: int)
        requires
            0 <= index < before.surfaces.len(),
            self.surfaces@.len() == before.surfaces.len(),
            forall|k: int|
                0 <= k < before.surfaces.len() && k != index ==> (#[trigger] self.surfaces@[k])@
                    == before.surfaces[k],
            before.wf(),
            self.surfaces@[index]@.wf(),
        ensures
            self@.surfaces == before.surfaces.update(index, self.surfaces@[index]@),
            self.wf(),
    {
        assert(self@.surfaces =~= before.surfaces.update(index, self.surfaces@[index]@));
    }

    /// Put a surface on a new output.
    pub fn add_output(&mut self, factor: Option<i32>)
        requires
            old(self).wf(),
        ensures
            final(self).wf(),
            final(self)@ == (Scene {
                surfaces: old(self)@.surfaces.push(fresh_surface(factor)),
                ..old(self)@
            }),
    {
        let scale: i32 = match factor {
            Some(factor) => if factor < 1 {
                1
            } else {
                factor
            },
            None => 1,
        };
        let ghost before = self@;
        self.surfaces.push(
            Surface {
                first: None,
                second: None,
                presented: None,
                presented_serial: NEVER,
                layout: None,
                scale,
                logical: (0, 0),
                awaiting_callback: false,
                opaque: false,
            },
        );
        proof {
            assert(self@.surfaces =~= before.surfaces.push(fresh_surface(factor)));
            assert forall|i: int| 0 <= i < self@.surfaces.len() implies (
            #[trigger] self@.surfaces[i]).wf() by {
                if i < before.surfaces.len() {
                    assert(self@.surfaces[i] == before.surfaces[i]);
                }
            }
        }
    }

    /// What a configure asks for: the new logical size, unless it is no size
    /// or the one the surface already has.
    pub fn configure(&self, index: usize, size: (u32, u32)) -> (r: Option<(u32, u32)>)
        requires
            index < self.surfaces@.len(),
        ensures
            r == (if size.0 == 0 || size.1 == 0 || (self@.surfaces[index as int].logical == size
                && self@.surfaces[index as int].layout is Some) {
                None
            } else {
                Some(size)
            }),
    {
        if size.0 == 0 || size.1 == 0 {
            return None;
        }
        let logical = self.surfaces[index].logical;
        if logical.0 == size.0 && logical.1 == size.1 && self.surfaces[index].layout.is_some() {
            return None;
        }
        Some(size)
    }

    /// Take a new scale. Returns the size to reconfigure the surface for, if
    /// the scale is another one and the surface has a size.
    pub fn rescale(&mut self, index: usize, factor: i32) -> (r: Option<(u32, u32)>)
        requires
            old(self).wf(),
            index < old(self)@.surfaces.len(),
        ensures
            final(self).wf(),
            ({
                let s = old(self)@.surfaces[index as int];
                &&& final(self)@ == old(self)@.with(
                    index as int,
                    SurfaceView { scale: proper_scale(factor), ..s },
                )
                &&& r == (if proper_scale(factor) == s.scale || s.logical == (0u32, 0u32) {
                    None
                } else {
                    Some(s.logical)
                })
            }),
    {
        let ghost before = self@;
        proof {
            assert(self.surfaces@[index as int]@ == before.surfaces[index as int]);
            assert(before.surfaces[index as int].wf());
        }
        let scale: i32 = if factor < 1 {
            1
        } else {
            factor
        };
        let logical = self.surfaces[index].logical;
        let same = self.surfaces[index].scale == scale;
        self.surfaces[index].scale = scale;
        proof {
            self.lemma_with(before, index as int);
        }
        if same || (logical.0 == 0 && logical.1 == 0) {
            None
        } else {
            Some(logical)
        }
    }

    /// Take note of the new buffers of a surface, then re-derive the shared
    /// grid. Returns the grid to animate anew, if it is one of another size.
    pub fn reconfigure(
        &mut self,
        index: usize,
        logical: (u32, u32),
        geometry: Geometry,
        metrics: CellMetrics,
    ) -> (r: Option<(usize, usize)>)
        requires
            old(self).wf(),
            index < old(self)@.surfaces.len(),
        ensures
            final(self).wf(),
            ({
                let o = old(self)@.with(
                    index as int,
                    reconfigured(
                        old(self)@.surfaces[index as int],
                        logical,
                        fitted(geometry.width, geometry.height, metrics),
                    ),
                );
                final(self)@ == resized(o) && r == new_grid(o)
            }),
    {
        let ghost before = self@;
        proof {
            assert(self.surfaces@[index as int]@ == before.surfaces[index as int]);
            assert(before.surfaces[index as int].wf());
        }
        let layout = Layout::fit(geometry.width, geometry.height, metrics);
        proof {
            lemma_cells_in(geometry.width, metrics.width);
            lemma_cells_in(geometry.height, metrics.height);
        }
        self.surfaces[index].logical = logical;
        self.surfaces[index].first = None;
        self.surfaces[index].second = None;
        self.surfaces[index].presented = None;
        self.surfaces[index].presented_serial = NEVER;
        self.surfaces[index].layout = Some(layout);
        self.surfaces[index].awaiting_callback = false;
        self.surfaces[index].opaque = false;
        proof {
            self.lemma_with(before, index as int);
        }
        self.resize_grid()
    }

    /// Re-derive the grid every output shows. Returns the grid to animate
    /// anew, if it is one of another size.
    pub fn resize_grid(&mut self) -> (r: Option<(usize, usize)>)
        requires
            old(self).wf(),
        ensures
            final(self).wf(),
            final(self)@ == resized(old(self)@),
            r == new_grid(old(self)@),
    {
        let ghost before = self@;
        let ghost all = before.surfaces;
        let mut cols: usize = usize::MAX;
        let mut rows: usize = usize::MAX;
        let mut i: usize = 0;
        proof {
            assert(all.take(0) =~= Seq::empty());
        }
        while i < self.surfaces.len()
            invariant
                i <= self.surfaces@.len(),
                all == self@.surfaces,
                cols == least_cols(all.take(i as int)),
                rows == least_rows(all.take(i as int)),
            decreases self.surfaces@.len() - i,
        {
            proof {
                assert(all.take(i + 1).drop_last() =~= all.take(i as int));
                assert(all.take(i + 1).last() == self.surfaces@[i as int]@);
            }
            if let Some(layout) = self.surfaces[i].layout {
                let fit = Layout::fit(layout.width, layout.height, layout.cell);
                if fit.cols < cols {
                    cols = fit.cols;
                }
                if fit.rows < rows {
                    rows = fit.rows;
                }
            }
            i += 1;
        }
        proof {
            assert(all.take(i as int) =~= all);
        }
        if cols == usize::MAX || cols == 0 || rows == 0 {
            return None;
        }
        let mut i: usize = 0;
        while i < self.surfaces.len()
            invariant
                i <= self.surfaces@.len(),
                self.surfaces@.len() == all.len(),
                before.wf(),
                all == before.surfaces,
                cols == least_cols(all),
                rows == least_rows(all),
                self.grid_size == before.grid_size,
                self.pending_deadline == before.pending_deadline,
                self.pointer_origin == before.pointer_origin,
                self.dismissing == before.dismissing,
                self.serial == before.serial,
                self.alpha == before.alpha,
                self.closed == before.closed,
                self.failed == before.failed,
                self.fade_out == before.fade_out,
                forall|k: int|
                    0 <= k < i ==> (#[trigger] self.surfaces@[k])@ == regridded(all[k], cols, rows)
                        && self.surfaces@[k]@.wf(),
                forall|k: int| i <= k < all.len() ==> (#[trigger] self.surfaces@[k])@ == all[k],
            decreases self.surfaces@.len() - i,
        {
            proof {
                assert(self.surfaces@[i as int]@ == all[i as int]);
                assert(all[i as int].wf());
                if all[i as int].layout is Some {
                    let l = all[i as int].layout->0;
                    lemma_least(all, i as int);
                    lemma_fewer_fit(l.width, l.cell.width, cols as int);
                    lemma_fewer_fit(l.height, l.cell.height, rows as int);
                }
            }
            let surface = &mut self.surfaces[i];
            surface.regrid(cols, rows);
            i += 1;
        }
        let same = match self.grid_size {
            Some(size) => size.0 == cols && size.1 == rows,
            None => false,
        };
        self.grid_size = Some((cols, rows));
        proof {
            assert(self@.surfaces =~= resized(before).surfaces);
            assert forall|k: int| 0 <= k < self@.surfaces.len() implies (
            #[trigger] self@.surfaces[k]).wf() by {
                assert(self.surfaces@[k]@.wf());
            }
        }
        if same {
            None
        } else {
            Some((cols, rows))
        }
    }

    /// Take note of a new animation over the grid: it is something new to
    /// present.
    pub fn restarted(&mut self)
        requires
            old(self)@.serial < u64::MAX,
        ensures
            final(self)@ == (Scene { serial: (old(self)@.serial + 1) as u64, ..old(self)@ }),
    {
        self.serial += 1;
    }

    /// Take note that something failed.
    pub fn fail(&mut self)
        ensures
            final(self)@ == (Scene { failed: true, ..old(self)@ }),
    {
        self.failed = true;
    }

    /// Take note that the compositor has shown what a surface committed.
    pub fn frame_done(&mut self, index: usize)
        requires
            old(self).wf(),
            index < old(self)@.surfaces.len(),
        ensures
            final(self).wf(),
            final(self)@ == old(self)@.with(
                index as int,
                SurfaceView {
                    awaiting_callback: false,
                    ..old(self)@.surfaces[index as int]
                },
            ),
    {
        let ghost before = self@;
        proof {
            assert(self.surfaces@[index as int]@ == before.surfaces[index as int]);
            assert(before.surfaces[index as int].wf());
        }
        self.surfaces[index].awaiting_callback = false;
        proof {
            self.lemma_with(before, index as int);
        }
    }

    /// Take a surface away. Without surfaces the overlay is closed.
    fn remove(&mut self, index: usize)
        requires
            old(self).wf(),
            index < old(self)@.surfaces.len(),
        ensures
            final(self).wf(),
            final(self)@ == removed(old(self)@, index as int),
    {
        let ghost before = self@;
        let _ = self.surfaces.remove(index);
        if self.surfaces.len() == 0 {
            self.closed = true;
        }
        proof {
            assert(self@.surfaces =~= before.surfaces.remove(index as int));
            assert forall|k: int| 0 <= k < self@.surfaces.len() implies (
            #[trigger] self@.surfaces[k]).wf() by {
                let old_k = if k < index {
                    k
                } else {
                    k + 1
                };
                assert(self@.surfaces[k] == before.surfaces[old_k]);
                assert(before.surfaces[old_k].wf());
            }
        }
    }

    /// An output went away, and its surface with it. Returns the grid to
    /// animate anew, if the outputs that are left make it another one.
    pub fn output_destroyed(&mut self, index: usize) -> (r: Option<(usize, usize)>)
        requires
            old(self).wf(),
            index < old(self)@.surfaces.len(),
        ensures
            final(self).wf(),
            ({
                let o = removed(old(self)@, index as int);
                if o.surfaces.len() == 0 {
                    final(self)@ == o && r is None
                } else {
                    final(self)@ == resized(o) && r == new_grid(o)
                }
            }),
    {
        self.remove(index);
        if self.surfaces.len() == 0 {
            None
        } else {
            self.resize_grid()
        }
    }

    /// The compositor closed a surface.
    pub fn surface_closed(&mut self, index: usize)
        requires
            old(self).wf(),
            index < old(self)@.surfaces.len(),
        ensures
            final(self).wf(),
            final(self)@ == removed(old(self)@, index as int),
    {
        self.remove(index);
    }
}

/// The scene without one of its surfaces.
pub open spec fn removed(o: Scene, index: int) -> Scene {
    let surfaces = o.surfaces.remove(index);
    Scene { surfaces, closed: o.closed || surfaces.len() == 0, ..o }
}

/// Whether a surface has something new to present and may present it: its
/// picture is out of date, the last one has been shown, and it is laid out for
/// the grid there is.
pub open spec fn wants_frame(o: Scene, index: int, cols: usize, rows: usize) -> bool {
    let s = o.surfaces[index];
    &&& s.presented_serial != o.serial
    &&& !s.awaiting_callback
    &&& s.layout is Some
    &&& s.layout->0.cols == cols
    &&& s.layout->0.rows == rows
}

impl Overlay {
    /// Whether a surface has something new to present and may present it.
    pub fn wants_frame(&self, index: usize, cols: usize, rows: usize) -> (r: bool)
        requires
            index < self.surfaces@.len(),
        ensures
            r == wants_frame(self@, index as int, cols, rows),
    {
        let surface = &self.surfaces[index];
        proof {
            assert(self@.surfaces[index as int] == surface@);
        }
        if surface.presented_serial == self.serial || surface.awaiting_callback {
            return false;
        }
        match surface.layout {
            Some(layout) => layout.cols == cols && layout.rows == rows,
            None => false,
        }
    }

    /// Draw the grid into one of a surface's buffers, going by what that
    /// buffer and the screen hold already, and report the damage.
    pub fn paint(
        &self,
        index: usize,
        slot: Slot,
        pixels: &mut [u32],
        raster: &Rasterizer,
        grid: &Grid,
        background: Rgb,
    ) -> (r: Rendered)
        requires
            self.wf(),
            index < self.surfaces@.len(),
            self@.surfaces[index as int].layout is Some,
            grid.wf(),
            grid@.cols == self@.surfaces[index as int].layout->0.cols,
            grid@.rows == self@.surfaces[index as int].layout->0.rows,
            raster.wf(),
            raster@.metrics == self@.surfaces[index as int].layout->0.cell,
            raster@.has_all(grid@),
            self@.surfaces[index as int].layout->0.width
                * self@.surfaces[index as int].layout->0.height <= old(pixels)@.len(),
        ensures
            ({
                let s = self@.surfaces[index as int];
                let base = baseline(s.held(slot), self@.alpha, grid@);
                let screen = baseline(s.presented, self@.alpha, grid@);
                &&& final(pixels)@ == repainted(
                    old(pixels)@,
                    s.layout->0,
                    raster@,
                    grid@,
                    base,
                    self@.alpha,
                    background,
                )
                &&& is_damage(r.rects@, grid@, base, screen)
                &&& r.rects@.len() <= MAX_RECTS
                &&& r.full_surface == (screen is None)
                &&& r.cells_drawn == painted(grid@, base, grid@.cells.len())
            }),
    {
        let surface = &self.surfaces[index];
        proof {
            assert(self@.surfaces[index as int] == surface@);
            assert(surface@.wf());
        }
        let buffer: Option<&Snapshot> = match slot {
            Slot::First => surface.first.as_ref(),
            Slot::Second => surface.second.as_ref(),
        };
        let presented: Option<&Snapshot> = surface.presented.as_ref();
        match surface.layout {
            Some(layout) => render_frame(
                pixels,
                &layout,
                raster,
                grid,
                History { buffer, presented },
                self.alpha,
                background,
            ),
            None => Rendered::default(),
        }
    }

    /// Whether a surface has to be declared opaque, or no longer so.
    ///
    /// Once nothing is translucent, saying so lets the compositor skip blending
    /// the desktop underneath a fullscreen opaque surface. The declaration has
    /// to come back off for a fade, or there is nothing to fade against.
    pub fn opacity_change(&self, index: usize) -> (r: Option<bool>)
        requires
            index < self.surfaces@.len(),
        ensures
            r == (if (self@.alpha == u8::MAX) != self@.surfaces[index as int].opaque {
                Some(self@.alpha == u8::MAX)
            } else {
                None
            }),
    {
        let opaque = self.alpha == u8::MAX;
        if opaque != self.surfaces[index].opaque {
            Some(opaque)
        } else {
            None
        }
    }

    /// Take note that a surface was declared opaque, or no longer so, where no
    /// commit came of it.
    pub fn declare(&mut self, index: usize, opaque: bool)
        requires
            old(self).wf(),
            index < old(self)@.surfaces.len(),
        ensures
            final(self).wf(),
            final(self)@ == old(self)@.with(
                index as int,
                SurfaceView { opaque, ..old(self)@.surfaces[index as int] },
            ),
    {
        let ghost before = self@;
        proof {
            assert(self.surfaces@[index as int]@ == before.surfaces[index as int]);
            assert(before.surfaces[index as int].wf());
        }
        self.surfaces[index].opaque = opaque;
        proof {
            self.lemma_with(before, index as int);
        }
    }

    /// Take note of a frame that was drawn into one of a surface's buffers and
    /// committed, with the surface declared opaque or not.
    pub fn commit(&mut self, index: usize, slot: Slot, grid: &Grid, opaque: bool)
        requires
            old(self).wf(),
            index < old(self)@.surfaces.len(),
            grid.wf(),
        ensures
            final(self).wf(),
            final(self)@ == old(self)@.with(
                index as int,
                committed(
                    old(self)@.surfaces[index as int],
                    slot,
                    SnapshotView { grid: grid@, alpha: old(self)@.alpha },
                    old(self)@.serial,
                    opaque,
                ),
            ),
    {
        let ghost before = self@;
        proof {
            assert(self.surfaces@[index as int]@ == before.surfaces[index as int]);
            assert(before.surfaces[index as int].wf());
        }
        let snapshot = Snapshot { grid: grid.clone(), alpha: self.alpha };
        let copy = snapshot.clone();
        let serial: u64 = self.serial;
        match slot {
            Slot::First => {
                self.surfaces[index].first = Some(copy);
            },
            Slot::Second => {
                self.surfaces[index].second = Some(copy);
            },
        }
        self.surfaces[index].presented = Some(snapshot);
        self.surfaces[index].presented_serial = serial;
        self.surfaces[index].awaiting_callback = true;
        self.surfaces[index].opaque = opaque;
        proof {
            self.lemma_with(before, index as int);
        }
    }
}

/// Whether pixels are what a record says they are.
pub open spec fn truthful(
    pixels: Seq<u32>,
    record: Option<SnapshotView>,
    layout: Layout,
    face: Face,
    background: Rgb,
) -> bool {
    record is Some ==> pixels == picture(
        layout,
        face,
        record->0.grid,
        record->0.alpha,
        background,
        pixels.len(),
    )
}

/// The other buffer.
pub open spec fn other_slot(slot: Slot) -> Slot {
    match slot {
        Slot::First => Slot::Second,
        Slot::Second => Slot::First,
    }
}

/// The records stay true, and the screen shows the newest picture: from records
/// that describe their buffer and the screen, drawing a frame, having a
/// compositor copy no more than the reported damage, and noting the commit
/// leads to records that describe them again. The other buffer is not touched.
pub proof fn a_commit_keeps_the_records_true(
    s: SurfaceView,
    slot: Slot,
    pixels: Seq<u32>,
    shown: Seq<u32>,
    face: Face,
    next: GridView,
    alpha: u8,
    background: Rgb,
    rects: Seq<CellRect>,
    serial: u64,
    opaque: bool,
)
    requires
        s.layout is Some,
        next.wf(),
        next.cols == s.layout->0.cols,
        next.rows == s.layout->0.rows,
        shown.len() == pixels.len(),
        truthful(pixels, s.held(slot), s.layout->0, face, background),
        truthful(shown, s.presented, s.layout->0, face, background),
        is_damage(
            rects,
            next,
            baseline(s.held(slot), alpha, next),
            baseline(s.presented, alpha, next),
        ),
    ensures
        ({
            let layout = s.layout->0;
            let base = baseline(s.held(slot), alpha, next);
            let screen = baseline(s.presented, alpha, next);
            let buffer = repainted(pixels, layout, face, next, base, alpha, background);
            let after = composited(shown, buffer, layout, rects, screen is None);
            let t = committed(s, slot, SnapshotView { grid: next, alpha }, serial, opaque);
            &&& buffer == picture(layout, face, next, alpha, background, pixels.len())
            &&& after == picture(layout, face, next, alpha, background, pixels.len())
            &&& truthful(buffer, t.held(slot), layout, face, background)
            &&& truthful(after, t.presented, layout, face, background)
            &&& t.held(other_slot(slot)) == s.held(other_slot(slot))
        }),
{
    let layout = s.layout->0;
    let base = baseline(s.held(slot), alpha, next);
    let screen = baseline(s.presented, alpha, next);
    if base is Some {
        an_incremental_render_matches_a_full_one(
            layout,
            face,
            base->0,
            next,
            alpha,
            background,
            pixels.len(),
        );
    } else {
        an_unknown_buffer_is_drawn_whole(pixels, layout, face, next, alpha, background);
    }
    a_strict_compositor_shows_the_new_frame(
        shown,
        pixels,
        layout,
        face,
        next,
        base,
        screen,
        alpha,
        background,
        rects,
    );
}

/// At most one presentation per frame callback: a surface that has committed a
/// frame wants no other before the compositor has shown it.
pub proof fn a_commit_waits_for_its_callback(
    o: Scene,
    index: int,
    slot: Slot,
    frame: SnapshotView,
    opaque: bool,
    cols: usize,
    rows: usize,
)
    requires
        0 <= index < o.surfaces.len(),
    ensures
        !wants_frame(
            o.with(index, committed(o.surfaces[index], slot, frame, o.serial, opaque)),
            index,
            cols,
            rows,
        ),
{
}

/// The smallest output decides, and every output shows the same grid: after a
/// resize each configured surface is laid out for the shared grid, which lies
/// inside it.
pub proof fn every_output_shows_the_same_grid(o: Scene, i: int)
    requires
        o.wf(),
        has_grid(o.surfaces),
        0 <= i < o.surfaces.len(),
        o.surfaces[i].layout is Some,
    ensures
        ({
            let l = resized(o).surfaces[i].layout->0;
            &&& resized(o).surfaces[i].layout is Some
            &&& resized(o).grid_size == Some((l.cols, l.rows))
            &&& l.cols > 0
            &&& l.rows > 0
            &&& l.fits()
        }),
{
    let l = o.surfaces[i].layout->0;
    let cols = least_cols(o.surfaces);
    let rows = least_rows(o.surfaces);
    lemma_least(o.surfaces, i);
    lemma_least_bounds(o.surfaces);
    lemma_cells_in(l.width, l.cell.width);
    lemma_cells_in(l.height, l.cell.height);
    lemma_fewer_fit(l.width, l.cell.width, cols);
    lemma_fewer_fit(l.height, l.cell.height, rows);
}

/// A resize forgets what was shown: no record of a configured surface outlives
/// it, so none can describe pixels of another layout, and the surface wants the
/// shared grid drawn as soon as no callback is due.
pub proof fn a_resize_forgets_what_was_shown(o: Scene, i: int, slot: Slot)
    requires
        has_grid(o.surfaces),
        0 <= i < o.surfaces.len(),
        o.surfaces[i].layout is Some,
    ensures
        ({
            let s = resized(o).surfaces[i];
            let size = resized(o).grid_size->0;
            &&& s.held(slot) is None
            &&& s.presented is None
            &&& !s.awaiting_callback && o.serial != NEVER ==> wants_frame(
                resized(o),
                i,
                size.0,
                size.1,
            )
        }),
{
}

/// An idle hold sleeps through: with every surface up to date and no fade
/// running, an advance that says there is nothing to do before `until_ms` makes
/// that the next wakeup.
pub proof fn an_idle_hold_sleeps_through(o: Scene, until_ms: u64, now_ms: u64)
    requires
        o.settled(),
        o.dismissing is None,
        o.alpha == u8::MAX,
        now_ms <= until_ms,
    ensures
        advanced(o, Advance::Idle { until_ms }, now_ms).wakeup() == Some(
            (until_ms - now_ms) as u64,
        ),
{
}

/// Nothing that happens before input counts dismisses the overlay, and a motion
/// to where the pointer already was never does.
pub proof fn stray_input_does_not_dismiss(o: Scene, event: PointerEvent, now_ns: u64)
    requires
        !input_counts(now_ns) || (event is Motion && o.pointer_origin == Some(event->Motion_0)),
    ensures
        pointed(o, event, now_ns).dismissing == o.dismissing,
{
}

/// A dismissal stands: later ones change nothing, so the fade-out runs once.
pub proof fn a_dismissal_stands(o: Scene, first_ns: u64, later_ns: u64)
    ensures
        o.dismissed(first_ns).dismissed(later_ns) == o.dismissed(first_ns),
        o.dismissed(first_ns).fades(),
{
}

/// The overlay does not leave before the last frame of its fade-out is on every
/// screen, unless something failed or closed it.
pub proof fn the_fade_out_is_shown_to_the_end(o: Scene, now_ns: u64)
    requires
        o.over(now_ns),
        !o.failed,
        !o.closed,
    ensures
        o.dismissing is Some,
        o.faded(now_ns),
        o.settled(),
{
}

/// A record outlives new glyphs: pixels that a record describes are still what
/// it says after the cache has grown.
pub proof fn a_record_outlives_new_glyphs(
    pixels: Seq<u32>,
    record: SnapshotView,
    layout: Layout,
    face: Face,
    larger: Face,
    background: Rgb,
)
    requires
        record.grid.wf(),
        record.grid.cols == layout.cols,
        record.grid.rows == layout.rows,
        face.has_all(record.grid),
        face.grows_to(larger),
        truthful(pixels, Some(record), layout, face, background),
    ensures
        truthful(pixels, Some(record), layout, larger, background),
{
    a_growing_face_keeps_pictures(
        layout,
        face,
        larger,
        record.grid,
        record.alpha,
        background,
        pixels.len(),
    );
}

/// The least is what one of the configured surfaces has room for, where there
/// is one.
proof fn lemma_least_attained(surfaces: Seq<SurfaceView>, i: int) -> (r: (int, int))
    requires
        0 <= i < surfaces.len(),
        surfaces[i].layout is Some,
    ensures
        0 <= r.0 < surfaces.len(),
        surfaces[r.0].layout is Some,
        least_cols(surfaces) == cells_in(
            surfaces[r.0].layout->0.width,
            surfaces[r.0].layout->0.cell.width,
        ),
        0 <= r.1 < surfaces.len(),
        surfaces[r.1].layout is Some,
        least_rows(surfaces) == cells_in(
            surfaces[r.1].layout->0.height,
            surfaces[r.1].layout->0.cell.height,
        ),
    decreases surfaces.len(),
{
    let head = surfaces.drop_last();
    let last = surfaces.len() - 1;
    lemma_least_bounds(head);
    if i < last {
        let before = lemma_least_attained(head, i);
        assert(head[before.0] == surfaces[before.0]);
        assert(head[before.1] == surfaces[before.1]);
        match surfaces[last].layout {
            Some(l) => (
                if cells_in(l.width, l.cell.width) < least_cols(head) {
                    last
                } else {
                    before.0
                },
                if cells_in(l.height, l.cell.height) < least_rows(head) {
                    last
                } else {
                    before.1
                },
            ),
            None => before,
        }
    } else {
        let l = surfaces[last].layout->0;
        lemma_cells_in(l.width, l.cell.width);
        lemma_cells_in(l.height, l.cell.height);
        if exists|k: int| 0 <= k < head.len() && (#[trigger] head[k]).layout is Some {
            let k = choose|k: int| 0 <= k < head.len() && (#[trigger] head[k]).layout is Some;
            let before = lemma_least_attained(head, k);
            assert(head[before.0] == surfaces[before.0]);
            assert(head[before.1] == surfaces[before.1]);
            (
                if cells_in(l.width, l.cell.width) < least_cols(head) {
                    last
                } else {
                    before.0
                },
                if cells_in(l.height, l.cell.height) < least_rows(head) {
                    last
                } else {
                    before.1
                },
            )
        } else {
            lemma_least_of_none(head);
            (last, last)
        }
    }
}

/// Where no surface is configured, nothing limits the grid.
proof fn lemma_least_of_none(surfaces: Seq<SurfaceView>)
    requires
        forall|k: int| 0 <= k < surfaces.len() ==> (#[trigger] surfaces[k]).layout is None,
    ensures
        least_cols(surfaces) == usize::MAX,
        least_rows(surfaces) == usize::MAX,
    decreases surfaces.len(),
{
    if surfaces.len() > 0 {
        let head = surfaces.drop_last();
        assert forall|k: int| 0 <= k < head.len() implies (#[trigger] head[k]).layout is None by {
            assert(head[k] == surfaces[k]);
        }
        lemma_least_of_none(head);
        assert(surfaces[surfaces.len() - 1].layout is None);
    }
}

/// The shared grid is the largest that fits every output: it fits each of them,
/// and one column more would not fit one of them, nor one row more.
pub proof fn the_shared_grid_is_the_largest_that_fits(o: Scene, i: int)
    requires
        has_grid(o.surfaces),
        0 <= i < o.surfaces.len(),
        o.surfaces[i].layout is Some,
        forall|k: int|
            0 <= k < o.surfaces.len() && (#[trigger] o.surfaces[k]).layout is Some
                ==> o.surfaces[k].layout->0.cell.width > 0
                && o.surfaces[k].layout->0.cell.height > 0,
    ensures
        resized(o).grid_size is Some,
        ({
            let size = resized(o).grid_size->0;
            let l = o.surfaces[i].layout->0;
            &&& size.0 * l.cell.width <= l.width
            &&& size.1 * l.cell.height <= l.height
            &&& exists|k: int|
                0 <= k < o.surfaces.len() && (#[trigger] o.surfaces[k]).layout is Some && (size.0
                    + 1) * o.surfaces[k].layout->0.cell.width > o.surfaces[k].layout->0.width
            &&& exists|k: int|
                0 <= k < o.surfaces.len() && (#[trigger] o.surfaces[k]).layout is Some && (size.1
                    + 1) * o.surfaces[k].layout->0.cell.height > o.surfaces[k].layout->0.height
        }),
{
    let l = o.surfaces[i].layout->0;
    lemma_least(o.surfaces, i);
    lemma_least_bounds(o.surfaces);
    lemma_fewer_fit(l.width, l.cell.width, least_cols(o.surfaces));
    lemma_fewer_fit(l.height, l.cell.height, least_rows(o.surfaces));
    let at = lemma_least_attained(o.surfaces, i);
    let narrow = o.surfaces[at.0].layout->0;
    let low = o.surfaces[at.1].layout->0;
    the_largest_grid_fits(narrow.width, narrow.cell.width);
    the_largest_grid_fits(low.height, low.cell.height);
    let size = resized(o).grid_size->0;
    assert((size.0 + 1) * o.surfaces[at.0].layout->0.cell.width
        > o.surfaces[at.0].layout->0.width);
    assert((size.1 + 1) * o.surfaces[at.1].layout->0.cell.height
        > o.surfaces[at.1].layout->0.height);
}

/// A resize changes the layouts and nothing else: each configured surface keeps
/// its pixels and its cells and has the grid in its middle, and one that is not
/// configured is left alone. Where there is no room for a grid nothing changes
/// at all.
pub proof fn a_resize_centres_the_grid_on_every_output(o: Scene, i: int)
    requires
        0 <= i < o.surfaces.len(),
    ensures
        ({
            let after = resized(o);
            let s = o.surfaces[i];
            let t = after.surfaces[i];
            &&& after.surfaces.len() == o.surfaces.len()
            &&& after == (Scene { surfaces: after.surfaces, grid_size: after.grid_size, ..o })
            &&& !has_grid(o.surfaces) ==> after == o
            &&& s.layout is None ==> t == s
            &&& t.scale == s.scale
            &&& t.logical == s.logical
            &&& t.opaque == s.opaque
            &&& t.awaiting_callback == s.awaiting_callback
            &&& s.layout is Some ==> t.layout is Some && t.layout->0.width == s.layout->0.width
                && t.layout->0.height == s.layout->0.height && t.layout->0.cell == s.layout->0.cell
            &&& s.layout is Some && has_grid(o.surfaces) ==> {
                let l = t.layout->0;
                let right = l.width - l.origin_x - l.cols * l.cell.width;
                let below = l.height - l.origin_y - l.rows * l.cell.height;
                l.origin_x <= right <= l.origin_x + 1 && l.origin_y <= below <= l.origin_y + 1
            }
        }),
{
    if has_grid(o.surfaces) && o.surfaces[i].layout is Some {
        let l = o.surfaces[i].layout->0;
        let cols = least_cols(o.surfaces);
        let rows = least_rows(o.surfaces);
        lemma_least(o.surfaces, i);
        lemma_least_bounds(o.surfaces);
        lemma_fewer_fit(l.width, l.cell.width, cols);
        lemma_fewer_fit(l.height, l.cell.height, rows);
        a_margin_centres(l.width, cols * l.cell.width);
        a_margin_centres(l.height, rows * l.cell.height);
    }
}

/// A grid is animated anew exactly when the outputs make it one of another
/// size than before.
pub proof fn a_grid_of_another_size_is_animated_anew(o: Scene)
    ensures
        new_grid(o) is Some ==> new_grid(o) == resized(o).grid_size && new_grid(o) != o.grid_size,
        resized(o).grid_size != o.grid_size ==> new_grid(o) == resized(o).grid_size,
        resized(o).grid_size == o.grid_size ==> new_grid(o) is None,
{
}

/// A surface is laid out for the largest grid that fits it, in its middle.
pub proof fn a_surface_is_laid_out_for_the_largest_grid(
    width: u32,
    height: u32,
    cell: CellMetrics,
)
    requires
        cell.width > 0,
        cell.height > 0,
    ensures
        ({
            let l = fitted(width, height, cell);
            let right = width - l.origin_x - l.cols * cell.width;
            let below = height - l.origin_y - l.rows * cell.height;
            &&& l.width == width
            &&& l.height == height
            &&& l.cell == cell
            &&& l.cols * cell.width <= width < (l.cols + 1) * cell.width
            &&& l.rows * cell.height <= height < (l.rows + 1) * cell.height
            &&& l.origin_x <= right <= l.origin_x + 1
            &&& l.origin_y <= below <= l.origin_y + 1
        }),
{
    lemma_cells_in(width, cell.width);
    lemma_cells_in(height, cell.height);
    the_largest_grid_fits(width, cell.width);
    the_largest_grid_fits(height, cell.height);
    let cols = cells_in(width, cell.width);
    let rows = cells_in(height, cell.height);
    assert(cols * cell.width >= 0) by (nonlinear_arith)
        requires
            cols >= 0,
            cell.width >= 0,
    ;
    assert(rows * cell.height >= 0) by (nonlinear_arith)
        requires
            rows >= 0,
            cell.height >= 0,
    ;
    a_margin_centres(width, cols * cell.width);
    a_margin_centres(height, rows * cell.height);
}

/// A commit is noted in the buffer it was drawn into and on the screen, at the
/// serial it was drawn for, and waits for its callback; the other buffer, the
/// layout, the scale and the size stay as they were.
pub proof fn a_commit_is_noted_where_it_was_drawn(
    s: SurfaceView,
    slot: Slot,
    frame: SnapshotView,
    serial: u64,
    opaque: bool,
)
    ensures
        ({
            let t = committed(s, slot, frame, serial, opaque);
            &&& slot == Slot::First ==> t.first == Some(frame) && t.second == s.second
            &&& slot == Slot::Second ==> t.second == Some(frame) && t.first == s.first
            &&& t.presented == Some(frame)
            &&& t.presented_serial == serial
            &&& t.awaiting_callback
            &&& t.opaque == opaque
            &&& t.layout == s.layout
            &&& t.scale == s.scale
            &&& t.logical == s.logical
        }),
{
}

/// A surface wants a frame once what it shows is out of date, no callback is
/// due and it is laid out for the grid there is; otherwise it wants none.
pub proof fn a_surface_out_of_date_wants_a_frame(
    o: Scene,
    index: int,
    cols: usize,
    rows: usize,
)
    requires
        0 <= index < o.surfaces.len(),
    ensures
        ({
            let s = o.surfaces[index];
            let laid_out = s.layout is Some && s.layout->0.cols == cols && s.layout->0.rows == rows;
            &&& s.presented_serial != o.serial && !s.awaiting_callback && laid_out ==> wants_frame(
                o,
                index,
                cols,
                rows,
            )
            &&& s.presented_serial == o.serial ==> !wants_frame(o, index, cols, rows)
            &&& s.awaiting_callback ==> !wants_frame(o, index, cols, rows)
            &&& !laid_out ==> !wants_frame(o, index, cols, rows)
        }),
{
}

/// A fade is stepped every sixteen milliseconds. Without one, a surface that is
/// still out of date is waited for without a timer, and otherwise the loop
/// sleeps until the animator has something to say.
pub proof fn a_fade_is_stepped_and_a_hold_is_slept_through(o: Scene, i: int)
    ensures
        o.dismissing is Some || o.alpha != 255 ==> o.wakeup() == Some(16u64),
        o.dismissing is None && o.alpha == 255 && 0 <= i < o.surfaces.len()
            && o.surfaces[i].presented_serial != o.serial ==> o.wakeup() is None,
        o.dismissing is None && o.alpha == 255 && (forall|k: int|
            0 <= k < o.surfaces.len() ==> (#[trigger] o.surfaces[k]).presented_serial == o.serial)
            ==> o.wakeup() == o.pending_deadline,
{
}

/// Input counts a quarter of a second after the overlay started, and not
/// before.
pub proof fn input_counts_after_a_quarter_of_a_second(now_ns: u64)
    ensures
        input_counts(now_ns) <==> now_ns >= 250_000_000,
{
}

/// Once input counts, a press dismisses the overlay, and so does a motion to
/// another place than the pointer entered at.
pub proof fn input_dismisses_once_it_counts(o: Scene, at: Point, now_ns: u64)
    requires
        now_ns >= 250_000_000,
        o.dismissing is None,
    ensures
        pointed(o, PointerEvent::Press, now_ns) == (Scene { dismissing: Some(now_ns), ..o }),
        o.pointer_origin is None || o.pointer_origin->0.x != at.x || o.pointer_origin->0.y != at.y
            ==> pointed(o, PointerEvent::Motion(at), now_ns) == (Scene {
            dismissing: Some(now_ns),
            ..o
        }),
        o.pointer_origin == Some(at) ==> pointed(o, PointerEvent::Motion(at), now_ns) == o,
{
}

/// An enter is remembered and a leave forgets it; neither does anything else,
/// and no other event does anything.
pub proof fn a_pointer_is_remembered_where_it_entered(o: Scene, at: Point, now_ns: u64)
    ensures
        pointed(o, PointerEvent::Enter(at), now_ns) == (Scene { pointer_origin: Some(at), ..o }),
        pointed(o, PointerEvent::Leave, now_ns) == (Scene { pointer_origin: None, ..o }),
        pointed(o, PointerEvent::Other, now_ns) == o,
        now_ns < 250_000_000 ==> pointed(o, PointerEvent::Press, now_ns) == o && pointed(
            o,
            PointerEvent::Motion(at),
            now_ns,
        ) == o,
{
}

/// A dismissal takes note of its time and of nothing else, and the first one
/// counts.
pub proof fn the_first_dismissal_counts(o: Scene, now_ns: u64)
    ensures
        o.dismissing is None ==> o.dismissed(now_ns) == (Scene { dismissing: Some(now_ns), ..o }),
        o.dismissing is Some ==> o.dismissed(now_ns) == o,
{
}

/// A frame is something new to present, at once; an idle answer is slept
/// through, and is nothing new.
pub proof fn a_frame_is_something_new_to_present(o: Scene, until_ms: u64, now_ms: u64)
    requires
        o.serial < u64::MAX,
    ensures
        ({
            let shown = advanced(o, Advance::Frame, now_ms);
            let slept = advanced(o, Advance::Idle { until_ms }, now_ms);
            &&& shown.serial == o.serial + 1
            &&& shown.pending_deadline == Some(0u64)
            &&& shown == (Scene {
                serial: shown.serial,
                pending_deadline: shown.pending_deadline,
                ..o
            })
            &&& slept.pending_deadline is Some
            &&& until_ms >= now_ms ==> now_ms + slept.pending_deadline->0 == until_ms
            &&& until_ms < now_ms ==> slept.pending_deadline->0 == 0
            &&& slept == (Scene { pending_deadline: slept.pending_deadline, ..o })
        }),
{
}

/// A fade-out has run once it has lasted its time, in milliseconds of a million
/// nanoseconds each, from the dismissal on.
pub proof fn a_fade_out_runs_its_time(o: Scene, now_ns: u64)
    ensures
        o.dismissing is None ==> !o.faded(now_ns),
        o.dismissing is Some ==> (o.faded(now_ns) <==> now_ns >= o.dismissing->0 + o.fade_out
            * 1_000_000 || o.fade_out == 0),
{
}

/// The overlay leaves when something failed, when it was closed, or when its
/// fade-out has run and every surface shows the end of it; and not otherwise.
pub proof fn the_overlay_leaves_when_it_has_to(o: Scene, now_ns: u64, i: int)
    ensures
        o.failed ==> o.over(now_ns),
        o.closed ==> o.over(now_ns),
        !o.failed && !o.closed && o.dismissing is None ==> !o.over(now_ns),
        !o.failed && !o.closed && o.dismissing is Some && o.fade_out > 0 && now_ns
            < o.dismissing->0 + o.fade_out * 1_000_000 ==> !o.over(now_ns),
        !o.failed && !o.closed && 0 <= i < o.surfaces.len() && o.surfaces[i].presented_serial
            != o.serial ==> !o.over(now_ns),
        o.dismissing is Some && now_ns >= o.dismissing->0 + o.fade_out * 1_000_000 && (forall|k: int|
            0 <= k < o.surfaces.len() ==> (#[trigger] o.surfaces[k]).presented_serial == o.serial)
            ==> o.over(now_ns),
{
    a_fade_out_runs_its_time(o, now_ns);
}

/// A surface of a new output knows nothing and is no size yet; its scale is
/// the output's, and at least one.
pub proof fn a_fresh_surface_knows_nothing(factor: i32)
    ensures
        ({
            let s = fresh_surface(Some(factor));
            &&& s.first is None
            &&& s.second is None
            &&& s.presented is None
            &&& s.layout is None
            &&& s.logical == (0u32, 0u32)
            &&& !s.awaiting_callback
            &&& !s.opaque
            &&& factor >= 1 ==> s.scale == factor
            &&& factor < 1 ==> s.scale == 1
            &&& fresh_surface(None) == (SurfaceView { scale: 1, ..s })
            &&& s.presented_serial == u64::MAX
        }),
        factor >= 1 ==> proper_scale(factor) == factor,
        factor < 1 ==> proper_scale(factor) == 1,
{
}

/// New buffers hold nothing that is known: a surface that is configured anew
/// has its new size and layout, forgets every record and waits for nothing.
pub proof fn new_buffers_hold_nothing_known(
    s: SurfaceView,
    logical: (u32, u32),
    layout: Layout,
)
    ensures
        ({
            let t = reconfigured(s, logical, layout);
            &&& t.first is None
            &&& t.second is None
            &&& t.presented is None
            &&& t.presented_serial == u64::MAX
            &&& t.logical == logical
            &&& t.layout == Some(layout)
            &&& !t.awaiting_callback
            &&& !t.opaque
            &&& t.scale == s.scale
        }),
{
}

/// A surface that goes away goes alone: the others stay as they were and in
/// their order, and with the last one the overlay is closed.
pub proof fn a_surface_goes_alone(o: Scene, index: int, k: int)
    requires
        0 <= index < o.surfaces.len(),
        0 <= k < o.surfaces.len() - 1,
    ensures
        ({
            let after = removed(o, index);
            &&& after.surfaces.len() == o.surfaces.len() - 1
            &&& k < index ==> after.surfaces[k] == o.surfaces[k]
            &&& k >= index ==> after.surfaces[k] == o.surfaces[k + 1]
            &&& after.closed == o.closed
            &&& after == (Scene { surfaces: after.surfaces, ..o })
        }),
{
}

/// Without a surface the overlay is closed.
pub proof fn the_last_surface_closes_the_overlay(o: Scene)
    requires
        o.surfaces.len() == 1,
    ensures
        removed(o, 0).closed,
        removed(o, 0).surfaces.len() == 0,
        removed(o, 0) == (Scene { surfaces: Seq::empty(), closed: true, ..o }),
{
    assert(removed(o, 0).surfaces =~= Seq::empty());
}

/// Buffers exist for every size that the protocol can count: a row of four
/// bytes a pixel, the rows, and the bytes of both buffers.
pub proof fn buffers_exist_where_they_can_be_counted(logical: (u32, u32), scale: i32)
    requires
        scale >= 1,
    ensures
        ({
            let width = logical.0 * scale;
            let height = logical.1 * scale;
            buffers_exist(logical, scale) <==> 4 * width <= 2_147_483_647 && height
                <= 2_147_483_647 && 8 * (width * height) <= usize::MAX
        }),
{
    let width = logical.0 * scale;
    let height = logical.1 * scale;
    assert(width >= 0 && height >= 0) by (nonlinear_arith)
        requires
            width == logical.0 * scale,
            height == logical.1 * scale,
            scale >= 1,
    ;
    assert(width * 4 * height * 2 == 8 * (width * height)) by (nonlinear_arith);
}

/// There is a grid exactly where every configured output has room for a cell,
/// and there is one.
pub proof fn there_is_a_grid_where_every_output_has_room(surfaces: Seq<SurfaceView>, i: int)
    requires
        0 <= i < surfaces.len(),
        surfaces[i].layout is Some,
        forall|k: int|
            0 <= k < surfaces.len() && (#[trigger] surfaces[k]).layout is Some
                ==> surfaces[k].layout->0.cell.width > 0 && surfaces[k].layout->0.cell.height > 0
                && surfaces[k].layout->0.width < u32::MAX,
    ensures
        has_grid(surfaces) <==> forall|k: int|
            0 <= k < surfaces.len() && (#[trigger] surfaces[k]).layout is Some
                ==> surfaces[k].layout->0.width >= surfaces[k].layout->0.cell.width
                && surfaces[k].layout->0.height >= surfaces[k].layout->0.cell.height,
{
    let at = lemma_least_attained(surfaces, i);
    let narrow = surfaces[at.0].layout->0;
    let low = surfaces[at.1].layout->0;
    lemma_cells_in(narrow.width, narrow.cell.width);
    lemma_room(narrow.width, narrow.cell.width);
    lemma_room(low.height, low.cell.height);
    if has_grid(surfaces) {
        assert forall|k: int|
            0 <= k < surfaces.len() && (#[trigger] surfaces[k]).layout is Some implies
            surfaces[k].layout->0.width >= surfaces[k].layout->0.cell.width
            && surfaces[k].layout->0.height >= surfaces[k].layout->0.cell.height by {
            let l = surfaces[k].layout->0;
            lemma_least(surfaces, k);
            lemma_least_bounds(surfaces);
            lemma_room(l.width, l.cell.width);
            lemma_room(l.height, l.cell.height);
        }
    }
}

/// There is room for a cell where the length is no less than the cell's.
proof fn lemma_room(length: u32, cell: u32)
    requires
        cell > 0,
    ensures
        cells_in(length, cell) >= 1 <==> length >= cell,
        cells_in(length, cell) >= 0,
{
    lemma_cells_in(length, cell);
    the_largest_grid_fits(length, cell);
    let n = cells_in(length, cell);
    if n >= 1 {
        assert(n * cell >= cell) by (nonlinear_arith)
            requires
                n >= 1,
                cell > 0,
        ;
    } else {
        assert((n + 1) * cell == cell) by (nonlinear_arith)
            requires
                n == 0,
        ;
    }
}

/// What is said of a surface is what its fields hold.
pub proof fn a_surface_says_what_it_holds(s: Surface)
    ensures
        s.first is Some ==> s@.first == Some(s.first->0@),
        s.first is None ==> s@.first is None,
        s.second is Some ==> s@.second == Some(s.second->0@),
        s.second is None ==> s@.second is None,
        s.presented is Some ==> s@.presented == Some(s.presented->0@),
        s.presented is None ==> s@.presented is None,
        s@.presented_serial == s.presented_serial,
        s@.layout == s.layout,
        s@.scale == s.scale,
        s@.logical == s.logical,
        s@.awaiting_callback == s.awaiting_callback,
        s@.opaque == s.opaque,
        s@.held(Slot::First) == s@.first,
        s@.held(Slot::Second) == s@.second,
{
}

/// What is said of an overlay is what its fields hold, each surface in its own
/// place.
pub proof fn an_overlay_says_what_it_holds(o: Overlay)
    ensures
        o@.surfaces.len() == o.surfaces@.len(),
        forall|i: int|
            0 <= i < o.surfaces@.len() ==> #[trigger] o@.surfaces[i] == o.surfaces@[i]@,
        o@.grid_size == o.grid_size,
        o@.pending_deadline == o.pending_deadline,
        o@.pointer_origin == o.pointer_origin,
        o@.dismissing == o.dismissing,
        o@.serial == o.serial,
        o@.alpha == o.alpha,
        o@.closed == o.closed,
        o@.failed == o.failed,
        o@.fade_out == o.fade_out,
{
}

} // verus!
