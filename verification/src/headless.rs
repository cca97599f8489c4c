//! Rendering with no compositor at all.
//!
//! The layout and content logic (wrapping, attribution, effect selection,
//! quote rotation, how much of the grid a frame actually moves) has nothing to
//! do with Wayland, and none of it should need a running compositor to be
//! checked. This path drives the same animator the overlay does against a
//! virtual clock and reports what it saw.
//!
//! Given a seed, the report is a fixed string. That is the point.

use vstd::prelude::*;

use crate::chars;
use crate::damage::{changed_cells, differing, moved, what_moved_is_what_differs};
use crate::engine::{
    an_animation_keeps_its_canvas, an_interval_is_a_frames_share_of_a_second, answered, decided,
    frame_interval, interval_ms, turned, Advance, Animator, Motion, Progress, Reply, Step,
};
use crate::grid::{
    a_grid_is_row_major, breaks_no_line, digest, grid_words, rows_text, Cell, Grid, GridView,
};

verus! {

/// What a headless run saw.
#[derive(PartialEq, Eq, Debug)]
pub struct Report {
    pub presented: u64,
    pub engine_frames: u64,
    pub cycles: u64,
    pub cells_changed: usize,
    pub checksum: u64,
    pub last_effect: String,
    pub cols: usize,
    pub rows: usize,
}

/// What a [`Report`] says.
pub struct ReportView {
    pub presented: int,
    pub engine_frames: int,
    pub cycles: int,
    pub cells_changed: int,
    pub checksum: u64,
    pub last_effect: Seq<char>,
    pub cols: int,
    pub rows: int,
}

impl View for Report {
    type V = ReportView;

    open spec fn view(&self) -> ReportView {
        ReportView {
            presented: self.presented as int,
            engine_frames: self.engine_frames as int,
            cycles: self.cycles as int,
            cells_changed: self.cells_changed as int,
            checksum: self.checksum,
            last_effect: self.last_effect@,
            cols: self.cols as int,
            rows: self.rows as int,
        }
    }
}

impl Clone for Report {
    fn clone(&self) -> (r: Report)
        ensures
            r@ == self@,
    {
        Report {
            presented: self.presented,
            engine_frames: self.engine_frames,
            cycles: self.cycles,
            cells_changed: self.cells_changed,
            checksum: self.checksum,
            last_effect: self.last_effect.clone(),
            cols: self.cols,
            rows: self.rows,
        }
    }
}

/// A report in words.
pub open spec fn report_text(r: Report) -> Seq<char> {
    "grid="@ + chars::decimal_text(r.cols as nat) + "x"@ + chars::decimal_text(r.rows as nat)
        + " presented="@ + chars::decimal_text(r.presented as nat) + " engine-frames="@
        + chars::decimal_text(r.engine_frames as nat) + " cycles="@ + chars::decimal_text(
        r.cycles as nat,
    ) + " cells-changed="@ + chars::decimal_text(r.cells_changed as nat) + " last-effect="@
        + r.last_effect@ + " checksum="@ + chars::hex_text(r.checksum as nat, 16)
}

impl Report {
    /// The report in words.
    pub fn message(&self) -> (r: String)
        ensures
            r@ == report_text(*self),
    {
        let mut out = "grid=".to_owned();
        chars::push_decimal(&mut out, self.cols as u64);
        chars::push_text(&mut out, "x");
        chars::push_decimal(&mut out, self.rows as u64);
        chars::push_text(&mut out, " presented=");
        chars::push_decimal(&mut out, self.presented);
        chars::push_text(&mut out, " engine-frames=");
        chars::push_decimal(&mut out, self.engine_frames);
        chars::push_text(&mut out, " cycles=");
        chars::push_decimal(&mut out, self.cycles);
        chars::push_text(&mut out, " cells-changed=");
        chars::push_decimal(&mut out, self.cells_changed as u64);
        chars::push_text(&mut out, " last-effect=");
        chars::push_text(&mut out, self.last_effect.as_str());
        chars::push_text(&mut out, " checksum=");
        chars::push_hex(&mut out, self.checksum, 16);
        out
    }
}

/// A headless run: how much of it there is, where its clock stands and what it
/// has counted.
pub struct Run {
    /// How many frames to present.
    pub frames: u64,
    /// The time between two frames, in milliseconds.
    pub interval: u64,
    /// The frame presented last.
    pub previous: Grid,
    pub now_ms: u64,
    pub presented: u64,
    pub cells_changed: usize,
}

/// What a [`Run`] says.
pub struct RunView {
    pub frames: int,
    pub interval: int,
    pub previous: GridView,
    pub now_ms: int,
    pub presented: int,
    pub cells_changed: int,
}

impl View for Run {
    type V = RunView;

    open spec fn view(&self) -> RunView {
        RunView {
            frames: self.frames as int,
            interval: self.interval as int,
            previous: self.previous@,
            now_ms: self.now_ms as int,
            presented: self.presented as int,
            cells_changed: self.cells_changed as int,
        }
    }
}

/// A run that is to present `frames` frames, from a grid on.
pub open spec fn started(frame_rate: u32, frames: u64, grid: GridView) -> RunView {
    RunView {
        frames: frames as int,
        interval: frame_interval(frame_rate) as int,
        previous: grid,
        now_ms: 0,
        presented: 0,
        cells_changed: 0,
    }
}

/// A run after an advance up to its clock. A frame is presented and takes an
/// interval; an idle answer moves the clock on to the wakeup, and always on.
pub open spec fn recorded(run: RunView, advance: Advance, grid: GridView) -> RunView {
    match advance {
        Advance::Frame => RunView {
            cells_changed: run.cells_changed + moved(grid, Some(run.previous)),
            previous: grid,
            presented: run.presented + 1,
            now_ms: run.now_ms + run.interval,
            ..run
        },
        Advance::Idle { until_ms } => RunView {
            now_ms: if until_ms > run.now_ms {
                until_ms as int
            } else {
                run.now_ms + 1
            },
            ..run
        },
    }
}

/// What a run reports of the animator it drove.
pub open spec fn report_of(run: RunView, m: Motion) -> ReportView {
    ReportView {
        presented: run.presented,
        engine_frames: m.frames as int,
        cycles: m.cycles as int,
        cells_changed: run.cells_changed,
        checksum: digest(grid_words(m.grid)),
        last_effect: m.effect,
        cols: m.grid.cols,
        rows: m.grid.rows,
    }
}

/// The grid a run ended on as text.
pub open spec fn dump_of(m: Motion) -> Seq<char> {
    rows_text(m.grid, m.grid.rows as nat)
}

impl Run {
    /// Whether a run is sound: it has presented no more than it should.
    pub open spec fn wf(&self) -> bool {
        &&& self.previous.wf()
        &&& 1 <= self.interval <= 1000
        &&& self.presented <= self.frames
    }

    /// A run that is to present `frames` frames, from a grid on.
    pub fn new(frame_rate: u32, frames: u64, grid: &Grid) -> (r: Run)
        requires
            grid.wf(),
        ensures
            r.wf(),
            r@ == started(frame_rate, frames, grid@),
    {
        Run {
            frames,
            interval: interval_ms(frame_rate),
            previous: grid.clone(),
            now_ms: 0,
            presented: 0,
            cells_changed: 0,
        }
    }

    /// Whether every frame has been presented.
    pub fn done(&self) -> (r: bool)
        ensures
            r == (self.presented >= self.frames),
    {
        self.presented >= self.frames
    }

    /// Take note of what an advance up to the run's clock came to.
    ///
    /// Jumping straight to the wakeup the animator asked for is what makes a
    /// fourteen-second hold cost one step here, the same as it costs one timer
    /// on the overlay.
    pub fn record(&mut self, advance: Advance, grid: &Grid)
        requires
            old(self).wf(),
            old(self).presented < old(self).frames,
            old(self).now_ms < u64::MAX,
            grid.wf(),
            advance == Advance::Frame ==> {
                &&& old(self).now_ms + old(self).interval <= u64::MAX
                &&& old(self).cells_changed + moved(grid@, Some(old(self).previous@)) <= usize::MAX
            },
        ensures
            final(self).wf(),
            final(self)@ == recorded(old(self)@, advance, grid@),
            old(self).now_ms < final(self).now_ms,
    {
        match advance {
            Advance::Frame => {
                let n: usize = changed_cells(grid, Some(&self.previous));
                self.cells_changed += n;
                self.previous = grid.clone();
                self.presented += 1;
                self.now_ms += self.interval;
            },
            Advance::Idle { until_ms } => {
                let next: u64 = self.now_ms + 1;
                self.now_ms = if until_ms > next {
                    until_ms
                } else {
                    next
                };
            },
        }
    }

    /// What the run saw, and the grid it ended on as text.
    pub fn finish(&self, animator: &Animator) -> (r: (Report, String))
        requires
            animator.wf(),
        ensures
            r.0@ == report_of(self@, animator@),
            r.1@ == dump_of(animator@),
            chars::fields(r.1@, '\n') == dumped_rows(animator@.grid),
    {
        proof {
            a_dump_has_a_line_per_row(animator@.grid, animator@.grid.rows as nat);
        }
        let grid = animator.grid();
        let report = Report {
            presented: self.presented,
            engine_frames: animator.frames(),
            cycles: animator.cycles(),
            cells_changed: self.cells_changed,
            checksum: grid.checksum(),
            last_effect: animator.effect_name().to_owned(),
            cols: grid.cols(),
            rows: grid.rows(),
        };
        (report, grid.to_text())
    }
}

/// The requested number of frames is what comes back: a run that is done has
/// presented exactly that many.
pub proof fn the_requested_number_of_frames_is_what_comes_back(run: Run)
    requires
        run.wf(),
        run.presented >= run.frames,
    ensures
        run.presented == run.frames,
{
}

/// The text of one row of a dump.
pub open spec fn row_text(grid: GridView, row: int) -> Seq<char> {
    chars::trimmed_end(grid.row(row).map_values(|c: Cell| c.ch))
}

/// The lines of a dump: one per row, and nothing after the last line break.
pub open spec fn dumped_rows(grid: GridView) -> Seq<Seq<char>> {
    Seq::new(grid.rows as nat, |row: int| row_text(grid, row)).push(Seq::empty())
}

/// A dump has a line per row, each no longer than the grid is wide.
pub proof fn a_dump_has_a_line_per_row(grid: GridView, n: nat)
    requires
        grid.wf(),
        n <= grid.rows,
        breaks_no_line(grid),
    ensures
        chars::fields(rows_text(grid, n), '\n') == Seq::new(
            n,
            |row: int| row_text(grid, row),
        ).push(Seq::empty()),
        forall|row: int| 0 <= row < n ==> (#[trigger] row_text(grid, row)).len() <= grid.cols,
    decreases n,
{
    let want = Seq::new(n, |row: int| row_text(grid, row));
    if n > 0 {
        let m = (n - 1) as nat;
        a_dump_has_a_line_per_row(grid, m);
        let cells = grid.row(m as int);
        let full = cells.map_values(|c: Cell| c.ch);
        let line = row_text(grid, m as int);
        assert((m + 1) * grid.cols == m * grid.cols + grid.cols) by (nonlinear_arith);
        assert(m * grid.cols >= 0) by (nonlinear_arith)
            requires
                grid.cols >= 0,
        ;
        assert((m + 1) * grid.cols <= grid.cols * grid.rows) by (nonlinear_arith)
            requires
                m + 1 <= grid.rows,
                grid.cols >= 0,
        ;
        assert(cells.len() == grid.cols);
        chars::lemma_trimmed_end_prefix(full);
        assert forall|j: int| 0 <= j < line.len() implies #[trigger] line[j] != '\n' by {
            assert(line[j] == full[j]);
            assert(full[j] == cells[j].ch);
            assert(cells[j] == grid.cells[m * grid.cols + j]);
        }
        let before = rows_text(grid, m);
        chars::lemma_fields_append(before, line, '\n');
        let text = rows_text(grid, n);
        assert(text =~= (before + line).push('\n'));
        assert(text.drop_last() =~= before + line);
        let earlier = Seq::new(m, |row: int| row_text(grid, row));
        assert(earlier.push(Seq::empty()).drop_last() =~= earlier);
        assert(Seq::<char>::empty() + line =~= line);
        assert(earlier.push(line) =~= want);
    } else {
        assert(chars::fields(rows_text(grid, n), '\n') =~= want.push(Seq::empty()));
    }
}

/// A run and the animator it drives.
pub struct Session {
    pub run: RunView,
    pub motion: Motion,
}

/// A session after one more advance, from what the engine replied in it. A run
/// that is done advances no further, and an advance that has not come to its
/// end is not recorded.
pub open spec fn turned_once(s: Session, replies: Seq<Reply>) -> Session {
    if s.run.presented >= s.run.frames {
        s
    } else {
        let first = turned(s.motion, s.run.now_ms as u64);
        let p = answered(Progress { motion: first, step: decided(first) }, replies);
        Session {
            run: match p.step {
                Step::Done(advance) => recorded(s.run, advance, p.motion.grid),
                _ => s.run,
            },
            motion: p.motion,
        }
    }
}

/// A session after several advances, from what the engine replied in each.
pub open spec fn played(s: Session, turns: Seq<Seq<Reply>>) -> Session
    decreases turns.len(),
{
    if turns.len() == 0 {
        s
    } else {
        turned_once(played(s, turns.drop_last()), turns.last())
    }
}

proof fn lemma_answered_canvas(p: Progress, replies: Seq<Reply>)
    requires
        p.motion.wf(),
    ensures
        answered(p, replies).motion.wf(),
        answered(p, replies).motion.grid.same_shape(p.motion.grid),
    decreases replies.len(),
{
    if replies.len() > 0 {
        lemma_answered_canvas(p, replies.drop_last());
        an_animation_keeps_its_canvas(answered(p, replies.drop_last()), replies.last());
    }
}

/// A run comes back whole: whatever the engine replies, the report is of the
/// grid the run started with, no more frames are presented than were asked for
/// (exactly as many, once the run is done), and the dump has a line per row,
/// each ended and none longer than the grid is wide.
pub proof fn a_run_comes_back_whole(
    frame_rate: u32,
    frames: u64,
    motion: Motion,
    turns: Seq<Seq<Reply>>,
)
    requires
        motion.wf(),
    ensures
        ({
            let start = Session { run: started(frame_rate, frames, motion.grid), motion };
            let s = played(start, turns);
            let report = report_of(s.run, s.motion);
            &&& s.motion.wf()
            &&& report.cols == motion.grid.cols
            &&& report.rows == motion.grid.rows
            &&& s.run.frames == frames
            &&& report.presented <= frames
            &&& s.run.presented >= s.run.frames ==> report.presented == frames
            &&& chars::fields(dump_of(s.motion), '\n') == dumped_rows(s.motion.grid)
            &&& forall|row: int|
                0 <= row < motion.grid.rows ==> (#[trigger] row_text(s.motion.grid, row)).len()
                    <= motion.grid.cols
        }),
    decreases turns.len(),
{
    let start = Session { run: started(frame_rate, frames, motion.grid), motion };
    let s = played(start, turns);
    if turns.len() > 0 {
        let before = played(start, turns.drop_last());
        a_run_comes_back_whole(frame_rate, frames, motion, turns.drop_last());
        let first = turned(before.motion, before.run.now_ms as u64);
        lemma_answered_canvas(Progress { motion: first, step: decided(first) }, turns.last());
    }
    a_dump_has_a_line_per_row(s.motion.grid, s.motion.grid.rows as nat);
}

/// Replies pin the whole run: two runs that start alike and whose engines reply
/// alike, as engines with one seed do, report alike and dump alike.
pub proof fn equal_replies_give_equal_runs(
    a: Session,
    b: Session,
    a_turns: Seq<Seq<Reply>>,
    b_turns: Seq<Seq<Reply>>,
)
    requires
        a == b,
        a_turns.len() == b_turns.len(),
        forall|i: int| 0 <= i < a_turns.len() ==> #[trigger] a_turns[i] == b_turns[i],
    ensures
        ({
            let x = played(a, a_turns);
            let y = played(b, b_turns);
            &&& report_of(x.run, x.motion) == report_of(y.run, y.motion)
            &&& dump_of(x.motion) == dump_of(y.motion)
        }),
{
    assert(a_turns =~= b_turns);
}

/// A row of a dump shows the row's characters where they stand, and leaves out
/// white space at its end and nothing else.
pub proof fn a_dumped_row_shows_its_characters(grid: GridView, row: int, col: int)
    requires
        grid.wf(),
        grid.contains(col, row),
    ensures
        ({
            let line = row_text(grid, row);
            &&& line.len() <= grid.cols
            &&& col < line.len() ==> line[col] == grid.cells[row * grid.cols + col].ch
            &&& col >= line.len() ==> chars::is_white_space(
                grid.cells[row * grid.cols + col].ch,
            )
            &&& line.len() > 0 ==> !chars::is_white_space(line.last())
        }),
{
    let full = grid.row(row).map_values(|c: Cell| c.ch);
    a_grid_is_row_major(grid, col, row);
    chars::only_white_space_is_trimmed_off_the_end(full);
    assert(full[col] == grid.row(row)[col].ch);
}

/// A run begins at nothing: no frame presented, no cell changed, its clock at
/// zero, and the grid it is handed as the frame before the first.
pub proof fn a_run_begins_at_nothing(frame_rate: u32, frames: u64, grid: GridView)
    ensures
        ({
            let run = started(frame_rate, frames, grid);
            &&& run.presented == 0
            &&& run.cells_changed == 0
            &&& run.now_ms == 0
            &&& run.previous == grid
            &&& run.frames == frames
            &&& 1 <= frame_rate <= 1000 ==> run.interval * frame_rate <= 1000 < (run.interval + 1)
                * frame_rate
        }),
{
    an_interval_is_a_frames_share_of_a_second(frame_rate);
}

/// A frame is presented, counts every cell that differs from the frame before
/// it, and takes an interval; an idle answer presents nothing and moves the
/// clock on to the wakeup, or by a millisecond where that is past.
pub proof fn a_presented_frame_counts_what_it_changed(
    run: RunView,
    grid: GridView,
    until_ms: u64,
)
    requires
        grid.cols == run.previous.cols,
        grid.rows == run.previous.rows,
    ensures
        ({
            let shown = recorded(run, Advance::Frame, grid);
            let slept = recorded(run, Advance::Idle { until_ms }, grid);
            &&& shown.presented == run.presented + 1
            &&& shown.cells_changed == run.cells_changed + differing(
                grid.cells,
                run.previous.cells,
                grid.cells.len(),
            )
            &&& shown.previous == grid
            &&& shown.now_ms == run.now_ms + run.interval
            &&& shown.frames == run.frames
            &&& shown.interval == run.interval
            &&& until_ms >= run.now_ms + 1 ==> slept.now_ms == until_ms
            &&& until_ms < run.now_ms + 1 ==> slept.now_ms == run.now_ms + 1
            &&& slept == (RunView { now_ms: slept.now_ms, ..run })
        }),
{
    what_moved_is_what_differs(grid, run.previous);
}

/// A report is of the run and of the animator it drove, each number its own.
pub proof fn a_report_is_of_the_run_and_its_animator(run: RunView, m: Motion)
    ensures
        ({
            let report = report_of(run, m);
            &&& report.presented == run.presented
            &&& report.cells_changed == run.cells_changed
            &&& report.engine_frames == m.frames
            &&& report.cycles == m.cycles
            &&& report.last_effect == m.effect
            &&& report.cols == m.grid.cols
            &&& report.rows == m.grid.rows
            &&& report.checksum == digest(grid_words(m.grid))
        }),
{
}

/// A piece of a report holds no space.
spec fn spaceless(s: Seq<char>) -> bool {
    forall|j: int| 0 <= j < s.len() ==> #[trigger] s[j] != ' '
}

proof fn lemma_spaceless(n: nat)
    ensures
        spaceless(chars::decimal_text(n)),
        spaceless(chars::hex_text(n, 16)),
{
    chars::lemma_decimal_text_digits(n);
    chars::lemma_hex_text_digits(n, 16);
}

/// A piece behind a space is one more piece.
proof fn lemma_piece(front: Seq<char>, spaced: Seq<char>, key: Seq<char>, value: Seq<char>)
    requires
        spaced == seq![' '] + key,
        spaceless(key),
        spaceless(value),
    ensures
        chars::fields(front + spaced + value, ' ') == chars::fields(front, ' ').push(key + value),
{
    let piece = key + value;
    assert(spaceless(piece));
    chars::a_text_without_separators_is_one_field(piece, ' ');
    chars::a_text_is_cut_at_its_separators(front, ' ', piece);
    assert(front + spaced + value =~= front.push(' ') + piece);
    assert(chars::fields(front, ' ') + seq![piece] =~= chars::fields(front, ' ').push(piece));
}

/// The names of a report's numbers hold no space, but for the one in front.
proof fn lemma_keys()
    ensures
        " presented="@ == seq![' '] + "presented="@,
        spaceless("presented="@),
        " engine-frames="@ == seq![' '] + "engine-frames="@,
        spaceless("engine-frames="@),
        " cycles="@ == seq![' '] + "cycles="@,
        spaceless("cycles="@),
        " cells-changed="@ == seq![' '] + "cells-changed="@,
        spaceless("cells-changed="@),
        " last-effect="@ == seq![' '] + "last-effect="@,
        spaceless("last-effect="@),
        " checksum="@ == seq![' '] + "checksum="@,
        spaceless("checksum="@),
{
    reveal_strlit(" presented=");
    reveal_strlit("presented=");
    assert(" presented="@ =~= seq![' '] + "presented="@);
    reveal_strlit(" engine-frames=");
    reveal_strlit("engine-frames=");
    assert(" engine-frames="@ =~= seq![' '] + "engine-frames="@);
    reveal_strlit(" cycles=");
    reveal_strlit("cycles=");
    assert(" cycles="@ =~= seq![' '] + "cycles="@);
    reveal_strlit(" cells-changed=");
    reveal_strlit("cells-changed=");
    assert(" cells-changed="@ =~= seq![' '] + "cells-changed="@);
    reveal_strlit(" last-effect=");
    reveal_strlit("last-effect=");
    assert(" last-effect="@ =~= seq![' '] + "last-effect="@);
    reveal_strlit(" checksum=");
    reveal_strlit("checksum=");
    assert(" checksum="@ =~= seq![' '] + "checksum="@);
}

/// A report begins with the shape of the grid.
proof fn lemma_first_piece(cols: nat, rows: nat)
    ensures
        chars::fields(
            "grid="@ + chars::decimal_text(cols) + "x"@ + chars::decimal_text(rows),
            ' ',
        ) == seq![
            seq!['g', 'r', 'i', 'd', '='] + chars::decimal_text(cols) + seq!['x']
                + chars::decimal_text(rows),
        ],
{
    reveal_strlit("grid=");
    reveal_strlit("x");
    assert("grid="@ =~= seq!['g', 'r', 'i', 'd', '=']);
    assert("x"@ =~= seq!['x']);
    lemma_spaceless(cols);
    lemma_spaceless(rows);
    let piece = "grid="@ + chars::decimal_text(cols) + "x"@ + chars::decimal_text(rows);
    assert(spaceless(piece));
    chars::a_text_without_separators_is_one_field(piece, ' ');
}

/// A report has seven pieces with a space between each two: the shape of the
/// grid, the frames presented, the frames the engine ran, the cycles, the
/// cells changed, the effect that ran last, and the checksum in sixteen
/// hexadecimal digits.
pub proof fn a_report_has_seven_pieces(r: Report)
    requires
        forall|j: int| 0 <= j < r.last_effect@.len() ==> #[trigger] r.last_effect@[j] != ' ',
    ensures
        chars::fields(report_text(r), ' ') == seq![
            seq!['g', 'r', 'i', 'd', '='] + chars::decimal_text(r.cols as nat) + seq!['x']
                + chars::decimal_text(r.rows as nat),
            "presented="@ + chars::decimal_text(r.presented as nat),
            "engine-frames="@ + chars::decimal_text(r.engine_frames as nat),
            "cycles="@ + chars::decimal_text(r.cycles as nat),
            "cells-changed="@ + chars::decimal_text(r.cells_changed as nat),
            "last-effect="@ + r.last_effect@,
            "checksum="@ + chars::hex_text(r.checksum as nat, 16),
        ],
{
    lemma_keys();
    lemma_spaceless(r.presented as nat);
    lemma_spaceless(r.engine_frames as nat);
    lemma_spaceless(r.cycles as nat);
    lemma_spaceless(r.cells_changed as nat);
    lemma_spaceless(r.checksum as nat);
    lemma_first_piece(r.cols as nat, r.rows as nat);
    let grid = "grid="@ + chars::decimal_text(r.cols as nat) + "x"@ + chars::decimal_text(
        r.rows as nat,
    );
    let presented = chars::decimal_text(r.presented as nat);
    let frames = chars::decimal_text(r.engine_frames as nat);
    let cycles = chars::decimal_text(r.cycles as nat);
    let changed = chars::decimal_text(r.cells_changed as nat);
    let checksum = chars::hex_text(r.checksum as nat, 16);
    let to_presented = grid + " presented="@ + presented;
    let to_frames = to_presented + " engine-frames="@ + frames;
    let to_cycles = to_frames + " cycles="@ + cycles;
    let to_changed = to_cycles + " cells-changed="@ + changed;
    let to_effect = to_changed + " last-effect="@ + r.last_effect@;
    lemma_piece(grid, " presented="@, "presented="@, presented);
    lemma_piece(to_presented, " engine-frames="@, "engine-frames="@, frames);
    lemma_piece(to_frames, " cycles="@, "cycles="@, cycles);
    lemma_piece(to_cycles, " cells-changed="@, "cells-changed="@, changed);
    lemma_piece(to_changed, " last-effect="@, "last-effect="@, r.last_effect@);
    lemma_piece(to_effect, " checksum="@, "checksum="@, checksum);
    assert(report_text(r) == to_effect + " checksum="@ + checksum);
}

/// What is said of a report is what its fields hold.
pub proof fn a_report_says_what_it_holds(r: Report)
    ensures
        r@.presented == r.presented,
        r@.engine_frames == r.engine_frames,
        r@.cycles == r.cycles,
        r@.cells_changed == r.cells_changed,
        r@.checksum == r.checksum,
        r@.last_effect == r.last_effect@,
        r@.cols == r.cols,
        r@.rows == r.rows,
{
}

/// What is said of a run is what its fields hold.
pub proof fn a_run_says_what_it_holds(r: Run)
    ensures
        r@.frames == r.frames,
        r@.interval == r.interval,
        r@.previous == r.previous@,
        r@.now_ms == r.now_ms,
        r@.presented == r.presented,
        r@.cells_changed == r.cells_changed,
{
}

} // verus!
