//! The cycle the animation engine lives in.
//!
//! The engine owns effect selection, seeded randomness, canvas sizing,
//! anchoring and the per-frame simulation clock, and it hands back a complete
//! frame per call. What is decided here is when to ask it for one: which
//! effects a run draws from, when the next frame is due, how much of a backlog
//! to catch up on, how long a finished frame stays up and when the next cycle
//! begins.
//!
//! The engine itself is driven by the caller. [`Animator::advance`] and the
//! two methods that take the engine's replies answer with a [`Step`]: what to
//! ask the engine for next, or what to do with the grid.

use vstd::prelude::*;

use crate::chars;
use crate::chars::strings;
use crate::grid::{blank_grid, breaks_no_line, Grid, GridView, Rgb};
use crate::text;
use crate::text::{block_of, quoted, Content, Measure};
use crate::vt::{
    a_frame_keeps_the_shape, a_frame_puts_no_line_break_in_a_cell, changes, parsed, Parser,
};

verus! {

/// Which effects a run may draw from.
#[derive(PartialEq, Eq, Debug)]
pub struct EffectChoice {
    /// Pin exactly one effect for every cycle.
    pub pinned: Option<String>,
    /// Draw only from these.
    pub included: Vec<String>,
    /// Draw from everything except these.
    pub exclude: Vec<String>,
}

impl Clone for EffectChoice {
    fn clone(&self) -> (r: EffectChoice)
        ensures
            r.pinned is Some == self.pinned is Some,
            r.pinned is Some ==> r.pinned->0@ == self.pinned->0@,
            strings(r.included@) == strings(self.included@),
            strings(r.exclude@) == strings(self.exclude@),
    {
        EffectChoice {
            pinned: match &self.pinned {
                Some(name) => Some(name.clone()),
                None => None,
            },
            included: copy_names(&self.included),
            exclude: copy_names(&self.exclude),
        }
    }
}

impl Default for EffectChoice {
    fn default() -> (r: EffectChoice)
        ensures
            r.pinned is None,
            r.included@.len() == 0,
            r.exclude@.len() == 0,
    {
        EffectChoice { pinned: None, included: Vec::new(), exclude: Vec::new() }
    }
}

/// The option that named an effect.
#[derive(Clone, Copy, PartialEq, Eq, Structural, Debug)]
pub enum EffectOption {
    Effect,
    IncludeEffects,
    ExcludeEffects,
}

/// The option as it is written on the command line.
pub open spec fn option_name(option: EffectOption) -> Seq<char> {
    match option {
        EffectOption::Effect => "--effect"@,
        EffectOption::IncludeEffects => "--include-effects"@,
        EffectOption::ExcludeEffects => "--exclude-effects"@,
    }
}

/// Why a choice of effects leaves nothing to run.
#[derive(PartialEq, Eq, Debug)]
pub enum EffectError {
    /// A name the engine does not know.
    Unknown { name: String, option: EffectOption, available: Vec<String> },
    /// Every effect was filtered out.
    NoneLeft,
}

/// What an [`EffectError`] says.
pub enum EffectFault {
    Unknown { name: Seq<char>, option: EffectOption, available: Seq<Seq<char>> },
    NoneLeft,
}

impl View for EffectError {
    type V = EffectFault;

    open spec fn view(&self) -> EffectFault {
        match self {
            EffectError::Unknown { name, option, available } => EffectFault::Unknown {
                name: name@,
                option: *option,
                available: strings(available@),
            },
            EffectError::NoneLeft => EffectFault::NoneLeft,
        }
    }
}

/// Names with a comma and a space between each two.
pub open spec fn listed(names: Seq<Seq<char>>) -> Seq<char>
    decreases names.len(),
{
    if names.len() == 0 {
        Seq::empty()
    } else if names.len() == 1 {
        names[0]
    } else {
        listed(names.drop_last()) + ", "@ + names.last()
    }
}

/// What is said of a choice of effects that leaves nothing to run.
pub open spec fn effect_message(fault: EffectFault) -> Seq<char> {
    match fault {
        EffectFault::Unknown { name, option, available } => "unknown effect "@ + quoted(name)
            + " in "@ + option_name(option) + "\navailable effects: "@ + listed(available),
        EffectFault::NoneLeft => "no effects left after filtering"@,
    }
}

/// Names with a comma and a space between each two.
fn list_names(names: &Vec<String>) -> (out: String)
    ensures
        out@ == listed(strings(names@)),
{
    let ghost all = strings(names@);
    let mut out = String::new();
    let mut i: usize = 0;
    proof {
        assert(out@ =~= listed(all.take(0)));
    }
    while i < names.len()
        invariant
            i <= names@.len(),
            all == strings(names@),
            out@ == listed(all.take(i as int)),
        decreases names@.len() - i,
    {
        proof {
            assert(all.take(i + 1).drop_last() =~= all.take(i as int));
            assert(all.take(i + 1).last() == names@[i as int]@);
        }
        if i > 0 {
            chars::push_text(&mut out, ", ");
        }
        chars::push_text(&mut out, names[i].as_str());
        i += 1;
        proof {
            assert(out@ =~= listed(all.take(i as int)));
        }
    }
    proof {
        assert(all.take(i as int) =~= all);
    }
    out
}

impl EffectError {
    /// The error in words.
    pub fn message(&self) -> (r: String)
        ensures
            r@ == effect_message(self@),
    {
        match self {
            EffectError::Unknown { name, option, available } => {
                let mut out = "unknown effect ".to_owned();
                let shown = text::debug_text(name.as_str());
                chars::push_text(&mut out, shown.as_str());
                chars::push_text(&mut out, " in ");
                let place = match option {
                    EffectOption::Effect => "--effect",
                    EffectOption::IncludeEffects => "--include-effects",
                    EffectOption::ExcludeEffects => "--exclude-effects",
                };
                chars::push_text(&mut out, place);
                chars::push_text(&mut out, "\navailable effects: ");
                let names = list_names(available);
                chars::push_text(&mut out, names.as_str());
                out
            },
            EffectError::NoneLeft => "no effects left after filtering".to_owned(),
        }
    }
}

/// The first of some names that is not among the known ones.
pub open spec fn first_unknown(names: Seq<Seq<char>>, all: Seq<Seq<char>>) -> Option<Seq<char>>
    decreases names.len(),
{
    if names.len() == 0 {
        None
    } else {
        match first_unknown(names.drop_last(), all) {
            Some(name) => Some(name),
            None => if all.contains(names.last()) {
                None
            } else {
                Some(names.last())
            },
        }
    }
}

/// The names of a pool that are not excluded, in order.
pub open spec fn without(pool: Seq<Seq<char>>, exclude: Seq<Seq<char>>) -> Seq<Seq<char>>
    decreases pool.len(),
{
    if pool.len() == 0 {
        Seq::empty()
    } else if exclude.contains(pool.last()) {
        without(pool.drop_last(), exclude)
    } else {
        without(pool.drop_last(), exclude).push(pool.last())
    }
}

/// The pool that a pinned effect, or lists to draw from and to leave out, come
/// to, out of all effects there are.
pub open spec fn pool_of(
    pinned: Option<Seq<char>>,
    included: Seq<Seq<char>>,
    exclude: Seq<Seq<char>>,
    all: Seq<Seq<char>>,
) -> Result<Seq<Seq<char>>, EffectFault> {
    match pinned {
        Some(name) => if all.contains(name) {
            Ok(seq![name])
        } else {
            Err(EffectFault::Unknown { name, option: EffectOption::Effect, available: all })
        },
        None => match (first_unknown(included, all), first_unknown(exclude, all)) {
            (Some(name), _) => Err(
                EffectFault::Unknown {
                    name,
                    option: EffectOption::IncludeEffects,
                    available: all,
                },
            ),
            (None, Some(name)) => Err(
                EffectFault::Unknown {
                    name,
                    option: EffectOption::ExcludeEffects,
                    available: all,
                },
            ),
            (None, None) => {
                let pool = without(
                    if included.len() == 0 {
                        all
                    } else {
                        included
                    },
                    exclude,
                );
                if pool.len() == 0 {
                    Err(EffectFault::NoneLeft)
                } else {
                    Ok(pool)
                }
            },
        },
    }
}

/// The pool a choice comes to, out of all effects there are.
pub open spec fn effect_pool(choice: EffectChoice, all: Seq<Seq<char>>) -> Result<
    Seq<Seq<char>>,
    EffectFault,
> {
    pool_of(
        match choice.pinned {
            Some(pinned) => Some(pinned@),
            None => None,
        },
        strings(choice.included@),
        strings(choice.exclude@),
        all,
    )
}

/// Whether a name is among others.
fn has_name(names: &Vec<String>, name: &str) -> (r: bool)
    ensures
        r == strings(names@).contains(name@),
{
    let mut i: usize = 0;
    while i < names.len()
        invariant
            i <= names@.len(),
            forall|k: int| 0 <= k < i ==> (#[trigger] names@[k])@ != name@,
        decreases names@.len() - i,
    {
        if chars::same_text(names[i].as_str(), name) {
            proof {
                assert(strings(names@)[i as int] == name@);
            }
            return true;
        }
        i += 1;
    }
    proof {
        assert forall|k: int| 0 <= k < strings(names@).len() implies strings(names@)[k]
            != name@ by {
            assert(strings(names@)[k] == names@[k]@);
        }
    }
    false
}

/// A list of names of its own.
pub(crate) fn copy_names(names: &Vec<String>) -> (r: Vec<String>)
    ensures
        strings(r@) == strings(names@),
{
    let ghost all = strings(names@);
    let mut out: Vec<String> = Vec::new();
    let mut i: usize = 0;
    while i < names.len()
        invariant
            i <= names@.len(),
            all == strings(names@),
            out@.len() == i,
            forall|k: int| 0 <= k < i ==> (#[trigger] out@[k])@ == all[k],
        decreases names@.len() - i,
    {
        out.push(names[i].clone());
        i += 1;
    }
    proof {
        assert(strings(out@) =~= all);
    }
    out
}

/// Look for a name that is not among the known ones.
fn check_names(names: &Vec<String>, all: &Vec<String>, option: EffectOption) -> (r: Result<
    (),
    EffectError,
>)
    ensures
        match r {
            Ok(_) => first_unknown(strings(names@), strings(all@)) is None,
            Err(e) => first_unknown(strings(names@), strings(all@)) is Some && e@ == (
            EffectFault::Unknown {
                name: first_unknown(strings(names@), strings(all@))->0,
                option,
                available: strings(all@),
            }),
        },
{
    let ghost each = strings(names@);
    let ghost known = strings(all@);
    let mut i: usize = 0;
    proof {
        assert(each.take(0) =~= Seq::<Seq<char>>::empty());
    }
    while i < names.len()
        invariant
            i <= names@.len(),
            each == strings(names@),
            known == strings(all@),
            first_unknown(each.take(i as int), known) is None,
        decreases names@.len() - i,
    {
        proof {
            assert(each.take(i + 1).drop_last() =~= each.take(i as int));
            assert(each.take(i + 1).last() == names@[i as int]@);
        }
        if !has_name(all, names[i].as_str()) {
            proof {
                lemma_first_unknown(each, known, i + 1);
            }
            return Err(
                EffectError::Unknown {
                    name: names[i].clone(),
                    option,
                    available: copy_names(all),
                },
            );
        }
        i += 1;
    }
    proof {
        assert(each.take(i as int) =~= each);
    }
    Ok(())
}

/// What is unknown among the first names is the first unknown of all.
proof fn lemma_first_unknown(names: Seq<Seq<char>>, all: Seq<Seq<char>>, n: int)
    requires
        0 <= n <= names.len(),
        first_unknown(names.take(n), all) is Some,
    ensures
        first_unknown(names, all) == first_unknown(names.take(n), all),
    decreases names.len() - n,
{
    if n < names.len() {
        assert(names.take(n + 1).drop_last() =~= names.take(n));
        lemma_first_unknown(names, all, n + 1);
    } else {
        assert(names.take(n) =~= names);
    }
}

/// Turn a choice into the pool a run draws from, rejecting names the engine
/// does not know rather than silently animating something else.
pub fn resolve_effects(choice: &EffectChoice, all: &Vec<String>) -> (r: Result<
    Vec<String>,
    EffectError,
>)
    ensures
        match r {
            Ok(pool) => effect_pool(*choice, strings(all@)) == Ok::<Seq<Seq<char>>, EffectFault>(
                strings(pool@),
            ),
            Err(e) => effect_pool(*choice, strings(all@)) == Err::<Seq<Seq<char>>, EffectFault>(
                e@,
            ),
        },
{
    if let Some(pinned) = &choice.pinned {
        if !has_name(all, pinned.as_str()) {
            return Err(
                EffectError::Unknown {
                    name: pinned.clone(),
                    option: EffectOption::Effect,
                    available: copy_names(all),
                },
            );
        }
        let mut pool: Vec<String> = Vec::new();
        pool.push(pinned.clone());
        proof {
            assert(strings(pool@) =~= seq![pinned@]);
        }
        return Ok(pool);
    }
    match check_names(&choice.included, all, EffectOption::IncludeEffects) {
        Ok(_) => {},
        Err(e) => {
            return Err(e);
        },
    }
    match check_names(&choice.exclude, all, EffectOption::ExcludeEffects) {
        Ok(_) => {},
        Err(e) => {
            return Err(e);
        },
    }
    let from: &Vec<String> = if choice.included.len() == 0 {
        all
    } else {
        &choice.included
    };
    let ghost each = strings(from@);
    let ghost exclude = strings(choice.exclude@);
    let mut pool: Vec<String> = Vec::new();
    let mut i: usize = 0;
    proof {
        assert(strings(pool@) =~= without(each.take(0), exclude));
    }
    while i < from.len()
        invariant
            i <= from@.len(),
            each == strings(from@),
            exclude == strings(choice.exclude@),
            strings(pool@) == without(each.take(i as int), exclude),
        decreases from@.len() - i,
    {
        let ghost before = pool@;
        proof {
            assert(each.take(i + 1).drop_last() =~= each.take(i as int));
            assert(each.take(i + 1).last() == from@[i as int]@);
        }
        if !has_name(&choice.exclude, from[i].as_str()) {
            pool.push(from[i].clone());
            proof {
                assert(strings(pool@) =~= strings(before).push(from@[i as int]@));
            }
        }
        i += 1;
    }
    proof {
        assert(each.take(i as int) =~= each);
    }
    if pool.len() == 0 {
        return Err(EffectError::NoneLeft);
    }
    Ok(pool)
}

/// Everything the animator needs, already resolved. No paths, no environment,
/// no defaults that depend on the machine.
#[derive(PartialEq, Eq, Debug)]
pub struct Animation {
    pub cols: usize,
    pub rows: usize,
    pub frame_rate: u32,
    /// How long a finished frame stays up before the next cycle begins, in
    /// milliseconds.
    pub hold: u64,
    pub measure: Measure,
    pub content: Content,
    pub effects: Vec<String>,
    pub default_fg: Rgb,
}

impl Clone for Animation {
    fn clone(&self) -> (r: Animation)
        ensures
            r.cols == self.cols,
            r.rows == self.rows,
            r.frame_rate == self.frame_rate,
            r.hold == self.hold,
            r.measure@ == self.measure@,
            r.content@ == self.content@,
            strings(r.effects@) == strings(self.effects@),
            r.default_fg == self.default_fg,
    {
        Animation {
            cols: self.cols,
            rows: self.rows,
            frame_rate: self.frame_rate,
            hold: self.hold,
            measure: self.measure.clone(),
            content: self.content.clone(),
            effects: copy_names(&self.effects),
            default_fg: self.default_fg,
        }
    }
}

/// What the engine is asked to animate for one cycle.
#[derive(PartialEq, Eq, Debug)]
pub struct Cycle {
    pub block: String,
    pub effect: String,
    /// The canvas is the surface, not a terminal: its size is stated rather
    /// than looked up.
    pub canvas_width: i64,
    pub canvas_height: i64,
    pub frame_rate: i64,
}

impl Animation {
    /// The cycle that a choice of content and a choice of effect come to. The
    /// content is drawn first, and only where there is anything to choose.
    pub fn cycle(&self, content_choice: usize, effect_choice: usize) -> (r: Cycle)
        requires
            self.content@.choice_count() > 0 ==> content_choice < self.content@.choice_count(),
            effect_choice < self.effects@.len(),
        ensures
            r.block@ == block_of(self.content@, content_choice as int, self.measure@),
            r.effect@ == self.effects@[effect_choice as int]@,
            r.canvas_width == self.cols as i64,
            r.canvas_height == self.rows as i64,
            r.frame_rate == self.frame_rate,
    {
        Cycle {
            block: self.content.block(content_choice, &self.measure),
            effect: self.effects[effect_choice].clone(),
            canvas_width: #[verifier::truncate] (self.cols as i64),
            canvas_height: #[verifier::truncate] (self.rows as i64),
            frame_rate: self.frame_rate as i64,
        }
    }
}

/// What the caller should do next.
#[derive(Clone, Copy, PartialEq, Eq, Structural, Debug)]
pub enum Advance {
    /// The grid moved; present it.
    Frame,
    /// Nothing will change until this many milliseconds since the start.
    /// Until then there is no frame to draw, no parse to run and no commit to
    /// make: a hold has to be genuinely free, or a fourteen-second quote
    /// costs as much as fourteen seconds of animation.
    Idle { until_ms: u64 },
}

/// What the caller should do to bring an advance to its end.
#[derive(Clone, Copy, PartialEq, Eq, Structural, Debug)]
pub enum Step {
    /// Ask the running effect for its next frame, and hand the reply to
    /// [`Animator::receive`].
    Pull,
    /// Build the next cycle, and report it to [`Animator::begin`].
    Start,
    /// The advance is over.
    Done(Advance),
}

/// Whether an effect is running or its last frame is being held.
#[derive(Clone, Copy, PartialEq, Eq, Structural, Debug)]
pub enum State {
    Animating,
    Holding { until_ms: u64 },
}

/// Where an advance has got to.
#[derive(Clone, Copy, PartialEq, Eq, Structural, Debug)]
pub struct Turn {
    /// The time the simulation is stepped up to.
    pub now_ms: u64,
    /// How many cycles it has started.
    pub starts: u32,
    /// Whether a frame of the running burst changed the grid.
    pub changed: bool,
    /// How many frames of the running burst it has pulled.
    pub pulled: u32,
}

/// A hard cap on how many engine frames one advance may burn catching up. A
/// stall long enough to exceed this is better served by dropping the backlog
/// than by spending a whole event-loop turn simulating it.
pub const MAX_CATCHUP_FRAMES: u32 = 8;

/// How many cycles one advance may start. A cycle that produces nothing at all
/// (an effect with an empty canvas, a zero hold) must not be able to spin. Two
/// starts in one call is already more than any real configuration needs.
pub const MAX_STARTS: u32 = 2;

/// The time between two frames, in milliseconds.
pub open spec fn frame_interval(frame_rate: u32) -> u64 {
    let rate = if frame_rate == 0 {
        1
    } else {
        frame_rate
    };
    if 1000u32 / rate == 0 {
        1
    } else {
        (1000u32 / rate) as u64
    }
}

/// The time between two frames, in milliseconds: at least one, and a second
/// for a rate of zero.
pub fn interval_ms(frame_rate: u32) -> (r: u64)
    ensures
        r == frame_interval(frame_rate),
        1 <= r <= 1000,
{
    let rate: u32 = if frame_rate == 0 {
        1
    } else {
        frame_rate
    };
    let ms: u32 = 1000 / rate;
    if ms == 0 {
        1
    } else {
        proof {
            assert(1000u32 / rate <= 1000) by (nonlinear_arith)
                requires
                    rate >= 1,
            ;
        }
        ms as u64
    }
}

/// What an animator is, mathematically.
pub struct Motion {
    pub grid: GridView,
    pub default_fg: Rgb,
    pub interval: u64,
    pub hold: u64,
    pub next_due: u64,
    pub state: State,
    pub effect: Seq<char>,
    pub cycles: u64,
    pub frames: u64,
    pub turn: Turn,
}

impl Motion {
    /// Whether an animator is sound: a proper grid, no cell of which breaks a
    /// line, and a proper interval.
    pub open spec fn wf(self) -> bool {
        &&& self.grid.wf()
        &&& breaks_no_line(self.grid)
        &&& 1 <= self.interval <= 1000
    }

    /// Whether the frame after this one can still be timed.
    pub open spec fn timed(self) -> bool {
        self.turn.now_ms + self.interval <= u64::MAX
    }

    /// Whether there is nothing to do at a time yet: the hold has not run out,
    /// or the next frame is not due.
    pub open spec fn sleeps(self, now_ms: u64) -> bool {
        match self.state {
            State::Holding { until_ms } => now_ms < until_ms,
            State::Animating => now_ms < self.next_due,
        }
    }

    /// Whether the clock allows an advance up to a time: there is nothing to do
    /// yet, or the frame after this one can still be timed.
    pub open spec fn reaches(self, now_ms: u64) -> bool {
        self.sleeps(now_ms) || now_ms + self.interval <= u64::MAX
    }

    /// Whether an advance waits for a frame.
    pub open spec fn wants_frame(self) -> bool {
        &&& self.timed()
        &&& self.state == State::Animating
        &&& self.next_due <= self.turn.now_ms
        &&& self.turn.pulled < MAX_CATCHUP_FRAMES
        &&& self.turn.starts <= MAX_STARTS
    }

    /// Whether an advance waits for a new cycle.
    pub open spec fn wants_start(self) -> bool {
        &&& self.timed()
        &&& self.state is Holding
        &&& self.state->until_ms <= self.turn.now_ms
        &&& self.turn.starts < MAX_STARTS
    }
}

/// What to do, going by the state alone: wait out a hold, start the next
/// cycle, wait for the next frame to be due, or pull it.
pub open spec fn decided(m: Motion) -> Step {
    match m.state {
        State::Holding { until_ms } => if m.turn.now_ms < until_ms {
            Step::Done(Advance::Idle { until_ms })
        } else if m.turn.starts >= MAX_STARTS {
            Step::Done(Advance::Idle { until_ms: (m.turn.now_ms + m.interval) as u64 })
        } else {
            Step::Start
        },
        State::Animating => if m.turn.now_ms < m.next_due {
            Step::Done(Advance::Idle { until_ms: m.next_due })
        } else {
            Step::Pull
        },
    }
}

/// An animator at the start of an advance.
pub open spec fn turned(m: Motion, now_ms: u64) -> Motion {
    Motion { turn: Turn { now_ms, starts: 0, changed: false, pulled: 0 }, ..m }
}

/// When the frame after the one being pulled is due: an interval later. A burst
/// that is still behind after as many frames as it may take drops the rest of
/// its backlog, and the next frame is due an interval from now.
pub open spec fn due_after(m: Motion) -> int {
    let due = m.next_due + m.interval;
    if m.turn.pulled + 1 >= MAX_CATCHUP_FRAMES && due <= m.turn.now_ms {
        m.turn.now_ms + m.interval
    } else {
        due
    }
}

/// An animator after the engine's reply to a pull: a frame to draw, or the end
/// of the effect, from which on its last frame is held.
pub open spec fn received(m: Motion, frame: Option<Seq<char>>) -> Motion {
    match frame {
        Some(frame) => Motion {
            grid: parsed(frame, m.grid, m.default_fg).grid,
            frames: (m.frames + 1) as u64,
            next_due: due_after(m) as u64,
            turn: Turn {
                changed: m.turn.changed || changes(frame, m.grid, m.default_fg),
                pulled: (m.turn.pulled + 1) as u32,
                ..m.turn
            },
            ..m
        },
        None => {
            let until = m.turn.now_ms + m.hold;
            Motion {
                state: State::Holding {
                    until_ms: if until <= u64::MAX {
                        until as u64
                    } else {
                        u64::MAX
                    },
                },
                ..m
            }
        },
    }
}

/// What to do after the engine's reply to a pull: pull again while the burst
/// is behind; present what changed; and otherwise go by the state.
pub open spec fn reply(m: Motion, frame: Option<Seq<char>>) -> Step {
    let after = received(m, frame);
    if frame is Some && after.next_due <= after.turn.now_ms {
        Step::Pull
    } else if after.turn.changed {
        Step::Done(Advance::Frame)
    } else if frame is Some {
        Step::Done(Advance::Idle { until_ms: after.next_due })
    } else {
        decided(after)
    }
}

/// An animator after a new cycle was built.
pub open spec fn begun(m: Motion, effect: Seq<char>) -> Motion {
    Motion {
        effect,
        cycles: (m.cycles + 1) as u64,
        next_due: m.turn.now_ms,
        state: State::Animating,
        turn: Turn {
            starts: (m.turn.starts + 1) as u32,
            changed: false,
            pulled: 0,
            ..m.turn
        },
        ..m
    }
}

/// Runs effect after effect over the same grid.
pub struct Animator {
    parser: Parser,
    grid: Grid,
    interval_ms: u64,
    hold_ms: u64,
    next_due_ms: u64,
    state: State,
    effect_name: String,
    cycles: u64,
    frames: u64,
    turn: Turn,
}

impl View for Animator {
    type V = Motion;

    closed spec fn view(&self) -> Motion {
        Motion {
            grid: self.grid@,
            default_fg: self.parser.default_fg,
            interval: self.interval_ms,
            hold: self.hold_ms,
            next_due: self.next_due_ms,
            state: self.state,
            effect: self.effect_name@,
            cycles: self.cycles,
            frames: self.frames,
            turn: self.turn,
        }
    }
}

impl Animator {
    /// Whether an animator is sound.
    pub open spec fn wf(&self) -> bool {
        self@.wf()
    }

    /// An animator over a blank grid, with its first cycle built.
    pub fn new(settings: &Animation, effect_name: String) -> (r: Animator)
        requires
            settings.cols * settings.rows <= usize::MAX,
        ensures
            r.wf(),
            r@ == (Motion {
                grid: blank_grid(settings.cols as int, settings.rows as int),
                default_fg: settings.default_fg,
                interval: frame_interval(settings.frame_rate),
                hold: settings.hold,
                next_due: 0,
                state: State::Animating,
                effect: effect_name@,
                cycles: 1,
                frames: 0,
                turn: Turn { now_ms: 0, starts: 0, changed: false, pulled: 0 },
            }),
    {
        Animator {
            parser: Parser::new(settings.default_fg),
            grid: Grid::new(settings.cols, settings.rows),
            interval_ms: interval_ms(settings.frame_rate),
            hold_ms: settings.hold,
            next_due_ms: 0,
            state: State::Animating,
            effect_name,
            cycles: 1,
            frames: 0,
            turn: Turn { now_ms: 0, starts: 0, changed: false, pulled: 0 },
        }
    }

    pub fn grid(&self) -> (r: &Grid)
        ensures
            r@ == self@.grid,
    {
        &self.grid
    }

    pub fn effect_name(&self) -> (r: &str)
        ensures
            r@ == self@.effect,
    {
        self.effect_name.as_str()
    }

    pub fn cycles(&self) -> (r: u64)
        ensures
            r == self@.cycles,
    {
        self.cycles
    }

    pub fn frames(&self) -> (r: u64)
        ensures
            r == self@.frames,
    {
        self.frames
    }

    /// Go by the state alone.
    fn decide(&self) -> (r: Step)
        requires
            self@.timed() || self@.turn.starts < MAX_STARTS,
        ensures
            r == decided(self@),
    {
        match self.state {
            State::Holding { until_ms } => {
                if self.turn.now_ms < until_ms {
                    Step::Done(Advance::Idle { until_ms })
                } else if self.turn.starts >= MAX_STARTS {
                    Step::Done(Advance::Idle { until_ms: self.turn.now_ms + self.interval_ms })
                } else {
                    Step::Start
                }
            },
            State::Animating => {
                if self.turn.now_ms < self.next_due_ms {
                    Step::Done(Advance::Idle { until_ms: self.next_due_ms })
                } else {
                    Step::Pull
                }
            },
        }
    }

    /// Step the simulation up to `now_ms`. The answer is what to ask the
    /// engine for or, once nothing is left to ask, whether there is something
    /// to present.
    pub fn advance(&mut self, now_ms: u64) -> (step: Step)
        requires
            old(self).wf(),
            old(self)@.reaches(now_ms),
        ensures
            final(self).wf(),
            final(self)@ == turned(old(self)@, now_ms),
            step == decided(final(self)@),
            step == Step::Pull ==> final(self)@.wants_frame(),
            step == Step::Start ==> final(self)@.wants_start(),
    {
        self.turn = Turn { now_ms, starts: 0, changed: false, pulled: 0 };
        self.decide()
    }

    /// Take the engine's reply to a pull: the next frame, or nothing once the
    /// effect has run out.
    pub fn receive(&mut self, frame: Option<&str>) -> (step: Step)
        requires
            old(self).wf(),
            old(self)@.wants_frame(),
            frame is Some ==> old(self)@.frames < u64::MAX,
        ensures
            final(self).wf(),
            final(self)@ == received(
                old(self)@,
                match frame {
                    Some(frame) => Some(frame@),
                    None => None,
                },
            ),
            step == reply(
                old(self)@,
                match frame {
                    Some(frame) => Some(frame@),
                    None => None,
                },
            ),
            step == Step::Pull ==> final(self)@.wants_frame(),
            step == Step::Start ==> final(self)@.wants_start(),
    {
        proof {
            if let Some(frame) = frame {
                a_frame_keeps_the_shape(frame@, self@.grid, self@.default_fg);
                a_frame_puts_no_line_break_in_a_cell(frame@, self@.grid, self@.default_fg);
            }
        }
        match frame {
            Some(frame) => {
                self.frames += 1;
                // Only the newest frame of a catch-up burst is ever presented,
                // but each one still has to be parsed: effects build the next
                // frame from the state the last one left behind.
                let moved = self.parser.parse_into(frame, &mut self.grid);
                self.next_due_ms += self.interval_ms;
                self.turn.pulled += 1;
                self.turn.changed = self.turn.changed || moved;
                if self.turn.pulled >= MAX_CATCHUP_FRAMES && self.next_due_ms <= self.turn.now_ms {
                    // Too far behind to catch up: drop the rest.
                    self.next_due_ms = self.turn.now_ms + self.interval_ms;
                }
                if self.next_due_ms <= self.turn.now_ms {
                    Step::Pull
                } else if self.turn.changed {
                    Step::Done(Advance::Frame)
                } else {
                    // The engine ran but nothing on screen moved. Wait for the
                    // next frame rather than presenting a duplicate.
                    Step::Done(Advance::Idle { until_ms: self.next_due_ms })
                }
            },
            None => {
                self.state = State::Holding {
                    until_ms: self.turn.now_ms.saturating_add(self.hold_ms),
                };
                if self.turn.changed {
                    Step::Done(Advance::Frame)
                } else {
                    self.decide()
                }
            },
        }
    }

    /// Take note of a new cycle.
    pub fn begin(&mut self, effect_name: String) -> (step: Step)
        requires
            old(self).wf(),
            old(self)@.wants_start(),
            old(self)@.cycles < u64::MAX,
        ensures
            final(self).wf(),
            final(self)@ == begun(old(self)@, effect_name@),
            step == Step::Pull,
            final(self)@.wants_frame(),
    {
        self.effect_name = effect_name;
        self.cycles += 1;
        self.next_due_ms = self.turn.now_ms;
        self.state = State::Animating;
        self.turn.starts += 1;
        self.turn.changed = false;
        self.turn.pulled = 0;
        Step::Pull
    }
}

/// A hold asks for no frames at all: until it ends, every advance is told to
/// go back to sleep, and nothing but the clock reading moves.
pub proof fn a_hold_asks_for_no_frames_at_all(m: Motion, now_ms: u64, until_ms: u64)
    requires
        m.state == (State::Holding { until_ms }),
        now_ms < until_ms,
    ensures
        decided(turned(m, now_ms)) == Step::Done(Advance::Idle { until_ms }),
        turned(m, now_ms) == (Motion { turn: turned(m, now_ms).turn, ..m }),
{
}

/// Whether an animator is asleep until a time, as seen at an earlier one.
spec fn asleep(m: Motion, now_ms: u64, until_ms: u64) -> bool {
    &&& now_ms < until_ms
    &&& match m.state {
        State::Holding { until_ms: end } => end == until_ms,
        State::Animating => m.next_due == until_ms,
    }
}

/// An advance that ends with nothing to do leaves the animator asleep.
proof fn lemma_falls_asleep(m: Motion, now_ms: u64, replies: Seq<Reply>)
    requires
        m.wf(),
        m.hold >= 1,
        m.reaches(now_ms),
    ensures
        ({
            let first = turned(m, now_ms);
            let p = answered(Progress { motion: first, step: decided(first) }, replies);
            &&& p.motion.interval == m.interval
            &&& p.motion.hold == m.hold
            &&& p.motion.turn.now_ms == now_ms
            &&& consistent(p)
            &&& p.step matches Step::Done(Advance::Idle { until_ms }) ==> asleep(
                p.motion,
                now_ms,
                until_ms,
            )
        }),
    decreases replies.len(),
{
    if replies.len() > 0 {
        lemma_falls_asleep(m, now_ms, replies.drop_last());
    }
}

/// A sleeper is told the same again: once an advance has answered that there is
/// nothing to do before `until_ms`, every later one up to then answers the same
/// and moves nothing but the clock reading. This is of a finished frame that is
/// held at all; without a hold, an advance that has started as many cycles as
/// it may is told to come back an interval later.
pub proof fn a_sleeper_is_told_the_same_again(
    m: Motion,
    first_ms: u64,
    replies: Seq<Reply>,
    until_ms: u64,
    now_ms: u64,
)
    requires
        m.wf(),
        m.hold >= 1,
        m.reaches(first_ms),
        ({
            let first = turned(m, first_ms);
            answered(Progress { motion: first, step: decided(first) }, replies).step
                == Step::Done(Advance::Idle { until_ms })
        }),
        first_ms <= now_ms < until_ms,
    ensures
        ({
            let first = turned(m, first_ms);
            let after = answered(
                Progress { motion: first, step: decided(first) },
                replies,
            ).motion;
            &&& after.reaches(now_ms)
            &&& decided(turned(after, now_ms)) == Step::Done(Advance::Idle { until_ms })
            &&& turned(after, now_ms) == (Motion { turn: turned(after, now_ms).turn, ..after })
        }),
{
    lemma_falls_asleep(m, first_ms, replies);
}

/// A new cycle starts when the hold expires, and is counted.
pub proof fn a_new_cycle_starts_when_the_hold_expires(
    m: Motion,
    now_ms: u64,
    until_ms: u64,
    effect: Seq<char>,
)
    requires
        m.state == (State::Holding { until_ms }),
        now_ms >= until_ms,
        m.cycles < u64::MAX,
    ensures
        decided(turned(m, now_ms)) == Step::Start,
        begun(turned(m, now_ms), effect).cycles == m.cycles + 1,
        begun(turned(m, now_ms), effect).effect == effect,
        decided(begun(turned(m, now_ms), effect)) == Step::Pull,
{
}

/// The hold runs for as long as it is configured to, from the moment the
/// effect runs out.
pub proof fn a_finished_frame_is_held_for_the_hold(m: Motion, now_ms: u64)
    requires
        m.turn.now_ms + m.hold <= u64::MAX,
        m.turn.now_ms <= now_ms < m.turn.now_ms + m.hold,
    ensures
        received(m, None).grid == m.grid,
        decided(turned(received(m, None), now_ms)) == Step::Done(
            Advance::Idle { until_ms: (m.turn.now_ms + m.hold) as u64 },
        ),
{
}

/// What an engine may reply: to a pull with a frame or with the end of the
/// effect, to a start with the name of the effect it built.
pub enum Reply {
    Frame(Option<Seq<char>>),
    Built(Seq<char>),
}

/// An advance in progress: the animator, and what it waits for.
pub struct Progress {
    pub motion: Motion,
    pub step: Step,
}

/// An advance after one reply. A reply to a question that was not asked is
/// passed over.
pub open spec fn progressed(p: Progress, r: Reply) -> Progress {
    match (p.step, r) {
        (Step::Pull, Reply::Frame(frame)) => Progress {
            motion: received(p.motion, frame),
            step: reply(p.motion, frame),
        },
        (Step::Start, Reply::Built(effect)) => Progress {
            motion: begun(p.motion, effect),
            step: Step::Pull,
        },
        _ => p,
    }
}

/// Whether a reply answers what an advance waits for.
pub open spec fn answers(p: Progress, r: Reply) -> bool {
    match p.step {
        Step::Pull => r is Frame,
        Step::Start => r is Built,
        Step::Done(_) => false,
    }
}

/// How many more replies an advance can take at the most.
pub open spec fn patience(p: Progress) -> int {
    match p.step {
        Step::Pull => (MAX_CATCHUP_FRAMES + 1) * (MAX_STARTS - p.motion.turn.starts)
            + MAX_CATCHUP_FRAMES - p.motion.turn.pulled,
        Step::Start => (MAX_CATCHUP_FRAMES + 1) * (MAX_STARTS - p.motion.turn.starts),
        Step::Done(_) => 0,
    }
}

/// Whether an advance is consistent: it waits for what its state allows.
pub open spec fn consistent(p: Progress) -> bool {
    match p.step {
        Step::Pull => p.motion.wants_frame(),
        Step::Start => p.motion.wants_start(),
        Step::Done(_) => true,
    }
}

/// An advance ends whatever the engine replies: each reply brings the end
/// closer, and at the start it is at most twenty-six replies away.
pub proof fn an_advance_cannot_spin(p: Progress, r: Reply)
    requires
        p.motion.wf(),
        consistent(p),
        answers(p, r),
    ensures
        consistent(progressed(p, r)),
        0 <= patience(progressed(p, r)) < patience(p) <= 26,
        progressed(p, r).motion.interval == p.motion.interval,
{
}

/// A backlog is dropped, not left for later: once a burst is over, whether it
/// caught up or was cut off, a second advance at the same time asks the engine
/// for nothing.
pub proof fn a_backlog_is_dropped(m: Motion, frame: Seq<char>)
    requires
        m.wf(),
        m.wants_frame(),
        reply(m, Some(frame)) != Step::Pull,
    ensures
        ({
            let after = received(m, Some(frame));
            &&& after.next_due > m.turn.now_ms
            &&& decided(turned(after, m.turn.now_ms)) == Step::Done(
                Advance::Idle { until_ms: after.next_due },
            )
        }),
{
}

/// A burst ends at the cap, however far behind it is.
pub proof fn a_burst_ends_at_the_cap(m: Motion, frame: Seq<char>)
    requires
        m.wf(),
        m.wants_frame(),
        m.turn.pulled + 1 == MAX_CATCHUP_FRAMES,
    ensures
        reply(m, Some(frame)) is Done,
{
}

/// An animation keeps its canvas: whatever the engine replies, the grid keeps
/// its shape, and no cell of it breaks a line.
pub proof fn an_animation_keeps_its_canvas(p: Progress, r: Reply)
    requires
        p.motion.wf(),
    ensures
        progressed(p, r).motion.wf(),
        progressed(p, r).motion.grid.same_shape(p.motion.grid),
{
    if let Reply::Frame(Some(frame)) = r {
        a_frame_keeps_the_shape(frame, p.motion.grid, p.motion.default_fg);
        a_frame_puts_no_line_break_in_a_cell(frame, p.motion.grid, p.motion.default_fg);
    }
}

/// An advance after several replies.
pub open spec fn answered(p: Progress, replies: Seq<Reply>) -> Progress
    decreases replies.len(),
{
    if replies.len() == 0 {
        p
    } else {
        progressed(answered(p, replies.drop_last()), replies.last())
    }
}

/// Whether an advance that began at `frames` frames has kept to the cap, and
/// will: only its first burst can be long, and a later one is up to date after
/// a single frame.
spec fn within_cap(p: Progress, frames: int) -> bool {
    let spent = p.motion.frames - frames;
    match p.step {
        Step::Pull => if p.motion.turn.starts == 0 {
            spent == p.motion.turn.pulled
        } else {
            &&& spent < MAX_CATCHUP_FRAMES
            &&& p.motion.turn.pulled == 0
            &&& p.motion.next_due == p.motion.turn.now_ms
        },
        Step::Start => spent < MAX_CATCHUP_FRAMES,
        Step::Done(_) => spent <= MAX_CATCHUP_FRAMES,
    }
}

proof fn lemma_within_cap(m: Motion, now_ms: u64, replies: Seq<Reply>)
    requires
        m.wf(),
        m.reaches(now_ms),
        m.frames + MAX_CATCHUP_FRAMES <= u64::MAX,
    ensures
        ({
            let first = turned(m, now_ms);
            let p = answered(Progress { motion: first, step: decided(first) }, replies);
            &&& p.motion.interval == m.interval
            &&& p.motion.turn.now_ms == now_ms
            &&& consistent(p)
            &&& within_cap(p, m.frames as int)
        }),
    decreases replies.len(),
{
    if replies.len() > 0 {
        lemma_within_cap(m, now_ms, replies.drop_last());
    }
}

/// One advance burns no more engine frames than the cap, whatever the engine
/// replies and however many cycles it goes through.
pub proof fn an_advance_burns_no_more_frames_than_the_cap(
    m: Motion,
    now_ms: u64,
    replies: Seq<Reply>,
)
    requires
        m.wf(),
        m.reaches(now_ms),
        m.frames + MAX_CATCHUP_FRAMES <= u64::MAX,
    ensures
        ({
            let first = turned(m, now_ms);
            let p = answered(Progress { motion: first, step: decided(first) }, replies);
            m.frames <= p.motion.frames <= m.frames + MAX_CATCHUP_FRAMES
        }),
    decreases replies.len(),
{
    lemma_within_cap(m, now_ms, replies);
    if replies.len() > 0 {
        lemma_within_cap(m, now_ms, replies.drop_last());
        an_advance_burns_no_more_frames_than_the_cap(m, now_ms, replies.drop_last());
    }
}

/// Every advance starts out consistent.
pub proof fn an_advance_starts_consistent(m: Motion, now_ms: u64)
    requires
        m.wf(),
        m.reaches(now_ms),
    ensures
        consistent(
            Progress { motion: turned(m, now_ms), step: decided(turned(m, now_ms)) },
        ),
{
}

/// A frame that is not reported did not move the grid, so an idle answer never
/// hides a change.
pub proof fn an_idle_answer_hides_nothing(m: Motion, frame: Option<Seq<char>>)
    requires
        !received(m, frame).turn.changed,
    ensures
        received(m, frame).grid == m.grid,
        !(reply(m, frame) == Step::Done(Advance::Frame)),
{
}

/// The excluded names are left out, and nothing else is.
proof fn lemma_without(pool: Seq<Seq<char>>, exclude: Seq<Seq<char>>, name: Seq<char>)
    ensures
        without(pool, exclude).contains(name) == (pool.contains(name) && !exclude.contains(name)),
    decreases pool.len(),
{
    if pool.len() > 0 {
        let head = pool.drop_last();
        let rest = without(head, exclude);
        lemma_without(head, exclude, name);
        assert(pool.contains(name) == (head.contains(name) || pool.last() == name)) by {
            if pool.contains(name) {
                let i = choose|i: int| 0 <= i < pool.len() && pool[i] == name;
                if i < head.len() {
                    assert(head[i] == name);
                }
            }
            if head.contains(name) {
                let i = choose|i: int| 0 <= i < head.len() && head[i] == name;
                assert(pool[i] == name);
            }
            assert(pool[pool.len() - 1] == pool.last());
        }
        if !exclude.contains(pool.last()) {
            let out = rest.push(pool.last());
            assert(out.contains(name) == (rest.contains(name) || pool.last() == name)) by {
                if out.contains(name) {
                    let i = choose|i: int| 0 <= i < out.len() && out[i] == name;
                    if i < rest.len() {
                        assert(rest[i] == name);
                    }
                }
                if rest.contains(name) {
                    let i = choose|i: int| 0 <= i < rest.len() && rest[i] == name;
                    assert(out[i] == name);
                }
                assert(out[rest.len() as int] == pool.last());
            }
        }
    }
}

/// Names of which none is unknown are all known.
pub proof fn lemma_all_known(names: Seq<Seq<char>>, all: Seq<Seq<char>>, i: int)
    requires
        first_unknown(names, all) is None,
        0 <= i < names.len(),
    ensures
        all.contains(names[i]),
    decreases names.len(),
{
    if i < names.len() - 1 {
        lemma_all_known(names.drop_last(), all, i);
        assert(names.drop_last()[i] == names[i]);
    }
}

/// A pool holds known effects only; a pinned effect is all there is in it.
pub proof fn a_pool_holds_known_effects_only(
    choice: EffectChoice,
    all: Seq<Seq<char>>,
    pool: Seq<Seq<char>>,
    i: int,
)
    requires
        effect_pool(choice, all) == Ok::<Seq<Seq<char>>, EffectFault>(pool),
        0 <= i < pool.len(),
    ensures
        all.contains(pool[i]),
        choice.pinned is Some ==> pool == seq![choice.pinned->0@],
{
    if choice.pinned is None {
        let included = strings(choice.included@);
        let exclude = strings(choice.exclude@);
        let from = if included.len() == 0 {
            all
        } else {
            included
        };
        lemma_without(from, exclude, pool[i]);
        assert(pool.contains(pool[i]));
        let k = choose|k: int| 0 <= k < from.len() && from[k] == pool[i];
        if included.len() > 0 {
            lemma_all_known(included, all, k);
        } else {
            assert(all[k] == pool[i]);
        }
    }
}

/// Exclusion leaves everything else: without a pinned effect, a pool draws from
/// what is included (from everything, if nothing is) except what is excluded.
pub proof fn exclusion_leaves_everything_else(
    choice: EffectChoice,
    all: Seq<Seq<char>>,
    pool: Seq<Seq<char>>,
    name: Seq<char>,
)
    requires
        choice.pinned is None,
        effect_pool(choice, all) == Ok::<Seq<Seq<char>>, EffectFault>(pool),
    ensures
        pool.contains(name) == ((if choice.included@.len() == 0 {
            all.contains(name)
        } else {
            strings(choice.included@).contains(name)
        }) && !strings(choice.exclude@).contains(name)),
{
    let included = strings(choice.included@);
    let from = if included.len() == 0 {
        all
    } else {
        included
    };
    lemma_without(from, strings(choice.exclude@), name);
}

/// A pool is never empty: excluding everything is an error, not a blank
/// screen.
pub proof fn a_pool_is_never_empty(
    choice: EffectChoice,
    all: Seq<Seq<char>>,
    pool: Seq<Seq<char>>,
)
    requires
        effect_pool(choice, all) == Ok::<Seq<Seq<char>>, EffectFault>(pool),
    ensures
        pool.len() > 0,
{
}

/// Excluding everything is an error, not a blank screen.
pub proof fn excluding_everything_is_an_error(choice: EffectChoice, all: Seq<Seq<char>>)
    requires
        choice.pinned is None,
        forall|i: int|
            0 <= i < all.len() ==> strings(choice.exclude@).contains(#[trigger] all[i]),
    ensures
        effect_pool(choice, all) is Err,
{
    if effect_pool(choice, all) is Ok {
        let pool = effect_pool(choice, all)->Ok_0;
        a_pool_holds_known_effects_only(choice, all, pool, 0);
        exclusion_leaves_everything_else(choice, all, pool, pool[0]);
        assert(pool.contains(pool[0]));
        let k = choose|k: int| 0 <= k < all.len() && all[k] == pool[0];
        assert(strings(choice.exclude@).contains(all[k]));
    }
}

/// A name the engine does not know is rejected, wherever it was given.
pub proof fn an_unknown_name_is_rejected(
    choice: EffectChoice,
    all: Seq<Seq<char>>,
    name: Seq<char>,
)
    requires
        !all.contains(name),
        match choice.pinned {
            Some(pinned) => pinned@ == name,
            None => strings(choice.included@).contains(name) || strings(choice.exclude@).contains(
                name,
            ),
        },
    ensures
        effect_pool(choice, all) is Err,
        effect_pool(choice, all)->Err_0 is Unknown,
{
    if choice.pinned is None {
        let included = strings(choice.included@);
        let exclude = strings(choice.exclude@);
        if included.contains(name) && first_unknown(included, all) is None {
            let k = choose|k: int| 0 <= k < included.len() && included[k] == name;
            lemma_all_known(included, all, k);
        }
        if exclude.contains(name) && first_unknown(exclude, all) is None {
            let k = choose|k: int| 0 <= k < exclude.len() && exclude[k] == name;
            lemma_all_known(exclude, all, k);
        }
    }
}

/// Exclusion takes one name at a time: what is left of two lists in a row is
/// what is left of the one and then what is left of the other, and a name on
/// its own is left exactly if it is not excluded.
pub proof fn exclusion_takes_names_one_by_one(
    a: Seq<Seq<char>>,
    b: Seq<Seq<char>>,
    exclude: Seq<Seq<char>>,
    name: Seq<char>,
)
    ensures
        without(a + b, exclude) == without(a, exclude) + without(b, exclude),
        exclude.contains(name) ==> without(seq![name], exclude).len() == 0,
        !exclude.contains(name) ==> without(seq![name], exclude) == seq![name],
    decreases b.len(),
{
    reveal_with_fuel(without, 2);
    assert(seq![name].drop_last() =~= Seq::<Seq<char>>::empty());
    assert(without(seq![name].drop_last(), exclude) =~= Seq::empty());
    assert(Seq::<Seq<char>>::empty().push(name) =~= seq![name]);
    if b.len() == 0 {
        assert(a + b =~= a);
        assert(without(b, exclude) =~= Seq::empty());
        assert(without(a, exclude) + without(b, exclude) =~= without(a, exclude));
    } else {
        let all = a + b;
        assert(all.drop_last() =~= a + b.drop_last());
        assert(all.last() == b.last());
        exclusion_takes_names_one_by_one(a, b.drop_last(), exclude, name);
        assert(without(all, exclude) =~= without(a, exclude) + without(b, exclude));
    }
}

/// Excluding nothing leaves everything.
pub proof fn excluding_nothing_leaves_everything(pool: Seq<Seq<char>>)
    ensures
        without(pool, Seq::empty()) == pool,
    decreases pool.len(),
{
    if pool.len() > 0 {
        excluding_nothing_leaves_everything(pool.drop_last());
    }
    assert(without(pool, Seq::empty()) =~= pool);
}

/// A list to draw from is what is drawn from, in its own order; without one,
/// everything is.
pub proof fn a_list_to_draw_from_is_what_is_drawn_from(
    included: Seq<Seq<char>>,
    all: Seq<Seq<char>>,
)
    requires
        forall|i: int| 0 <= i < included.len() ==> all.contains(#[trigger] included[i]),
        all.len() > 0,
    ensures
        included.len() > 0 ==> pool_of(None, included, Seq::empty(), all) == Ok::<
            Seq<Seq<char>>,
            EffectFault,
        >(included),
        pool_of(None, Seq::empty(), Seq::empty(), all) == Ok::<Seq<Seq<char>>, EffectFault>(all),
{
    lemma_none_unknown(included, all);
    excluding_nothing_leaves_everything(included);
    excluding_nothing_leaves_everything(all);
}

/// Of names that are all known none is unknown.
proof fn lemma_none_unknown(names: Seq<Seq<char>>, all: Seq<Seq<char>>)
    requires
        forall|i: int| 0 <= i < names.len() ==> all.contains(#[trigger] names[i]),
    ensures
        first_unknown(names, all) is None,
    decreases names.len(),
{
    if names.len() > 0 {
        let head = names.drop_last();
        assert forall|i: int| 0 <= i < head.len() implies all.contains(#[trigger] head[i]) by {
            assert(head[i] == names[i]);
        }
        lemma_none_unknown(head, all);
        assert(all.contains(names[names.len() - 1]));
    }
}

/// The first name that nothing is known of is the one that is complained
/// about, with the option that gave it and every name there is: first of those
/// to draw from, and then of those to leave out.
pub proof fn the_first_unknown_name_is_the_one_reported(
    names: Seq<Seq<char>>,
    k: int,
    others: Seq<Seq<char>>,
    all: Seq<Seq<char>>,
)
    requires
        0 <= k < names.len(),
        !all.contains(names[k]),
        forall|i: int| 0 <= i < k ==> all.contains(#[trigger] names[i]),
    ensures
        pool_of(None, names, others, all) == Err::<Seq<Seq<char>>, EffectFault>(
            EffectFault::Unknown {
                name: names[k],
                option: EffectOption::IncludeEffects,
                available: all,
            },
        ),
        (forall|i: int| 0 <= i < others.len() ==> all.contains(#[trigger] others[i])) ==> pool_of(
            None,
            others,
            names,
            all,
        ) == Err::<Seq<Seq<char>>, EffectFault>(
            EffectFault::Unknown {
                name: names[k],
                option: EffectOption::ExcludeEffects,
                available: all,
            },
        ),
{
    lemma_first_at(names, k, all);
    if forall|i: int| 0 <= i < others.len() ==> all.contains(#[trigger] others[i]) {
        lemma_none_unknown(others, all);
    }
}

proof fn lemma_first_at(names: Seq<Seq<char>>, k: int, all: Seq<Seq<char>>)
    requires
        0 <= k < names.len(),
        !all.contains(names[k]),
        forall|i: int| 0 <= i < k ==> all.contains(#[trigger] names[i]),
    ensures
        first_unknown(names, all) == Some(names[k]),
    decreases names.len(),
{
    let head = names.drop_last();
    if k == names.len() - 1 {
        assert forall|i: int| 0 <= i < head.len() implies all.contains(#[trigger] head[i]) by {
            assert(head[i] == names[i]);
        }
        lemma_none_unknown(head, all);
    } else {
        assert forall|i: int| 0 <= i < k implies all.contains(#[trigger] head[i]) by {
            assert(head[i] == names[i]);
        }
        lemma_first_at(head, k, all);
    }
}

/// A pinned effect is the whole pool, whatever the lists hold; one that nothing
/// is known of is complained about.
pub proof fn a_pinned_effect_is_the_whole_pool(
    name: Seq<char>,
    included: Seq<Seq<char>>,
    exclude: Seq<Seq<char>>,
    all: Seq<Seq<char>>,
)
    ensures
        all.contains(name) ==> pool_of(Some(name), included, exclude, all) == Ok::<
            Seq<Seq<char>>,
            EffectFault,
        >(seq![name]),
        !all.contains(name) ==> pool_of(Some(name), included, exclude, all) == Err::<
            Seq<Seq<char>>,
            EffectFault,
        >(EffectFault::Unknown { name, option: EffectOption::Effect, available: all }),
{
}

/// With names that are all known, the pool holds exactly what is drawn from and
/// not left out, or nothing is left.
pub proof fn a_pool_holds_what_is_drawn_from_and_not_left_out(
    included: Seq<Seq<char>>,
    exclude: Seq<Seq<char>>,
    all: Seq<Seq<char>>,
    name: Seq<char>,
)
    requires
        forall|i: int| 0 <= i < included.len() ==> all.contains(#[trigger] included[i]),
        forall|i: int| 0 <= i < exclude.len() ==> all.contains(#[trigger] exclude[i]),
    ensures
        ({
            let drawn_from = if included.len() > 0 {
                included
            } else {
                all
            };
            match pool_of(None, included, exclude, all) {
                Ok(pool) => pool.contains(name) <==> drawn_from.contains(name)
                    && !exclude.contains(name),
                Err(fault) => fault is NoneLeft && (drawn_from.contains(name)
                    ==> exclude.contains(name)),
            }
        }),
{
    lemma_none_unknown(included, all);
    lemma_none_unknown(exclude, all);
    let drawn_from = if included.len() > 0 {
        included
    } else {
        all
    };
    lemma_without(drawn_from, exclude, name);
}

/// Names are listed with a comma and a space between each two.
pub proof fn names_are_listed_with_commas(names: Seq<Seq<char>>, name: Seq<char>)
    ensures
        listed(Seq::empty()) == Seq::<char>::empty(),
        listed(seq![name]) == name,
        names.len() > 0 ==> listed(names.push(name)) == listed(names) + seq![',', ' '] + name,
{
    reveal_strlit(", ");
    assert(", "@ =~= seq![',', ' ']);
    assert(names.push(name).drop_last() =~= names);
}

/// What is said of an unknown effect: the name, the option that gave it, and
/// every name there is.
pub proof fn an_unknown_effect_is_named(name: Seq<char>, available: Seq<Seq<char>>)
    ensures
        effect_message(
            EffectFault::Unknown { name, option: EffectOption::Effect, available },
        ) == "unknown effect "@ + quoted(name) + " in "@ + "--effect"@
            + "\navailable effects: "@ + listed(available),
        effect_message(
            EffectFault::Unknown { name, option: EffectOption::IncludeEffects, available },
        ) == "unknown effect "@ + quoted(name) + " in "@ + "--include-effects"@
            + "\navailable effects: "@ + listed(available),
        effect_message(
            EffectFault::Unknown { name, option: EffectOption::ExcludeEffects, available },
        ) == "unknown effect "@ + quoted(name) + " in "@ + "--exclude-effects"@
            + "\navailable effects: "@ + listed(available),
        effect_message(EffectFault::NoneLeft) == "no effects left after filtering"@,
{
}

/// An interval is the whole milliseconds that a second gives each frame: at a
/// rate of up to a thousand, that many intervals fit into a second and no
/// longer ones do. A faster rate has a frame every millisecond, and none at all
/// counts as one a second.
pub proof fn an_interval_is_a_frames_share_of_a_second(frame_rate: u32)
    ensures
        1 <= frame_rate <= 1000 ==> frame_interval(frame_rate) * frame_rate <= 1000 < (
        frame_interval(frame_rate) + 1) * frame_rate,
        frame_rate > 1000 ==> frame_interval(frame_rate) == 1,
        frame_rate == 0 ==> frame_interval(frame_rate) == 1000,
{
    if 1 <= frame_rate <= 1000 {
        let ms = 1000u32 / frame_rate;
        assert(1 <= ms && ms * frame_rate <= 1000 && 1000 < (ms + 1) * frame_rate)
            by (nonlinear_arith)
            requires
                1 <= frame_rate <= 1000,
                ms == 1000u32 / frame_rate,
        ;
    } else if frame_rate > 1000 {
        assert(1000u32 / frame_rate == 0) by (nonlinear_arith)
            requires
                frame_rate > 1000,
        ;
    }
}

/// An advance begins afresh, at its own time, and touches nothing by
/// beginning.
pub proof fn an_advance_begins_afresh(m: Motion, now_ms: u64)
    ensures
        ({
            let after = turned(m, now_ms);
            &&& after.turn == (Turn { now_ms, starts: 0, changed: false, pulled: 0 })
            &&& after.grid == m.grid
            &&& after.default_fg == m.default_fg
            &&& after.interval == m.interval
            &&& after.hold == m.hold
            &&& after.next_due == m.next_due
            &&& after.state == m.state
            &&& after.effect == m.effect
            &&& after.cycles == m.cycles
            &&& after.frames == m.frames
        }),
{
}

/// A running effect is asked for its next frame when that is due, and not
/// before; a held frame gives way to the next cycle when its time is up, and
/// not before, and an advance that has started two of them leaves the third to
/// the next.
pub proof fn nothing_is_asked_for_before_its_time(m: Motion)
    requires
        m.turn.now_ms + m.interval <= u64::MAX,
    ensures
        m.state is Animating && m.turn.now_ms >= m.next_due ==> decided(m) is Pull,
        m.state is Animating && m.turn.now_ms < m.next_due ==> decided(m) == Step::Done(
            Advance::Idle { until_ms: m.next_due },
        ),
        m.state is Holding && m.turn.now_ms < m.state->until_ms ==> decided(m) == Step::Done(
            Advance::Idle { until_ms: m.state->until_ms },
        ),
        m.state is Holding && m.turn.now_ms >= m.state->until_ms && m.turn.starts < 2 ==> decided(m)
            is Start,
        m.state is Holding && m.turn.now_ms >= m.state->until_ms && m.turn.starts >= 2 ==> decided(
            m,
        ) == Step::Done(Advance::Idle { until_ms: (m.turn.now_ms + m.interval) as u64 }),
{
}

/// A frame is drawn on the grid and counted, and the next is due an interval
/// after this one was; but after the eighth frame in a row an animation that is
/// still behind gives up on what it missed, and the next is due an interval
/// from now.
pub proof fn a_frame_is_drawn_and_the_next_one_timed(m: Motion, frame: Seq<char>)
    requires
        m.wf(),
        m.wants_frame(),
        m.frames < u64::MAX,
    ensures
        ({
            let after = received(m, Some(frame));
            &&& after.grid == parsed(frame, m.grid, m.default_fg).grid
            &&& after.frames == m.frames + 1
            &&& after.turn.pulled == m.turn.pulled + 1
            &&& m.turn.pulled < 7 || m.next_due + m.interval > m.turn.now_ms ==> after.next_due
                == m.next_due + m.interval
            &&& m.turn.pulled >= 7 && m.next_due + m.interval <= m.turn.now_ms ==> after.next_due
                == m.turn.now_ms + m.interval
            &&& after.turn.changed <==> m.turn.changed || after.grid != m.grid
            &&& after.turn.now_ms == m.turn.now_ms
            &&& after.turn.starts == m.turn.starts
            &&& after.state == m.state
            &&& after.effect == m.effect
            &&& after.cycles == m.cycles
            &&& after.interval == m.interval
            &&& after.hold == m.hold
            &&& after.default_fg == m.default_fg
        }),
{
}

/// After a frame another is pulled exactly while the animation is behind and
/// has pulled fewer than eight; after the last, what changed is presented, and
/// nothing else is.
pub proof fn a_burst_goes_on_while_it_is_behind(m: Motion, frame: Seq<char>)
    requires
        m.wf(),
        m.wants_frame(),
        m.frames < u64::MAX,
    ensures
        ({
            let after = received(m, Some(frame));
            let behind = m.turn.pulled < 7 && m.next_due + m.interval <= m.turn.now_ms;
            &&& behind ==> reply(m, Some(frame)) is Pull
            &&& !behind && after.turn.changed ==> reply(m, Some(frame)) == Step::Done(
                Advance::Frame,
            )
            &&& !behind && !after.turn.changed ==> reply(m, Some(frame)) == Step::Done(
                Advance::Idle { until_ms: after.next_due },
            )
        }),
{
}

/// When an effect has run out its last frame is held, from now on and for as
/// long as the hold is; what changed on the way is presented first. Without a
/// hold the next cycle starts at once, but no more than two in one advance.
pub proof fn an_effect_that_has_run_out_is_held(m: Motion)
    requires
        m.wf(),
        m.wants_frame(),
    ensures
        ({
            let after = received(m, None);
            &&& after.state is Holding
            &&& m.turn.now_ms + m.hold <= u64::MAX ==> after.state->until_ms == m.turn.now_ms
                + m.hold
            &&& m.turn.now_ms + m.hold > u64::MAX ==> after.state->until_ms == u64::MAX
            &&& after == (Motion { state: after.state, ..m })
            &&& m.turn.changed ==> reply(m, None) == Step::Done(Advance::Frame)
            &&& !m.turn.changed && m.hold > 0 ==> reply(m, None) == Step::Done(
                Advance::Idle { until_ms: after.state->until_ms },
            )
            &&& !m.turn.changed && m.hold == 0 && m.turn.starts < 2 ==> reply(m, None) is Start
            &&& !m.turn.changed && m.hold == 0 && m.turn.starts >= 2 ==> reply(m, None)
                == Step::Done(Advance::Idle { until_ms: (m.turn.now_ms + m.interval) as u64 })
        }),
{
}

/// A new cycle runs its own effect, on the grid as it was left, with its first
/// frame due at once and a burst of its own.
pub proof fn a_new_cycle_is_due_at_once(m: Motion, effect: Seq<char>)
    requires
        m.wf(),
        m.wants_start(),
        m.cycles < u64::MAX,
    ensures
        ({
            let after = begun(m, effect);
            &&& after.effect == effect
            &&& after.cycles == m.cycles + 1
            &&& after.frames == m.frames
            &&& after.state is Animating
            &&& after.next_due == m.turn.now_ms
            &&& after.turn.now_ms == m.turn.now_ms
            &&& after.turn.starts == m.turn.starts + 1
            &&& after.turn.pulled == 0
            &&& !after.turn.changed
            &&& after.grid == m.grid
            &&& after.interval == m.interval
            &&& after.hold == m.hold
            &&& after.default_fg == m.default_fg
        }),
{
}

/// What is said of an error is what it holds.
pub proof fn an_effect_error_says_what_it_holds(
    name: String,
    option: EffectOption,
    available: Vec<String>,
)
    ensures
        (EffectError::Unknown { name, option, available })@ == (EffectFault::Unknown {
            name: name@,
            option,
            available: strings(available@),
        }),
        EffectError::NoneLeft@ == EffectFault::NoneLeft,
{
}

/// A choice of effects comes to the pool of its own effect and lists.
pub proof fn a_choice_comes_to_the_pool_of_its_lists(choice: EffectChoice, all: Seq<Seq<char>>)
    ensures
        choice.pinned is None ==> effect_pool(choice, all) == pool_of(
            None,
            strings(choice.included@),
            strings(choice.exclude@),
            all,
        ),
        choice.pinned is Some ==> effect_pool(choice, all) == pool_of(
            Some(choice.pinned->0@),
            strings(choice.included@),
            strings(choice.exclude@),
            all,
        ),
{
}

} // verus!
