//! The scheduler: as the clock advances it brings the lane groups and notes of
//! the chart to life, and it keeps the window of tempo positions that is drawn.

use crate::chart;
use crate::chart::{Chart, LaserCommand, LaserId, PlaySettings, SessionContext};
use crate::laser;
use crate::laser::Laser;
use crate::tempo::{position_at, position_for_time, BpmCommand};
use crate::timed::{
    equal_range_by_time, in_window, lemma_window_range_is_exact, sorted_by_time, window_range,
    Timed,
};
use crate::units::{div_floor, MILLION};
use std::collections::BTreeMap;
use std::ops::Range;
use vstd::prelude::*;

verus! {

/// The cutoff that a chart at its default tempo is drawn with, in millionths.
pub const BASE_CUTOFF: i128 = 700_000;

/// The largest cutoff, in millionths.
pub const MAX_CUTOFF: i128 = 950_000;

/// What is drawn: the window of tempo positions, from `start` to `end`, and
/// the cutoff in millionths.
pub struct DrawSpan {
    pub start: int,
    pub end: int,
    pub cutoff: int,
}

/// What is drawn at chart time `now`.
///
/// The window starts at the tempo position of `now`. Let `depth` be the
/// distance from there to the position of `now + speed`, and `full` the
/// distance that the default tempo covers in `speed`. The cutoff is 7/10 of
/// `depth / full`, but at most 19/20. While that ceiling does not cut the
/// cutoff, the window ends at the position of `now + speed`. Where it does,
/// the depth of the window is cut by the same factor, which leaves 19/14 of
/// `full`. Quotients are rounded down.
pub open spec fn draw_span(chart: Chart, settings: PlaySettings, now: int) -> DrawSpan {
    let start = position_at(chart.bpm@, now);
    let end = position_at(chart.bpm@, now + settings.speed);
    let depth = end - start;
    let full = chart.default_bpm * settings.speed;
    if 14 * depth > 19 * full {
        DrawSpan { start, end: start + (19 * full) / 14, cutoff: MAX_CUTOFF as int }
    } else {
        DrawSpan { start, end, cutoff: (BASE_CUTOFF * depth) / full }
    }
}

/// What the entity store has to carry out after a tick.
#[derive(Copy, Clone, Debug, PartialEq, Eq, Structural)]
pub enum Intent {
    /// Create the lane group `id`.
    CreateLaser { id: LaserId, laser: Laser },
    /// Destroy the lane group `id`.
    DestroyLaser { id: LaserId },
    /// Create a note, as a child of the lane group that it names.
    CreateNote { note: laser::Note },
}

/// How a chart event can contradict the live lane groups.
#[derive(Copy, Clone, Debug, PartialEq, Eq, Structural)]
pub enum ViolationKind {
    /// A lane group enters under an id that is live.
    DuplicateEnter,
    /// A lane group leaves under an id that is not live.
    LeaveWithoutEnter,
    /// A note names a lane group that is not live.
    UnknownLaser,
}

/// A chart event that contradicts the live lane groups. The session cannot go
/// on after it.
#[derive(Copy, Clone, Debug, PartialEq, Eq, Structural)]
pub struct ChartViolation {
    /// The time of the event.
    pub time: i64,
    /// The lane group that the event names.
    pub laser: LaserId,
    pub kind: ViolationKind,
}

impl SessionContext {
    /// A scheduler that has processed the chart up to `cursor` can tick at clock
    /// time `clock`: the clock has not gone back, and the chart time and the
    /// time that the look-ahead reaches are within the range of times.
    pub open spec fn admits(&self, cursor: i64, clock: i64) -> bool {
        &&& cursor <= self.settings.chart_time(clock)
        &&& self.settings.chart_time(clock) + self.settings.speed <= i64::MAX
    }

    /// Whether a scheduler in state `state` can tick at clock time `clock`.
    pub fn can_tick(&self, state: &ChartState, clock: i64) -> (r: bool)
        ensures
            r == self.admits(state.cursor(), clock),
    {
        let now: i128 = clock as i128 - self.settings.base_time as i128;
        state.last_time() as i128 <= now && now + self.settings.speed as i128 <= i64::MAX as i128
    }
}

/// Every lane group of the registry has at least one lane.
pub open spec fn all_have_lanes(lanes: Map<u32, Laser>) -> bool {
    forall|id: u32| lanes.contains_key(id) ==> (#[trigger] lanes[id]).lanes > 0
}

/// The registry and the intents after one lane-group event, or the violation
/// that the event is.
pub open spec fn lane_step(
    lanes: Map<u32, Laser>,
    intents: Seq<Intent>,
    event: Timed<(LaserId, LaserCommand)>,
) -> Result<(Map<u32, Laser>, Seq<Intent>), ChartViolation> {
    let id = event.inner.0;
    match event.inner.1 {
        LaserCommand::Enter { y, lanes: count, color } => {
            if lanes.contains_key(id.0) {
                Err(ChartViolation { time: event.time, laser: id, kind: ViolationKind::DuplicateEnter })
            } else {
                let laser = Laser { color, lanes: count, y };
                Ok((lanes.insert(id.0, laser), intents.push(Intent::CreateLaser { id, laser })))
            }
        },
        LaserCommand::Leave => {
            if lanes.contains_key(id.0) {
                Ok((lanes.remove(id.0), intents.push(Intent::DestroyLaser { id })))
            } else {
                Err(
                    ChartViolation {
                        time: event.time,
                        laser: id,
                        kind: ViolationKind::LeaveWithoutEnter,
                    },
                )
            }
        },
        LaserCommand::LineTo { .. } => Ok((lanes, intents)),
    }
}

/// The registry and the intents after the lane-group events at the positions
/// `from..to`, taken in order, or the first violation among them.
pub open spec fn lanes_after(
    lasers: Seq<Timed<(LaserId, LaserCommand)>>,
    lanes: Map<u32, Laser>,
    from: int,
    to: int,
) -> Result<(Map<u32, Laser>, Seq<Intent>), ChartViolation>
    decreases to - from,
{
    if to <= from {
        Ok((lanes, Seq::empty()))
    } else {
        match lanes_after(lasers, lanes, from, to - 1) {
            Err(v) => Err(v),
            Ok((reached, intents)) => lane_step(reached, intents, lasers[to - 1]),
        }
    }
}

/// The live note that the chart note at position `index` becomes: it stands
/// in its lane of the lane group that it names, at the depth of its time.
pub open spec fn placed(
    bpms: Seq<Timed<BpmCommand>>,
    lanes: Map<u32, Laser>,
    index: int,
    note: Timed<chart::Note>,
) -> Result<laser::Note, ChartViolation> {
    let id = note.inner.laser;
    if lanes.contains_key(id.0) {
        let laser = lanes[id.0];
        Ok(
            laser::Note {
                index: index as usize,
                time: note.time,
                laser: id,
                x: ((note.inner.lane * MILLION) / (laser.lanes as int)) as i64,
                width: (MILLION as int / (laser.lanes as int)) as u32,
                y: laser.y,
                depth: position_at(bpms, note.time as int) as i128,
            },
        )
    } else {
        Err(ChartViolation { time: note.time, laser: id, kind: ViolationKind::UnknownLaser })
    }
}

/// The live notes that the chart notes at the positions `from..to` become, or
/// the first violation among them.
pub open spec fn notes_after(
    bpms: Seq<Timed<BpmCommand>>,
    notes: Seq<Timed<chart::Note>>,
    lanes: Map<u32, Laser>,
    from: int,
    to: int,
) -> Result<Seq<laser::Note>, ChartViolation>
    decreases to - from,
{
    if to <= from {
        Ok(Seq::empty())
    } else {
        match notes_after(bpms, notes, lanes, from, to - 1) {
            Err(v) => Err(v),
            Ok(spawned) => match placed(bpms, lanes, to - 1, notes[to - 1]) {
                Err(v) => Err(v),
                Ok(note) => Ok(spawned.push(note)),
            },
        }
    }
}

/// The intent that creates `note`.
pub open spec fn create_note(note: laser::Note) -> Intent {
    Intent::CreateNote { note }
}

/// The outcome of a tick.
pub struct Tick {
    /// The registry of live lane groups.
    pub lanes: Map<u32, Laser>,
    /// What the entity store has to carry out, in order.
    pub intents: Seq<Intent>,
    /// The notes that came to life.
    pub notes: Seq<laser::Note>,
    /// What is drawn.
    pub span: DrawSpan,
}

/// The outcome of a tick at chart time `now` of a scheduler that has processed
/// the chart up to `cursor`.
///
/// The lane-group events with a time in `[cursor, now)` are applied in order,
/// then the notes with a time in `[cursor + speed, now + speed)` come to life.
/// The first event that contradicts the registry ends the tick.
pub open spec fn tick(
    chart: Chart,
    settings: PlaySettings,
    lanes: Map<u32, Laser>,
    cursor: int,
    now: int,
) -> Result<Tick, ChartViolation> {
    let due_lasers = window_range(chart.lasers@, cursor, now);
    let due_notes = window_range(chart.notes@, cursor + settings.speed, now + settings.speed);
    match lanes_after(chart.lasers@, lanes, due_lasers.0, due_lasers.1) {
        Err(v) => Err(v),
        Ok((reached, lane_intents)) => match notes_after(
            chart.bpm@,
            chart.notes@,
            reached,
            due_notes.0,
            due_notes.1,
        ) {
            Err(v) => Err(v),
            Ok(notes) => Ok(
                Tick {
                    lanes: reached,
                    intents: lane_intents + notes.map_values(|note: laser::Note| create_note(note)),
                    notes,
                    span: draw_span(chart, settings, now),
                },
            ),
        },
    }
}

/// Applies the lane-group events at the positions `due` to the registry, in
/// order, and notes down what the entity store has to do for each.
fn apply_lasers(
    lasers: &[Timed<(LaserId, LaserCommand)>],
    due: Range<usize>,
    lanes: &mut BTreeMap<u32, Laser>,
    intents: &mut Vec<Intent>,
) -> (r: Result<(), ChartViolation>)
    requires
        due.start <= due.end <= lasers@.len(),
        !chart::holds_empty_lane_group(lasers@),
        all_have_lanes(old(lanes)@),
        old(intents)@.len() == 0,
    ensures
        match lanes_after(lasers@, old(lanes)@, due.start as int, due.end as int) {
            Err(v) => r == Err::<(), ChartViolation>(v),
            Ok((reached, noted)) => {
                &&& r is Ok
                &&& final(lanes)@ == reached
                &&& final(intents)@ == noted
                &&& all_have_lanes(reached)
            },
        },
{
    let mut k: usize = due.start;
    assert(intents@ =~= Seq::<Intent>::empty());
    while k < due.end
        invariant
            due.start <= k <= due.end <= lasers@.len(),
            !chart::holds_empty_lane_group(lasers@),
            all_have_lanes(lanes@),
            lanes_after(lasers@, old(lanes)@, due.start as int, k as int) == Ok::<
                (Map<u32, Laser>, Seq<Intent>),
                ChartViolation,
            >((lanes@, intents@)),
        decreases due.end - k,
    {
        let event = &lasers[k];
        let id = event.inner.0;
        let ghost before = lanes@;
        let ghost noted = intents@;
        assert(!chart::enters_without_lanes(lasers@[k as int].inner.1));
        let violation = match &event.inner.1 {
            LaserCommand::Enter { y, lanes: count, color } => {
                if lanes.contains_key(&id.0) {
                    Some(ViolationKind::DuplicateEnter)
                } else {
                    let laser = Laser { color: *color, lanes: *count, y: *y };
                    lanes.insert(id.0, laser);
                    intents.push(Intent::CreateLaser { id, laser });
                    None
                }
            },
            LaserCommand::Leave => {
                if lanes.contains_key(&id.0) {
                    lanes.remove(&id.0);
                    intents.push(Intent::DestroyLaser { id });
                    None
                } else {
                    Some(ViolationKind::LeaveWithoutEnter)
                }
            },
            LaserCommand::LineTo { .. } => None,
        };
        proof {
            assert(lanes_after(lasers@, old(lanes)@, due.start as int, k + 1) == lane_step(
                before,
                noted,
                lasers@[k as int],
            ));
        }
        if let Some(kind) = violation {
            proof {
                lemma_lanes_violation_stays(lasers@, old(lanes)@, due.start as int, k + 1, due.end as int);
            }
            return Err(ChartViolation { time: event.time, laser: id, kind });
        }
        k += 1;
    }
    Ok(())
}

/// Once the lane-group events up to some position contradict the registry,
/// the events up to any later position end in the same violation.
pub proof fn lemma_lanes_violation_stays(
    lasers: Seq<Timed<(LaserId, LaserCommand)>>,
    lanes: Map<u32, Laser>,
    from: int,
    middle: int,
    to: int,
)
    requires
        middle <= to,
        lanes_after(lasers, lanes, from, middle) is Err,
    ensures
        lanes_after(lasers, lanes, from, to) == lanes_after(lasers, lanes, from, middle),
    decreases to - middle,
{
    if middle < to {
        lemma_lanes_violation_stays(lasers, lanes, from, middle, to - 1);
    }
}

/// Once the notes up to some position name a lane group that is not live, the
/// notes up to any later position end in the same violation.
pub proof fn lemma_notes_violation_stays(
    bpms: Seq<Timed<BpmCommand>>,
    notes: Seq<Timed<chart::Note>>,
    lanes: Map<u32, Laser>,
    from: int,
    middle: int,
    to: int,
)
    requires
        middle <= to,
        notes_after(bpms, notes, lanes, from, middle) is Err,
    ensures
        notes_after(bpms, notes, lanes, from, to) == notes_after(bpms, notes, lanes, from, middle),
    decreases to - middle,
{
    if middle < to {
        lemma_notes_violation_stays(bpms, notes, lanes, from, middle, to - 1);
    }
}

/// Brings the chart notes at the positions `due` to life, each in its lane of
/// the lane group that it names.
fn place_notes(
    chart: &Chart,
    due: Range<usize>,
    lanes: &BTreeMap<u32, Laser>,
) -> (r: Result<Vec<laser::Note>, ChartViolation>)
    requires
        due.start <= due.end <= chart.notes@.len(),
        chart.bpm@.len() > 0,
        sorted_by_time(chart.bpm@),
        all_have_lanes(lanes@),
    ensures
        match notes_after(chart.bpm@, chart.notes@, lanes@, due.start as int, due.end as int) {
            Err(v) => r == Err::<Vec<laser::Note>, ChartViolation>(v),
            Ok(spawned) => r matches Ok(notes) && notes@ == spawned,
        },
{
    let mut spawned: Vec<laser::Note> = Vec::new();
    let mut k: usize = due.start;
    while k < due.end
        invariant
            due.start <= k <= due.end <= chart.notes@.len(),
            chart.bpm@.len() > 0,
            sorted_by_time(chart.bpm@),
            all_have_lanes(lanes@),
            notes_after(chart.bpm@, chart.notes@, lanes@, due.start as int, k as int) == Ok::<
                Seq<laser::Note>,
                ChartViolation,
            >(spawned@),
        decreases due.end - k,
    {
        let note = &chart.notes[k];
        let id = note.inner.laser;
        match lanes.get(&id.0) {
            None => {
                proof {
                    lemma_notes_violation_stays(
                        chart.bpm@,
                        chart.notes@,
                        lanes@,
                        due.start as int,
                        k + 1,
                        due.end as int,
                    );
                }
                return Err(
                    ChartViolation { time: note.time, laser: id, kind: ViolationKind::UnknownLaser },
                );
            },
            Some(laser) => {
                let count = laser.lanes as u64;
                let x = (note.inner.lane as u64 * MILLION) / count;
                let width = MILLION / count;
                let depth = position_for_time(chart.bpm.as_slice(), note.time);
                spawned.push(
                    laser::Note {
                        index: k,
                        time: note.time,
                        laser: id,
                        x: x as i64,
                        width: width as u32,
                        y: laser.y,
                        depth,
                    },
                );
            },
        }
        k += 1;
    }
    Ok(spawned)
}

/// What the scheduler remembers between ticks.
#[derive(Debug)]
pub struct ChartState {
    draw_window: Range<i128>,
    cutoff: i128,
    lasers: BTreeMap<u32, Laser>,
    last_time: i64,
}

impl ChartState {
    #[verifier::type_invariant]
    spec fn lanes_are_sound(self) -> bool {
        all_have_lanes(self.lasers@)
    }

    /// The registry of live lane groups, by the number of their id.
    pub closed spec fn lanes(&self) -> Map<u32, Laser> {
        self.lasers@
    }

    /// The chart time up to which the chart has been processed.
    pub closed spec fn cursor(&self) -> i64 {
        self.last_time
    }

    /// The window of tempo positions that is drawn.
    pub closed spec fn window(&self) -> (int, int) {
        (self.draw_window.start as int, self.draw_window.end as int)
    }

    /// The cutoff of the drawn window, in millionths.
    pub closed spec fn drawn_cutoff(&self) -> int {
        self.cutoff as int
    }

    /// The window of tempo positions that is drawn.
    pub fn draw_window(&self) -> (r: Range<i128>)
        ensures
            (r.start as int, r.end as int) == self.window(),
    {
        self.draw_window.start..self.draw_window.end
    }

    /// The position, relative to the window, at which the far end of a lane
    /// group is cut off. In millionths.
    pub fn cutoff(&self) -> (r: i128)
        ensures
            r == self.drawn_cutoff(),
    {
        self.cutoff
    }

    /// The chart time up to which the chart has been processed.
    pub fn last_time(&self) -> (r: i64)
        ensures
            r == self.cursor(),
    {
        self.last_time
    }

    /// The live lane group `id`, if there is one.
    pub fn laser(&self, id: LaserId) -> (r: Option<Laser>)
        ensures
            r == (if self.lanes().contains_key(id.0) {
                Some(self.lanes()[id.0])
            } else {
                None
            }),
            r matches Some(laser) ==> laser.lanes > 0,
    {
        proof {
            use_type_invariant(self);
        }
        match self.lasers.get(&id.0) {
            Some(laser) => Some(*laser),
            None => None,
        }
    }
}

/// What is drawn at chart time `now`, as the start of the window, its end and
/// the cutoff.
fn measure_span(chart: &Chart, settings: &PlaySettings, now: i64) -> (r: (i128, i128, i128))
    requires
        chart.wf(),
        settings.speed > 0,
        now + settings.speed <= i64::MAX,
    ensures
        r.0 == draw_span(*chart, *settings, now as int).start,
        r.1 == draw_span(*chart, *settings, now as int).end,
        r.2 == draw_span(*chart, *settings, now as int).cutoff,
{
    let start = position_for_time(chart.bpm.as_slice(), now);
    let end = position_for_time(chart.bpm.as_slice(), now + settings.speed);
    let depth: i128 = end - start;
    let tempo: i128 = chart.default_bpm as i128;
    let speed: i128 = settings.speed as i128;
    assert(0 < tempo * speed <= 0x8000_0000 * 0x8000_0000_0000_0000) by (nonlinear_arith)
        requires
            0 < tempo <= 0x8000_0000,
            0 < speed <= 0x8000_0000_0000_0000,
    ;
    let full: i128 = tempo * speed;
    if 14 * depth > 19 * full {
        (start, start + (19 * full) / 14, MAX_CUTOFF)
    } else {
        (start, end, div_floor(BASE_CUTOFF * depth, full))
    }
}

/// The scheduler.
#[derive(Copy, Clone, Debug, Default)]
pub struct NoteSystem;

impl NoteSystem {
    /// One tick of the scheduler at clock time `clock`.
    ///
    /// Without a session nothing happens. Otherwise the lane-group events and
    /// the notes that have come due since the last tick are brought to life:
    /// the registry in `state` follows the lane groups, the new notes join
    /// `live`, and the result lists what the entity store has to carry out.
    /// The drawn window and the cutoff are brought up to the new time.
    ///
    /// An event that contradicts the registry ends the session: the tick
    /// returns it and leaves `state` and `live` as they were.
    pub fn run(
        &self,
        clock: i64,
        session: &Option<SessionContext>,
        state: &mut ChartState,
        live: &mut Vec<laser::Note>,
    ) -> (r: Result<Vec<Intent>, ChartViolation>)
        requires
            session matches Some(s) ==> s.wf() && s.admits(old(state).cursor(), clock),
        ensures
            match *session {
                None => {
                    &&& r matches Ok(intents) && intents@ == Seq::<Intent>::empty()
                    &&& *final(state) == *old(state)
                    &&& final(live)@ == old(live)@
                },
                Some(s) => match tick(
                    s.chart,
                    s.settings,
                    old(state).lanes(),
                    old(state).cursor() as int,
                    s.settings.chart_time(clock),
                ) {
                    Err(v) => {
                        &&& r == Err::<Vec<Intent>, ChartViolation>(v)
                        &&& *final(state) == *old(state)
                        &&& final(live)@ == old(live)@
                    },
                    Ok(t) => {
                        &&& r matches Ok(intents) && intents@ == t.intents
                        &&& final(state).lanes() == t.lanes
                        &&& final(state).cursor() == s.settings.chart_time(clock)
                        &&& final(state).window() == (t.span.start, t.span.end)
                        &&& final(state).drawn_cutoff() == t.span.cutoff
                        &&& final(live)@ == old(live)@ + t.notes
                    },
                },
            },
    {
        let mut intents: Vec<Intent> = Vec::new();
        let session = match session {
            None => {
                return Ok(intents);
            },
            Some(s) => s,
        };
        proof {
            use_type_invariant(&*state);
        }
        let chart = &session.chart;
        let speed = session.settings.speed;
        let now: i64 = clock - session.settings.base_time;
        let span = measure_span(chart, &session.settings, now);

        let mut lanes = state.lasers.clone();
        let due_lasers = equal_range_by_time(chart.lasers.as_slice(), state.last_time, now);
        match apply_lasers(chart.lasers.as_slice(), due_lasers, &mut lanes, &mut intents) {
            Err(v) => {
                return Err(v);
            },
            Ok(()) => {},
        }
        let due_notes = equal_range_by_time(
            chart.notes.as_slice(),
            state.last_time + speed,
            now + speed,
        );
        let mut spawned = match place_notes(chart, due_notes, &lanes) {
            Err(v) => {
                return Err(v);
            },
            Ok(notes) => notes,
        };
        let ghost lane_intents = intents@;
        let mut k: usize = 0;
        while k < spawned.len()
            invariant
                k <= spawned@.len(),
                intents@ == lane_intents + spawned@.take(k as int).map_values(
                    |note: laser::Note| create_note(note),
                ),
            decreases spawned@.len() - k,
        {
            intents.push(Intent::CreateNote { note: spawned[k] });
            assert(spawned@.take(k + 1) =~= spawned@.take(k as int).push(spawned@[k as int]));
            k += 1;
        }
        assert(spawned@.take(k as int) =~= spawned@);

        state.lasers = lanes;
        state.cutoff = span.2;
        state.draw_window = span.0..span.1;
        state.last_time = now;
        live.append(&mut spawned);
        Ok(intents)
    }
}

impl Default for ChartState {
    /// The state before the first tick: nothing is live, nothing is drawn, and
    /// the chart has been processed up to time zero.
    fn default() -> (state: Self)
        ensures
            state.lanes() == Map::<u32, Laser>::empty(),
            state.cursor() == 0,
            state.window() == (0int, 0int),
            state.drawn_cutoff() == BASE_CUTOFF,
    {
        ChartState { draw_window: 0..0, cutoff: BASE_CUTOFF, lasers: BTreeMap::new(), last_time: 0 }
    }
}

/// A second tick at the same chart time finds nothing to do: no event is
/// due, nothing comes to life, and the registry and what is drawn stay as the
/// first tick left them.
pub proof fn lemma_tick_is_idempotent(
    chart: Chart,
    settings: PlaySettings,
    lanes: Map<u32, Laser>,
    cursor: int,
    now: int,
)
    requires
        tick(chart, settings, lanes, cursor, now) is Ok,
    ensures
        tick(chart, settings, tick(chart, settings, lanes, cursor, now)->Ok_0.lanes, now, now)
            matches Ok(again) && {
            &&& again.lanes == tick(chart, settings, lanes, cursor, now)->Ok_0.lanes
            &&& again.intents == Seq::<Intent>::empty()
            &&& again.notes == Seq::<laser::Note>::empty()
            &&& again.span == tick(chart, settings, lanes, cursor, now)->Ok_0.span
        },
{
    let first = tick(chart, settings, lanes, cursor, now)->Ok_0;
    let again = tick(chart, settings, first.lanes, now, now)->Ok_0;
    assert(again.intents =~= Seq::<Intent>::empty());
}

/// The notes that come to life at the positions `from..to` of the chart are
/// those chart notes, each once and in chart order.
pub proof fn lemma_notes_after_follow_the_chart(
    bpms: Seq<Timed<BpmCommand>>,
    notes: Seq<Timed<chart::Note>>,
    lanes: Map<u32, Laser>,
    from: int,
    to: int,
)
    requires
        0 <= from <= to <= notes.len() <= usize::MAX,
        notes_after(bpms, notes, lanes, from, to) is Ok,
    ensures
        notes_after(bpms, notes, lanes, from, to)->Ok_0.len() == to - from,
        forall|k: int|
            0 <= k < to - from ==> {
                let note = #[trigger] notes_after(bpms, notes, lanes, from, to)->Ok_0[k];
                &&& note.index == from + k
                &&& note.time == notes[from + k].time
                &&& note.laser == notes[from + k].inner.laser
            },
    decreases to - from,
{
    if from < to {
        lemma_notes_after_follow_the_chart(bpms, notes, lanes, from, to - 1);
    }
}

/// A tick brings to life exactly the chart notes whose times lie in its
/// window, each once and in chart order. The windows of successive ticks tile
/// the time axis, so every chart note comes to life in exactly one tick.
pub proof fn lemma_tick_spawns_its_window(
    chart: Chart,
    settings: PlaySettings,
    lanes: Map<u32, Laser>,
    cursor: int,
    now: int,
)
    requires
        chart.wf(),
        cursor <= now,
        tick(chart, settings, lanes, cursor, now) is Ok,
    ensures
        ({
            let spawned = tick(chart, settings, lanes, cursor, now)->Ok_0.notes;
            let due = window_range(chart.notes@, cursor + settings.speed, now + settings.speed);
            &&& 0 <= due.0 <= due.1 <= chart.notes@.len()
            &&& spawned.len() == due.1 - due.0
            &&& forall|k: int|
                0 <= k < spawned.len() ==> {
                    &&& (#[trigger] spawned[k]).index == due.0 + k
                    &&& spawned[k].time == chart.notes@[due.0 + k].time
                    &&& in_window(
                        spawned[k].time as int,
                        cursor + settings.speed,
                        now + settings.speed,
                    )
                }
            &&& forall|i: int|
                0 <= i < chart.notes@.len() && in_window(
                    (#[trigger] chart.notes@[i]).time as int,
                    cursor + settings.speed,
                    now + settings.speed,
                ) ==> due.0 <= i < due.1
        }),
{
    let due = window_range(chart.notes@, cursor + settings.speed, now + settings.speed);
    lemma_window_range_is_exact(chart.notes@, cursor + settings.speed, now + settings.speed);
    let reached = lanes_after(
        chart.lasers@,
        lanes,
        window_range(chart.lasers@, cursor, now).0,
        window_range(chart.lasers@, cursor, now).1,
    )->Ok_0.0;
    assert(chart.notes@.len() == chart.notes.len());
    lemma_notes_after_follow_the_chart(chart.bpm@, chart.notes@, reached, due.0, due.1);
}

} // verus!
