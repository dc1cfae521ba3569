//! The chart: the authored notes, lane-group events and tempo changes, and the
//! checks a chart has to pass before a session may start.

use crate::laser::Rgb;
pub use crate::schedule::{ChartState, NoteSystem};
pub use crate::tempo::BpmCommand;
use crate::tempo::{cumulative, tempo_map_wf};
use crate::timed::sorted_by_time;
pub use crate::timed::Timed;
use vstd::prelude::*;

verus! {

/// Names one lane group for as long as it is live.
#[derive(Copy, Clone, Ord, PartialOrd, Eq, PartialEq, Debug, Structural)]
pub struct LaserId(pub u32);

/// A note of the chart: it travels along lane `lane` of the lane group `laser`.
#[derive(Debug)]
pub struct Note {
    pub laser: LaserId,
    pub lane: u32,
}

/// What happens to a lane group at some time.
#[derive(Debug)]
pub enum LaserCommand {
    /// The lane group appears with `lanes` lanes at the vertical offset `y`.
    Enter { y: i32, lanes: u16, color: Rgb },
    /// The lane group disappears.
    Leave,
    /// The lane group moves to the vertical offset `y` until `time`. No chart
    /// that holds this command passes [`Chart::validate`].
    LineTo { time: Timed<()>, y: i32 },
}

/// An authored chart. It does not change while it is played.
#[derive(Debug)]
pub struct Chart {
    /// All notes, ordered by time.
    pub notes: Vec<Timed<Note>>,
    /// The tempo changes, ordered by time.
    pub bpm: Vec<Timed<BpmCommand>>,
    /// The lane-group events, ordered by time.
    pub lasers: Vec<Timed<(LaserId, LaserCommand)>>,
    /// The tempo that the look-ahead is measured against, in thousandths of a
    /// beat per minute.
    pub default_bpm: i32,
}

/// The parameters of one play session.
#[derive(Copy, Clone, Debug, PartialEq, Eq, Structural)]
pub struct PlaySettings {
    /// The margin between a note's appearance and its judgement, in microseconds.
    pub speed: i64,
    /// The clock time at which the chart is at time zero.
    pub base_time: i64,
    /// Added to the measured time of an input to make up for input latency.
    pub offset: i64,
    /// The largest squared distance, in millionths squared, at which a note
    /// still answers a key press.
    pub norm_threshold: i64,
}

impl PlaySettings {
    /// The chart time at clock time `clock`.
    pub open spec fn chart_time(&self, clock: i64) -> int {
        clock - self.base_time
    }

    /// The chart time that an input at clock time `clock` counts for.
    pub open spec fn input_time(&self, clock: i64) -> int {
        clock - self.base_time + self.offset
    }

    /// The chart time that an input at clock time `clock` counts for.
    pub fn input_time_at(&self, clock: i64) -> (r: i128)
        ensures
            r == self.input_time(clock),
    {
        clock as i128 - self.base_time as i128 + self.offset as i128
    }
}

/// A play session: a chart together with the settings it is played with. While
/// no session is running, the scheduler and the judge do nothing.
#[derive(Debug)]
pub struct SessionContext {
    pub chart: Chart,
    pub settings: PlaySettings,
}

impl SessionContext {
    /// The chart can be played and the look-ahead is positive.
    pub open spec fn wf(&self) -> bool {
        self.chart.wf() && self.settings.speed > 0
    }

    /// Whether the chart can be played and the look-ahead is positive.
    pub fn is_wf(&self) -> (r: bool)
        ensures
            r == self.wf(),
    {
        self.settings.speed > 0 && self.chart.validate().is_ok()
    }
}

/// Why a chart cannot be played.
#[derive(Copy, Clone, Debug, PartialEq, Eq, Structural)]
pub enum ChartError {
    /// The tempo map has no point.
    EmptyTempoMap,
    /// The default tempo is zero or negative.
    DefaultTempoNotPositive,
    /// The notes are not ordered by time.
    NotesOutOfOrder,
    /// The tempo changes are not ordered by time.
    TempoOutOfOrder,
    /// The lane-group events are not ordered by time.
    LasersOutOfOrder,
    /// A tempo point's position is not the one reached from the point before it.
    TempoNotCumulative,
    /// A lane-group event is a `LineTo`.
    LineToUnsupported,
    /// A lane group enters with no lanes.
    LaneGroupWithoutLanes,
}

/// Some event of the sequence is a `LineTo`.
pub open spec fn holds_line_to(lasers: Seq<Timed<(LaserId, LaserCommand)>>) -> bool {
    exists|i: int| 0 <= i < lasers.len() && (#[trigger] lasers[i]).inner.1 is LineTo
}

/// The command lets a lane group enter without lanes.
pub open spec fn enters_without_lanes(command: LaserCommand) -> bool {
    match command {
        LaserCommand::Enter { lanes, .. } => lanes == 0,
        _ => false,
    }
}

/// Some event of the sequence lets a lane group enter without lanes.
pub open spec fn holds_empty_lane_group(lasers: Seq<Timed<(LaserId, LaserCommand)>>) -> bool {
    exists|i: int| 0 <= i < lasers.len() && enters_without_lanes((#[trigger] lasers[i]).inner.1)
}

impl Chart {
    /// The chart can be played: its sequences are ordered by time, its tempo
    /// map is well formed, its default tempo is positive, and its lane-group
    /// events are entries with at least one lane and departures only.
    pub open spec fn wf(&self) -> bool {
        &&& tempo_map_wf(self.bpm@)
        &&& self.default_bpm > 0
        &&& sorted_by_time(self.notes@)
        &&& sorted_by_time(self.lasers@)
        &&& !holds_line_to(self.lasers@)
        &&& !holds_empty_lane_group(self.lasers@)
    }

    /// The first reason, in the order of [`ChartError`], why the chart cannot
    /// be played.
    pub open spec fn defect(&self) -> Option<ChartError> {
        if self.bpm@.len() == 0 {
            Some(ChartError::EmptyTempoMap)
        } else if self.default_bpm <= 0 {
            Some(ChartError::DefaultTempoNotPositive)
        } else if !sorted_by_time(self.notes@) {
            Some(ChartError::NotesOutOfOrder)
        } else if !sorted_by_time(self.bpm@) {
            Some(ChartError::TempoOutOfOrder)
        } else if !sorted_by_time(self.lasers@) {
            Some(ChartError::LasersOutOfOrder)
        } else if !cumulative(self.bpm@) {
            Some(ChartError::TempoNotCumulative)
        } else if holds_line_to(self.lasers@) {
            Some(ChartError::LineToUnsupported)
        } else if holds_empty_lane_group(self.lasers@) {
            Some(ChartError::LaneGroupWithoutLanes)
        } else {
            None
        }
    }

    /// Checks the chart before a session starts.
    pub fn validate(&self) -> (r: Result<(), ChartError>)
        ensures
            r is Ok <==> self.wf(),
            r == match self.defect() {
                Some(e) => Err::<(), ChartError>(e),
                None => Ok(()),
            },
    {
        if self.bpm.len() == 0 {
            Err(ChartError::EmptyTempoMap)
        } else if self.default_bpm <= 0 {
            Err(ChartError::DefaultTempoNotPositive)
        } else if !is_sorted_by_time(self.notes.as_slice()) {
            Err(ChartError::NotesOutOfOrder)
        } else if !is_sorted_by_time(self.bpm.as_slice()) {
            Err(ChartError::TempoOutOfOrder)
        } else if !is_sorted_by_time(self.lasers.as_slice()) {
            Err(ChartError::LasersOutOfOrder)
        } else if !is_cumulative(self.bpm.as_slice()) {
            Err(ChartError::TempoNotCumulative)
        } else if has_line_to(self.lasers.as_slice()) {
            Err(ChartError::LineToUnsupported)
        } else if has_empty_lane_group(self.lasers.as_slice()) {
            Err(ChartError::LaneGroupWithoutLanes)
        } else {
            Ok(())
        }
    }
}

/// Whether the slice is ordered by ascending time.
pub fn is_sorted_by_time<T>(slice: &[Timed<T>]) -> (r: bool)
    ensures
        r == sorted_by_time(slice@),
{
    let n = slice.len();
    if n < 2 {
        return true;
    }
    let mut k: usize = 1;
    while k < n
        invariant
            1 <= k <= n,
            n == slice@.len(),
            forall|i: int, j: int| 0 <= i <= j < k ==> slice@[i].time <= slice@[j].time,
        decreases n - k,
    {
        if slice[k - 1].time > slice[k].time {
            return false;
        }
        k += 1;
    }
    true
}

/// Whether each tempo point's position is the one reached from the point
/// before it.
pub fn is_cumulative(bpms: &[Timed<BpmCommand>]) -> (r: bool)
    ensures
        r == cumulative(bpms@),
{
    let n = bpms.len();
    if n < 2 {
        return true;
    }
    let mut k: usize = 1;
    while k < n
        invariant
            1 <= k <= n,
            n == bpms@.len(),
            forall|i: int|
                0 <= i < k - 1 ==> (#[trigger] bpms@[i + 1]).inner.position
                    == bpms@[i].inner.position + (bpms@[i + 1].time - bpms@[i].time)
                    * bpms@[i].inner.bpm,
        decreases n - k,
    {
        let prev = &bpms[k - 1];
        let here = &bpms[k];
        let elapsed: i128 = here.time as i128 - prev.time as i128;
        let tempo: i128 = prev.inner.bpm as i128;
        assert(-0x8000_0000_0000_0000_0000_0000 <= elapsed * tempo
            <= 0x8000_0000_0000_0000_0000_0000) by (nonlinear_arith)
            requires
                -0x1_0000_0000_0000_0000 <= elapsed <= 0x1_0000_0000_0000_0000,
                -0x8000_0000 <= tempo <= 0x8000_0000,
        ;
        if here.inner.position as i128 != prev.inner.position as i128 + elapsed * tempo {
            assert(bpms@[(k - 1) + 1] == bpms@[k as int]);
            return false;
        }
        k += 1;
    }
    true
}

/// Whether some event of the slice is a `LineTo`.
pub fn has_line_to(lasers: &[Timed<(LaserId, LaserCommand)>]) -> (r: bool)
    ensures
        r == holds_line_to(lasers@),
{
    let n = lasers.len();
    let mut k: usize = 0;
    while k < n
        invariant
            k <= n,
            n == lasers@.len(),
            forall|i: int| 0 <= i < k ==> !((#[trigger] lasers@[i]).inner.1 is LineTo),
        decreases n - k,
    {
        match &lasers[k].inner.1 {
            LaserCommand::LineTo { .. } => {
                return true;
            },
            _ => {},
        }
        k += 1;
    }
    false
}

/// Whether some event of the slice lets a lane group enter without lanes.
pub fn has_empty_lane_group(lasers: &[Timed<(LaserId, LaserCommand)>]) -> (r: bool)
    ensures
        r == holds_empty_lane_group(lasers@),
{
    let n = lasers.len();
    let mut k: usize = 0;
    while k < n
        invariant
            k <= n,
            n == lasers@.len(),
            forall|i: int| 0 <= i < k ==> !enters_without_lanes((#[trigger] lasers@[i]).inner.1),
        decreases n - k,
    {
        match &lasers[k].inner.1 {
            LaserCommand::Enter { lanes, .. } => {
                if *lanes == 0 {
                    return true;
                }
            },
            _ => {},
        }
        k += 1;
    }
    false
}

} // verus!
