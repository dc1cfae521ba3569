use rhythm_core::chart::{
    has_empty_lane_group, has_line_to, is_cumulative, is_sorted_by_time, Chart, ChartError,
    LaserCommand, LaserId, Note, PlaySettings, SessionContext,
};
use rhythm_core::laser::Rgb;
use rhythm_core::tempo::BpmCommand;
use rhythm_core::timed::Timed;

const BLUE: Rgb = Rgb { r: 0, g: 100_000, b: 800_000 };

fn enter(time: i64, id: u32, lanes: u16) -> Timed<(LaserId, LaserCommand)> {
    Timed { time, inner: (LaserId(id), LaserCommand::Enter { y: 300_000, lanes, color: BLUE }) }
}

fn leave(time: i64, id: u32) -> Timed<(LaserId, LaserCommand)> {
    Timed { time, inner: (LaserId(id), LaserCommand::Leave) }
}

fn note(time: i64, id: u32, lane: u32) -> Timed<Note> {
    Timed { time, inner: Note { laser: LaserId(id), lane } }
}

fn tempo(time: i64, bpm: i32, position: i64) -> Timed<BpmCommand> {
    Timed { time, inner: BpmCommand { bpm, position } }
}

fn sound() -> Chart {
    Chart {
        notes: vec![note(1_000_000, 0, 1), note(1_000_000, 0, 2), note(2_000_000, 0, 3)],
        bpm: vec![tempo(0, 200_000, 0), tempo(1_000_000, 100_000, 200_000_000_000)],
        lasers: vec![enter(0, 0, 4), leave(9_000_000, 0)],
        default_bpm: 200_000,
    }
}

#[test]
fn a_sound_chart_passes() {
    assert_eq!(sound().validate(), Ok(()));
}

#[test]
fn an_empty_tempo_map_is_rejected() {
    let mut chart = sound();
    chart.bpm.clear();
    assert_eq!(chart.validate(), Err(ChartError::EmptyTempoMap));
}

#[test]
fn a_default_tempo_that_is_not_positive_is_rejected() {
    let mut chart = sound();
    chart.default_bpm = 0;
    assert_eq!(chart.validate(), Err(ChartError::DefaultTempoNotPositive));
    chart.default_bpm = -200_000;
    assert_eq!(chart.validate(), Err(ChartError::DefaultTempoNotPositive));
}

#[test]
fn notes_out_of_order_are_rejected() {
    let mut chart = sound();
    chart.notes.swap(0, 2);
    assert_eq!(chart.validate(), Err(ChartError::NotesOutOfOrder));
}

#[test]
fn tempo_changes_out_of_order_are_rejected() {
    let mut chart = sound();
    chart.bpm.swap(0, 1);
    assert_eq!(chart.validate(), Err(ChartError::TempoOutOfOrder));
}

#[test]
fn lane_group_events_out_of_order_are_rejected() {
    let mut chart = sound();
    chart.lasers.swap(0, 1);
    assert_eq!(chart.validate(), Err(ChartError::LasersOutOfOrder));
}

#[test]
fn a_position_that_is_not_cumulative_is_rejected() {
    let mut chart = sound();
    chart.bpm[1].inner.position += 1;
    assert_eq!(chart.validate(), Err(ChartError::TempoNotCumulative));
}

#[test]
fn a_line_to_is_rejected() {
    let mut chart = sound();
    chart.lasers.insert(
        1,
        Timed {
            time: 5,
            inner: (LaserId(0), LaserCommand::LineTo { time: Timed { time: 9, inner: () }, y: 1 }),
        },
    );
    assert_eq!(chart.validate(), Err(ChartError::LineToUnsupported));
}

#[test]
fn a_lane_group_without_lanes_is_rejected() {
    let mut chart = sound();
    chart.lasers.insert(1, enter(3, 7, 0));
    assert_eq!(chart.validate(), Err(ChartError::LaneGroupWithoutLanes));
}

#[test]
fn the_first_defect_is_reported() {
    let mut chart = sound();
    chart.lasers.insert(1, enter(3, 7, 0));
    chart.notes.swap(0, 2);
    chart.default_bpm = 0;
    assert_eq!(chart.validate(), Err(ChartError::DefaultTempoNotPositive));
    chart.default_bpm = 1;
    assert_eq!(chart.validate(), Err(ChartError::NotesOutOfOrder));
    chart.bpm.clear();
    assert_eq!(chart.validate(), Err(ChartError::EmptyTempoMap));
}

#[test]
fn a_chart_without_notes_and_lane_groups_passes() {
    let chart = Chart { notes: vec![], bpm: vec![tempo(0, 1, 0)], lasers: vec![], default_bpm: 1 };
    assert_eq!(chart.validate(), Ok(()));
}

#[test]
fn order_is_checked_pair_by_pair() {
    assert!(is_sorted_by_time::<u8>(&[]));
    assert!(is_sorted_by_time(&[note(3, 0, 0)]));
    assert!(is_sorted_by_time(&[note(3, 0, 0), note(3, 0, 1), note(4, 0, 0)]));
    assert!(!is_sorted_by_time(&[note(3, 0, 0), note(5, 0, 1), note(4, 0, 0)]));
}

#[test]
fn cumulative_positions_follow_from_tempo_and_time() {
    assert!(is_cumulative(&[]));
    assert!(is_cumulative(&[tempo(0, 5, 77)]));
    assert!(is_cumulative(&[tempo(0, 5, 77), tempo(10, -2, 127), tempo(20, 0, 107)]));
    assert!(!is_cumulative(&[tempo(0, 5, 77), tempo(10, -2, 127), tempo(20, 0, 108)]));
}

#[test]
fn line_to_and_empty_lane_groups_are_found() {
    let events = [enter(0, 0, 1), leave(1, 0)];
    assert!(!has_line_to(&events));
    assert!(!has_empty_lane_group(&events));
    let events = [leave(1, 0), enter(2, 0, 0)];
    assert!(has_empty_lane_group(&events));
}

#[test]
fn a_session_needs_a_sound_chart_and_a_positive_speed() {
    let settings = PlaySettings { speed: 1_000_000, base_time: 0, offset: 0, norm_threshold: 1 };
    assert!(SessionContext { chart: sound(), settings }.is_wf());
    let stopped = PlaySettings { speed: 0, ..settings };
    assert!(!SessionContext { chart: sound(), settings: stopped }.is_wf());
    let mut chart = sound();
    chart.bpm.clear();
    assert!(!SessionContext { chart, settings }.is_wf());
}

#[test]
fn input_time_is_clock_time_from_the_base_plus_the_offset() {
    let settings =
        PlaySettings { speed: 1, base_time: 5_000_000, offset: -20_000, norm_threshold: 1 };
    assert_eq!(settings.input_time_at(6_000_000), 980_000);
    let wide = PlaySettings { speed: 1, base_time: i64::MIN, offset: i64::MAX, norm_threshold: 1 };
    assert_eq!(wide.input_time_at(i64::MAX), 3 * (i64::MAX as i128) + 1);
}
