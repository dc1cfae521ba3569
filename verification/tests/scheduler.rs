use rhythm_core::chart::{Chart, LaserCommand, LaserId, Note, PlaySettings, SessionContext};
use rhythm_core::laser;
use rhythm_core::laser::{Laser, Rgb};
use rhythm_core::schedule::{
    ChartState, ChartViolation, Intent, NoteSystem, ViolationKind, BASE_CUTOFF, MAX_CUTOFF,
};
use rhythm_core::tempo::BpmCommand;
use rhythm_core::timed::Timed;

const BLUE: Rgb = Rgb { r: 0, g: 100_000, b: 800_000 };
const T0: i64 = 5_000_000;

fn enter(time: i64, id: u32, lanes: u16) -> Timed<(LaserId, LaserCommand)> {
    Timed { time, inner: (LaserId(id), LaserCommand::Enter { y: 300_000, lanes, color: BLUE }) }
}

fn leave(time: i64, id: u32) -> Timed<(LaserId, LaserCommand)> {
    Timed { time, inner: (LaserId(id), LaserCommand::Leave) }
}

fn note(time: i64, id: u32, lane: u32) -> Timed<Note> {
    Timed { time, inner: Note { laser: LaserId(id), lane } }
}

fn session(
    notes: Vec<Timed<Note>>,
    lasers: Vec<Timed<(LaserId, LaserCommand)>>,
    bpm: i32,
    default_bpm: i32,
    speed: i64,
) -> Option<SessionContext> {
    let chart = Chart {
        notes,
        bpm: vec![Timed { time: 0, inner: BpmCommand { bpm, position: 0 } }],
        lasers,
        default_bpm,
    };
    let settings = PlaySettings { speed, base_time: T0, offset: 0, norm_threshold: 0 };
    let session = SessionContext { chart, settings };
    assert!(session.is_wf());
    Some(session)
}

fn tick(
    session: &Option<SessionContext>,
    state: &mut ChartState,
    live: &mut Vec<laser::Note>,
    clock: i64,
) -> Result<Vec<Intent>, ChartViolation> {
    assert!(session.as_ref().unwrap().can_tick(state, clock));
    NoteSystem.run(clock, session, state, live)
}

fn one_lane_group() -> Option<SessionContext> {
    session(vec![note(1_000_000, 0, 1)], vec![enter(0, 0, 4)], 200_000, 200_000, 1_000_000)
}

#[test]
fn the_state_starts_empty() {
    let state = ChartState::default();
    assert_eq!(state.last_time(), 0);
    assert_eq!(state.draw_window(), 0..0);
    assert_eq!(state.cutoff(), BASE_CUTOFF);
    assert_eq!(state.laser(LaserId(0)), None);
}

#[test]
fn nothing_happens_without_a_session() {
    let mut state = ChartState::default();
    let mut live = Vec::new();
    assert_eq!(NoteSystem.run(T0 + 99, &None, &mut state, &mut live), Ok(vec![]));
    assert_eq!(state.last_time(), 0);
    assert_eq!(state.draw_window(), 0..0);
    assert!(live.is_empty());
}

#[test]
fn a_tick_at_the_start_finds_nothing_due() {
    let session = one_lane_group();
    let mut state = ChartState::default();
    let mut live = Vec::new();
    assert_eq!(tick(&session, &mut state, &mut live, T0), Ok(vec![]));
    assert!(live.is_empty());
    assert_eq!(state.laser(LaserId(0)), None);
    assert_eq!(state.draw_window(), 0..200_000_000_000);
    assert_eq!(state.cutoff(), 700_000);
}

#[test]
fn due_events_come_to_life_in_chart_order() {
    let session = one_lane_group();
    let mut state = ChartState::default();
    let mut live = Vec::new();
    let group = Laser { color: BLUE, lanes: 4, y: 300_000 };
    let spawned = laser::Note {
        index: 0,
        time: 1_000_000,
        laser: LaserId(0),
        x: 250_000,
        width: 250_000,
        y: 300_000,
        depth: 200_000_000_000,
    };
    assert_eq!(
        tick(&session, &mut state, &mut live, T0 + 16_000),
        Ok(vec![
            Intent::CreateLaser { id: LaserId(0), laser: group },
            Intent::CreateNote { note: spawned },
        ])
    );
    assert_eq!(live, vec![spawned]);
    assert_eq!(spawned.centre(), 375_000);
    assert_eq!(state.laser(LaserId(0)), Some(group));
    assert_eq!(state.last_time(), 16_000);
    assert_eq!(state.draw_window(), 3_200_000_000..203_200_000_000);
}

#[test]
fn a_second_tick_at_the_same_time_does_nothing() {
    let session = one_lane_group();
    let mut state = ChartState::default();
    let mut live = Vec::new();
    assert_eq!(tick(&session, &mut state, &mut live, T0 + 16_000).unwrap().len(), 2);
    let window = state.draw_window();
    assert_eq!(tick(&session, &mut state, &mut live, T0 + 16_000), Ok(vec![]));
    assert_eq!(live.len(), 1);
    assert_eq!(state.last_time(), 16_000);
    assert_eq!(state.draw_window(), window);
    assert_eq!(state.cutoff(), 700_000);
}

#[test]
fn every_event_is_processed_in_exactly_one_tick() {
    let notes = (0..40).map(|i| note(1_000_000 + 75_000 * i, 0, (i % 4) as u32)).collect();
    let session = session(notes, vec![enter(0, 0, 4)], 200_000, 200_000, 1_000_000);
    let mut state = ChartState::default();
    let mut live = Vec::new();
    let mut created = Vec::new();
    let mut clock = T0;
    while clock < T0 + 4_000_000 {
        created.extend(tick(&session, &mut state, &mut live, clock).unwrap());
        created.extend(tick(&session, &mut state, &mut live, clock).unwrap());
        clock += 16_667;
    }
    assert_eq!(created.len(), 41);
    let indices: Vec<usize> = live.iter().map(|n| n.index).collect();
    assert_eq!(indices, (0..40).collect::<Vec<_>>());
}

#[test]
fn an_event_at_the_tick_time_waits_for_the_next_tick() {
    let session = session(vec![note(2_000, 0, 0)], vec![enter(1_000, 0, 1)], 1, 1, 1_000);
    let mut state = ChartState::default();
    let mut live = Vec::new();
    assert_eq!(tick(&session, &mut state, &mut live, T0 + 1_000), Ok(vec![]));
    assert_eq!(tick(&session, &mut state, &mut live, T0 + 1_001).unwrap().len(), 2);
}

#[test]
fn a_note_stands_in_its_lane() {
    let notes = vec![note(110, 0, 0), note(111, 0, 2), note(112, 0, 7), note(113, 3, 1)];
    let lasers = vec![enter(0, 0, 3), enter(0, 3, 1)];
    let session = session(notes, lasers, 60_000, 60_000, 100);
    let mut state = ChartState::default();
    let mut live = Vec::new();
    tick(&session, &mut state, &mut live, T0 + 20).unwrap();
    let placed: Vec<(i64, u32, i128)> = live.iter().map(|n| (n.x, n.width, n.depth)).collect();
    assert_eq!(
        placed,
        vec![
            (0, 333_333, 6_600_000),
            (666_666, 333_333, 6_660_000),
            (2_333_333, 333_333, 6_720_000),
            (1_000_000, 1_000_000, 6_780_000),
        ]
    );
    assert_eq!(live[1].centre(), 666_666 + 166_666);
}

#[test]
fn the_cutoff_follows_the_tempo() {
    for (bpm, default_bpm, cutoff, depth) in [
        (200_000, 200_000, 700_000, 200_000_000_000i128),
        (200_000, 300_000, 466_666, 200_000_000_000),
        (100_000, 200_000, 350_000, 100_000_000_000),
        (0, 200_000, 0, 0),
        (-200_000, 200_000, -700_000, -200_000_000_000),
        (-100_000, 300_000, -233_334, -100_000_000_000),
    ] {
        let session = session(vec![], vec![], bpm, default_bpm, 1_000_000);
        let mut state = ChartState::default();
        tick(&session, &mut state, &mut Vec::new(), T0).unwrap();
        assert_eq!(state.cutoff(), cutoff);
        assert_eq!(state.draw_window(), 0..depth);
    }
}

#[test]
fn the_cutoff_stops_at_its_ceiling_and_shortens_the_window() {
    let session = session(vec![], vec![], 200_000, 100_000, 1_000_000);
    let mut state = ChartState::default();
    tick(&session, &mut state, &mut Vec::new(), T0 + 1_000_000).unwrap();
    assert_eq!(state.cutoff(), MAX_CUTOFF);
    let start = 200_000_000_000;
    assert_eq!(state.draw_window(), start..start + 135_714_285_714);
}

#[test]
fn a_cutoff_at_the_ceiling_keeps_the_window() {
    let session = session(vec![], vec![], 19, 14, 1);
    let mut state = ChartState::default();
    tick(&session, &mut state, &mut Vec::new(), T0 + 10).unwrap();
    assert_eq!(state.cutoff(), MAX_CUTOFF);
    assert_eq!(state.draw_window(), 190..209);
    let session = session_just_above();
    let mut state = ChartState::default();
    tick(&session, &mut state, &mut Vec::new(), T0 + 10).unwrap();
    assert_eq!(state.cutoff(), MAX_CUTOFF);
    assert_eq!(state.draw_window(), 200..200 + 19);
}

fn session_just_above() -> Option<SessionContext> {
    session(vec![], vec![], 20, 14, 1)
}

#[test]
fn a_lane_group_that_enters_twice_ends_the_session() {
    let lasers = vec![enter(0, 0, 4), enter(5, 1, 2), enter(7, 0, 4)];
    let session = session(vec![note(8, 1, 0)], lasers, 1, 1, 1_000);
    let mut state = ChartState::default();
    let mut live = Vec::new();
    assert_eq!(
        tick(&session, &mut state, &mut live, T0 + 10),
        Err(ChartViolation { time: 7, laser: LaserId(0), kind: ViolationKind::DuplicateEnter })
    );
    assert_eq!(state.last_time(), 0);
    assert_eq!(state.laser(LaserId(0)), None);
    assert_eq!(state.laser(LaserId(1)), None);
    assert_eq!(state.draw_window(), 0..0);
    assert!(live.is_empty());
}

#[test]
fn a_lane_group_that_leaves_without_entering_ends_the_session() {
    let session = session(vec![], vec![enter(0, 0, 4), leave(3, 1)], 1, 1, 1_000);
    let mut state = ChartState::default();
    let mut live = Vec::new();
    assert_eq!(
        tick(&session, &mut state, &mut live, T0 + 10),
        Err(ChartViolation { time: 3, laser: LaserId(1), kind: ViolationKind::LeaveWithoutEnter })
    );
    assert_eq!(state.laser(LaserId(0)), None);
}

#[test]
fn a_note_without_its_lane_group_ends_the_session() {
    let session = session(vec![note(100, 0, 0), note(101, 9, 0)], vec![enter(0, 0, 4)], 1, 1, 1);
    let mut state = ChartState::default();
    let mut live = Vec::new();
    assert_eq!(
        tick(&session, &mut state, &mut live, T0 + 200),
        Err(ChartViolation { time: 101, laser: LaserId(9), kind: ViolationKind::UnknownLaser })
    );
    assert!(live.is_empty());
    assert_eq!(state.last_time(), 0);
}

#[test]
fn a_note_after_its_lane_group_has_left_ends_the_session() {
    let session = session(vec![note(100, 0, 0)], vec![enter(0, 0, 4), leave(5, 0)], 1, 1, 1);
    let mut state = ChartState::default();
    let mut live = Vec::new();
    assert_eq!(
        tick(&session, &mut state, &mut live, T0 + 200),
        Err(ChartViolation { time: 100, laser: LaserId(0), kind: ViolationKind::UnknownLaser })
    );
}

#[test]
fn an_id_is_free_again_after_its_lane_group_has_left() {
    let lasers = vec![enter(0, 0, 4), leave(10, 0), enter(20, 0, 8)];
    let session = session(vec![], lasers, 1, 1, 1);
    let mut state = ChartState::default();
    let intents = tick(&session, &mut state, &mut Vec::new(), T0 + 30).unwrap();
    assert_eq!(
        intents,
        vec![
            Intent::CreateLaser { id: LaserId(0), laser: Laser { color: BLUE, lanes: 4, y: 300_000 } },
            Intent::DestroyLaser { id: LaserId(0) },
            Intent::CreateLaser { id: LaserId(0), laser: Laser { color: BLUE, lanes: 8, y: 300_000 } },
        ]
    );
    assert_eq!(state.laser(LaserId(0)).map(|l| l.lanes), Some(8));
}

#[test]
fn a_tick_is_refused_when_the_clock_went_back_or_runs_out() {
    let session = one_lane_group();
    let inner = session.as_ref().unwrap();
    let mut state = ChartState::default();
    assert!(inner.can_tick(&state, T0));
    assert!(!inner.can_tick(&state, T0 - 1));
    assert!(!inner.can_tick(&state, i64::MIN));
    assert!(inner.can_tick(&state, i64::MAX));
    tick(&session, &mut state, &mut Vec::new(), T0 + 500).unwrap();
    assert!(inner.can_tick(&state, T0 + 500));
    assert!(!inner.can_tick(&state, T0 + 499));

    let chart = Chart { notes: vec![], bpm: vec![], lasers: vec![], default_bpm: 1 };
    let settings = PlaySettings { speed: 1_000_000, base_time: -1, offset: 0, norm_threshold: 0 };
    let early = SessionContext { chart, settings };
    let state = ChartState::default();
    assert!(early.can_tick(&state, i64::MAX - 1_000_001));
    assert!(!early.can_tick(&state, i64::MAX - 1_000_000));
    assert!(!early.can_tick(&state, i64::MAX));
}
