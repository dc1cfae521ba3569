//! The judge: it matches key presses against the live notes, grades the best
//! match, and retires the notes that nobody hit in time.

use crate::chart::{PlaySettings, SessionContext};
use crate::laser::{Note, Rgb};
use crate::units::{div_floor, MILLION};
use vstd::prelude::*;
use vstd::seq_lib::{
    lemma_multiset_commutative, to_multiset_build, to_multiset_contains, to_multiset_insert,
    to_multiset_remove,
};

verus! {

/// A press closer than this to a note's time is perfect. In microseconds.
pub const PERFECT_WINDOW: i64 = 40_000;

/// A press closer than this to a note's time is near. A note that is later than
/// this can no longer be hit. In microseconds.
pub const NEAR_WINDOW: i64 = 80_000;

/// A press earlier than this before a note's time does not reach the note. In
/// microseconds.
pub const EARLY_MISS_WINDOW: i64 = 150_000;

/// The quality of a hit.
#[derive(Copy, Clone, Debug, PartialEq, Eq, Structural)]
pub enum Grade {
    Perfect,
    Near,
    Miss,
}

/// The outcome for one note: its grade, and the note as it was when it was
/// retired.
#[derive(Copy, Clone, Debug, PartialEq, Eq, Structural)]
pub struct Verdict {
    pub grade: Grade,
    pub note: Note,
}

/// A key changed state. Only presses are judged.
#[derive(Copy, Clone, Debug, PartialEq, Eq, Structural)]
pub struct KeyEvent {
    pub scancode: u32,
    pub pressed: bool,
}

/// The grade of a hit on a note that is `diff` microseconds away, where a
/// positive `diff` is an early press.
pub open spec fn grade_for(diff: int) -> Grade {
    if -PERFECT_WINDOW < diff < PERFECT_WINDOW {
        Grade::Perfect
    } else if -NEAR_WINDOW < diff < NEAR_WINDOW {
        Grade::Near
    } else {
        Grade::Miss
    }
}

/// A note that is `diff` microseconds away can answer a press.
pub open spec fn eligible(diff: int) -> bool {
    -NEAR_WINDOW <= diff < EARLY_MISS_WINDOW
}

/// A note at `time` can no longer be hit at input time `now`.
pub open spec fn expired(time: int, now: int) -> bool {
    time + NEAR_WINDOW < now
}

/// A hundred times the squared distance between two points that are `dx` and
/// `dy` apart, where the vertical axis counts three tenths of the horizontal.
pub open spec fn metric(dx: int, dy: int) -> int {
    100 * (dx * dx) + 9 * (dy * dy)
}

/// What a note is ranked by when several answer a press: distance first, then
/// closeness in time, then chart time, then position in the chart.
pub struct Rank {
    pub metric: int,
    pub timing_error: int,
    pub time: int,
    pub index: int,
}

impl Rank {
    /// `self` is strictly better than `other`.
    pub open spec fn beats(self, other: Rank) -> bool {
        ||| self.metric < other.metric
        ||| self.metric == other.metric && self.timing_error < other.timing_error
        ||| self.metric == other.metric && self.timing_error == other.timing_error && self.time
            < other.time
        ||| self.metric == other.metric && self.timing_error == other.timing_error && self.time
            == other.time && self.index < other.index
    }
}

/// The distance in time between a note and an input, without its sign.
pub open spec fn timing_error(diff: int) -> int {
    if diff < 0 {
        -diff
    } else {
        diff
    }
}

/// The rank of `note` for a press at the point `input` at input time `now`.
pub open spec fn rank_of(note: Note, input: (i64, i64), now: int) -> Rank {
    Rank {
        metric: metric(input.0 - note.spec_centre(), input.1 - note.y),
        timing_error: timing_error(note.time - now),
        time: note.time as int,
        index: note.index as int,
    }
}

/// `note` answers a press at `input` at input time `now`: it is close enough
/// in time and no farther away than `threshold` allows.
pub open spec fn answers(note: Note, input: (i64, i64), now: int, threshold: int) -> bool {
    eligible(note.time - now) && rank_of(note, input, now).metric <= 100 * threshold
}

/// Among the first `n` live notes, the one at `i` is the note to judge: it
/// answers the press, it is strictly better than every answering note in front
/// of it, and no answering note behind it is better.
pub open spec fn is_choice_among(
    live: Seq<Note>,
    n: int,
    i: int,
    input: (i64, i64),
    now: int,
    threshold: int,
) -> bool {
    &&& 0 <= i < n <= live.len()
    &&& answers(live[i], input, now, threshold)
    &&& forall|j: int|
        0 <= j < i && answers(#[trigger] live[j], input, now, threshold) ==> rank_of(
            live[i],
            input,
            now,
        ).beats(rank_of(live[j], input, now))
    &&& forall|j: int|
        i < j < n && answers(#[trigger] live[j], input, now, threshold) ==> !rank_of(
            live[j],
            input,
            now,
        ).beats(rank_of(live[i], input, now))
}

/// The live note at `i` is the note to judge for this press.
pub open spec fn is_choice(
    live: Seq<Note>,
    i: int,
    input: (i64, i64),
    now: int,
    threshold: int,
) -> bool {
    is_choice_among(live, live.len() as int, i, input, now, threshold)
}

/// The position of the note to judge for a press at `input`, if any note
/// answers it.
pub open spec fn choice(live: Seq<Note>, input: (i64, i64), now: int, threshold: int) -> Option<
    int,
> {
    if exists|i: int| is_choice(live, i, input, now, threshold) {
        Some(choose|i: int| is_choice(live, i, input, now, threshold))
    } else {
        None
    }
}

/// At most one live note is the note to judge.
pub proof fn lemma_choice_is_unique(
    live: Seq<Note>,
    i: int,
    j: int,
    input: (i64, i64),
    now: int,
    threshold: int,
)
    requires
        is_choice(live, i, input, now, threshold),
        is_choice(live, j, input, now, threshold),
    ensures
        i == j,
{
    if i < j {
        assert(rank_of(live[j], input, now).beats(rank_of(live[i], input, now)));
    } else if j < i {
        assert(rank_of(live[i], input, now).beats(rank_of(live[j], input, now)));
    }
}

impl Verdict {
    /// Where on the playfield the verdict is shown: the centre of the note.
    pub fn position(&self) -> (p: (i128, i32))
        ensures
            p.0 == self.note.spec_centre(),
            p.1 == self.note.y,
    {
        (self.note.centre(), self.note.y)
    }
}

impl Grade {
    /// The grade of a hit that is `diff` microseconds away from its note.
    pub fn of(diff: i128) -> (g: Grade)
        ensures
            g == grade_for(diff as int),
    {
        if -(PERFECT_WINDOW as i128) < diff && diff < PERFECT_WINDOW as i128 {
            Grade::Perfect
        } else if -(NEAR_WINDOW as i128) < diff && diff < NEAR_WINDOW as i128 {
            Grade::Near
        } else {
            Grade::Miss
        }
    }

    /// The colour in which the grade is shown.
    pub fn color(&self) -> (c: Rgb)
        ensures
            c == match *self {
                Grade::Perfect => (Rgb { r: 800_000, g: 0, b: 800_000 }),
                Grade::Near => (Rgb { r: 0, g: 100_000, b: 800_000 }),
                Grade::Miss => (Rgb { r: 900_000, g: 0, b: 200_000 }),
            },
    {
        match self {
            Grade::Perfect => Rgb { r: 800_000, g: 0, b: 800_000 },
            Grade::Near => Rgb { r: 0, g: 100_000, b: 800_000 },
            Grade::Miss => Rgb { r: 900_000, g: 0, b: 200_000 },
        }
    }

    /// The word with which the grade is shown.
    pub fn text(&self) -> (t: &'static str)
        ensures
            t@ == match *self {
                Grade::Perfect => "PERFECT"@,
                Grade::Near => "NEAR"@,
                Grade::Miss => "MISS"@,
            },
    {
        match self {
            Grade::Perfect => "PERFECT",
            Grade::Near => "NEAR",
            Grade::Miss => "MISS",
        }
    }
}

/// A square is not negative, and it compares with the square of `reach` as the
/// number compares with `reach`.
proof fn lemma_square_against_reach(d: int, reach: int)
    by (nonlinear_arith)
    requires
        reach > 0,
    ensures
        d * d >= 0,
        d >= reach || d <= -reach ==> d * d >= reach * reach,
        -reach < d < reach ==> d * d < reach * reach,
{
}

/// The distance of `note` from `input`, if `threshold` allows it.
fn measure(note: &Note, input: (i64, i64), threshold: i64) -> (r: Option<i128>)
    ensures
        match r {
            Some(m) => m == metric(input.0 - note.spec_centre(), input.1 - note.y) && m <= 100
                * threshold,
            None => metric(input.0 - note.spec_centre(), input.1 - note.y) > 100 * threshold,
        },
{
    let dx: i128 = input.0 as i128 - note.centre();
    let dy: i128 = input.1 as i128 - note.y as i128;
    // A note that is `reach` or more away on either axis is beyond every
    // threshold; for the others the squares below cannot overflow.
    let reach: i128 = 0x8_0000_0000;
    proof {
        lemma_square_against_reach(dx as int, reach as int);
        lemma_square_against_reach(dy as int, reach as int);
        assert(reach * reach == 0x40_0000_0000_0000_0000) by (nonlinear_arith)
            requires
                reach == 0x8_0000_0000,
        ;
    }
    if threshold < 0 || dx >= reach || dx <= -reach || dy >= reach || dy <= -reach {
        return None;
    }
    let m: i128 = 100 * (dx * dx) + 9 * (dy * dy);
    if m <= 100 * (threshold as i128) {
        Some(m)
    } else {
        None
    }
}

/// Every input time lies within this span of zero, whatever the clock and
/// the settings are.
pub const INPUT_TIME_SPAN: i128 = 0x2_0000_0000_0000_0000;

/// The position in `live` of the note to judge for a press at the point
/// `input` at input time `now`, if any note answers it.
///
/// The note that answers from the smallest distance is chosen; among equally
/// distant notes the one closest in time, then the one that is earlier in the
/// chart.
pub fn select(live: &Vec<Note>, input: (i64, i64), now: i128, threshold: i64) -> (r: Option<
    usize,
>)
    requires
        -INPUT_TIME_SPAN <= now <= INPUT_TIME_SPAN,
    ensures
        match r {
            Some(i) => choice(live@, input, now as int, threshold as int) == Some(i as int),
            None => choice(live@, input, now as int, threshold as int) is None,
        },
        r is None <==> forall|j: int|
            0 <= j < live@.len() ==> !answers(#[trigger] live@[j], input, now as int, threshold as int),
{
    let mut best: Option<usize> = None;
    let mut best_metric: i128 = 0;
    let mut best_error: i128 = 0;
    let mut k: usize = 0;
    while k < live.len()
        invariant
            k <= live@.len(),
            -INPUT_TIME_SPAN <= now <= INPUT_TIME_SPAN,
            match best {
                Some(b) => {
                    &&& is_choice_among(live@, k as int, b as int, input, now as int, threshold as int)
                    &&& best_metric == rank_of(live@[b as int], input, now as int).metric
                    &&& best_error == rank_of(live@[b as int], input, now as int).timing_error
                },
                None => forall|j: int|
                    0 <= j < k ==> !answers(
                        #[trigger] live@[j],
                        input,
                        now as int,
                        threshold as int,
                    ),
            },
        decreases live@.len() - k,
    {
        let note = &live[k];
        let diff: i128 = note.time as i128 - now;
        if -(NEAR_WINDOW as i128) <= diff && diff < EARLY_MISS_WINDOW as i128 {
            if let Some(m) = measure(note, input, threshold) {
                let error: i128 = if diff < 0 {
                    -diff
                } else {
                    diff
                };
                let better = match best {
                    None => true,
                    Some(b) => {
                        let held = &live[b];
                        m < best_metric || (m == best_metric && (error < best_error || (error
                            == best_error && (note.time < held.time || (note.time == held.time
                            && note.index < held.index)))))
                    },
                };
                if better {
                    best = Some(k);
                    best_metric = m;
                    best_error = error;
                }
            }
        }
        k += 1;
    }
    proof {
        match best {
            Some(b) => {
                assert(is_choice(live@, b as int, input, now as int, threshold as int));
                let c = choose|i: int| is_choice(live@, i, input, now as int, threshold as int);
                lemma_choice_is_unique(live@, c, b as int, input, now as int, threshold as int);
            },
            None => {},
        }
    }
    best
}

/// `a` stands at or in front of `b` in the key table: entries are ordered by
/// key, then by horizontal and by vertical coordinate.
pub open spec fn entry_le(a: (u32, (i64, i64)), b: (u32, (i64, i64))) -> bool {
    ||| a.0 < b.0
    ||| a.0 == b.0 && a.1.0 < b.1.0
    ||| a.0 == b.0 && a.1.0 == b.1.0 && a.1.1 <= b.1.1
}

/// The table is in ascending order.
pub open spec fn ordered(table: Seq<(u32, (i64, i64))>) -> bool {
    forall|i: int, j: int| 0 <= i <= j < table.len() ==> entry_le(table[i], table[j])
}

/// One row of a keyboard layout: its keys from left to right, the first of
/// them `offset` to the right of the layout's left edge. `offset` is in
/// millionths of the width of a key.
#[derive(Debug, Default)]
pub struct ScancodeRow {
    pub offset: i32,
    pub keys: Vec<u32>,
}

/// A keyboard layout: its rows from top to bottom.
#[derive(Debug, Default)]
pub struct ScancodeMap {
    /// The width of the layout, in millionths of the width of a key. The key
    /// table does not depend on it: each row is scaled by its own length.
    pub width: i32,
    pub rows: Vec<ScancodeRow>,
}

impl ScancodeMap {
    /// The point that the key at position `j` of row `i` stands for.
    /// Horizontally a row is scaled by the number of its keys, vertically the
    /// layout by the number of its rows; both coordinates are in millionths and
    /// rounded down.
    pub open spec fn key_point(&self, i: int, j: int) -> (i64, i64) {
        let row = self.rows@[i];
        (
            ((row.offset + j * MILLION) / (row.keys@.len() as int)) as i64,
            ((i * MILLION) / (self.rows@.len() as int)) as i64,
        )
    }

    /// The entries for the keys of row `i`, from left to right.
    pub open spec fn row_entries(&self, i: int) -> Seq<(u32, (i64, i64))> {
        Seq::new(self.rows@[i].keys@.len(), |j: int| (self.rows@[i].keys@[j], self.key_point(i, j)))
    }

    /// The entries for the keys of the first `n` rows, row by row.
    pub open spec fn entries_of_rows(&self, n: int) -> Seq<(u32, (i64, i64))>
        decreases n,
    {
        if n <= 0 {
            Seq::empty()
        } else {
            self.entries_of_rows(n - 1) + self.row_entries(n - 1)
        }
    }

    /// The entries for all keys of the layout, in the order of the layout.
    pub open spec fn entries(&self) -> Seq<(u32, (i64, i64))> {
        self.entries_of_rows(self.rows@.len() as int)
    }

    /// The key table of the layout: an entry for each key, in ascending order.
    pub fn into_mapping(self) -> (table: Vec<(u32, (i64, i64))>)
        ensures
            ordered(table@),
            table@.to_multiset() == self.entries().to_multiset(),
    {
        let mut table: Vec<(u32, (i64, i64))> = Vec::new();
        let height = self.rows.len();
        let ghost mut done: Seq<(u32, (i64, i64))> = Seq::empty();
        let mut i: usize = 0;
        while i < height
            invariant
                i <= height == self.rows@.len(),
                ordered(table@),
                table@.to_multiset() == done.to_multiset(),
                done == self.entries_of_rows(i as int),
            decreases height - i,
        {
            let row = &self.rows[i];
            let width = row.keys.len();
            let y = ((i as u128 * MILLION as u128) / height as u128) as i64;
            let ghost before = done;
            let mut j: usize = 0;
            assert(self.row_entries(i as int).take(0) =~= Seq::empty());
            assert(before + Seq::<(u32, (i64, i64))>::empty() =~= before);
            while j < width
                invariant
                    i < height == self.rows@.len(),
                    j <= width == self.rows@[i as int].keys@.len(),
                    *row == self.rows@[i as int],
                    y == self.key_point(i as int, 0).1,
                    ordered(table@),
                    table@.to_multiset() == done.to_multiset(),
                    done == before + self.row_entries(i as int).take(j as int),
                decreases width - j,
            {
                let x = div_floor(
                    row.offset as i128 + j as i128 * MILLION as i128,
                    width as i128,
                ) as i64;
                let entry = (row.keys[j], (x, y));
                proof {
                    let entries = self.row_entries(i as int);
                    assert(entry == entries[j as int]);
                    assert(entries.take(j + 1) =~= entries.take(j as int).push(entry));
                    assert(before + entries.take(j + 1) =~= done.push(entry));
                    to_multiset_build(done, entry);
                    done = done.push(entry);
                }
                insert_in_order(&mut table, entry);
                j += 1;
            }
            proof {
                assert(self.row_entries(i as int).take(width as int) =~= self.row_entries(i as int));
            }
            i += 1;
        }
        table
    }
}

/// Whether `a` stands strictly in front of `b` in the key table.
fn precedes(a: &(u32, (i64, i64)), b: &(u32, (i64, i64))) -> (r: bool)
    ensures
        r == !entry_le(*b, *a),
{
    a.0 < b.0 || (a.0 == b.0 && (a.1.0 < b.1.0 || (a.1.0 == b.1.0 && a.1.1 < b.1.1)))
}

/// Puts `entry` into the table at its place in the order.
fn insert_in_order(table: &mut Vec<(u32, (i64, i64))>, entry: (u32, (i64, i64)))
    requires
        ordered(old(table)@),
    ensures
        ordered(final(table)@),
        final(table)@.to_multiset() == old(table)@.to_multiset().insert(entry),
{
    let mut place: usize = 0;
    while place < table.len() && precedes(&table[place], &entry)
        invariant
            place <= table@.len(),
            table@ == old(table)@,
            forall|i: int| 0 <= i < place ==> !entry_le(entry, #[trigger] table@[i]),
        decreases table@.len() - place,
    {
        place += 1;
    }
    proof {
        to_multiset_insert(table@, place as int, entry);
        let after = table@.insert(place as int, entry);
        assert forall|i: int, j: int| 0 <= i <= j < after.len() implies entry_le(
            after[i],
            after[j],
        ) by {
            if j < place {
                assert(entry_le(table@[i], table@[j]));
            } else if j == place {
                if i < place {
                    assert(!entry_le(entry, table@[i]));
                }
            } else {
                assert(entry_le(entry, table@[place as int]));
                assert(entry_le(table@[place as int], table@[j - 1]));
                if i < place {
                    assert(entry_le(table@[i], table@[j - 1]));
                } else if i > place {
                    assert(entry_le(table@[i - 1], table@[j - 1]));
                }
            }
        }
    }
    table.insert(place, entry);
}

/// What a judge is built from.
#[derive(Debug, Default)]
pub struct JudgeSystemDesc {
    pub mapping: ScancodeMap,
}

impl JudgeSystemDesc {
    /// The judge for the layout.
    pub fn build(self) -> (judge: JudgeSystem)
        ensures
            ordered(judge.table()),
            judge.table().to_multiset() == self.mapping.entries().to_multiset(),
    {
        JudgeSystem { mapping: self.mapping.into_mapping() }
    }
}

/// The entry at `i` is the first entry of the table for the key `key`.
pub open spec fn is_first_for(table: Seq<(u32, (i64, i64))>, key: u32, i: int) -> bool {
    &&& 0 <= i < table.len()
    &&& table[i].0 == key
    &&& forall|j: int| 0 <= j < i ==> (#[trigger] table[j]).0 != key
}

/// The point on the playfield that the key `key` stands for: the coordinates
/// of the first entry for that key, if the table has one.
pub open spec fn find(table: Seq<(u32, (i64, i64))>, key: u32) -> Option<(i64, i64)> {
    if exists|i: int| is_first_for(table, key, i) {
        Some(table[choose|i: int| is_first_for(table, key, i)].1)
    } else {
        None
    }
}

/// The live notes and the verdict after one key event: a press on a mapped key
/// retires the note to judge, if there is one, with the grade that its
/// distance in time earns. Anything else changes nothing.
pub open spec fn after_event(
    table: Seq<(u32, (i64, i64))>,
    live: Seq<Note>,
    event: KeyEvent,
    now: int,
    threshold: int,
) -> (Seq<Note>, Option<Verdict>) {
    if !event.pressed {
        (live, None)
    } else {
        match find(table, event.scancode) {
            None => (live, None),
            Some(input) => match choice(live, input, now, threshold) {
                None => (live, None),
                Some(i) => (
                    live.remove(i),
                    Some(Verdict { grade: grade_for(live[i].time - now), note: live[i] }),
                ),
            },
        }
    }
}

/// The live notes and the verdicts after a run of key events, taken in order.
pub open spec fn after_events(
    table: Seq<(u32, (i64, i64))>,
    live: Seq<Note>,
    events: Seq<KeyEvent>,
    now: int,
    threshold: int,
) -> (Seq<Note>, Seq<Verdict>)
    decreases events.len(),
{
    if events.len() == 0 {
        (live, Seq::empty())
    } else {
        let (left, verdicts) = after_events(table, live, events.drop_last(), now, threshold);
        let (rest, verdict) = after_event(table, left, events.last(), now, threshold);
        (
            rest,
            match verdict {
                Some(v) => verdicts.push(v),
                None => verdicts,
            },
        )
    }
}

/// The live notes that can still be hit at input time `now`.
pub open spec fn survivors(live: Seq<Note>, now: int) -> Seq<Note> {
    live.filter(|note: Note| !expired(note.time as int, now))
}

/// The verdict for a note that nobody hit.
pub open spec fn miss_for(note: Note) -> Verdict {
    Verdict { grade: Grade::Miss, note }
}

/// A miss for each live note that can no longer be hit at input time `now`.
pub open spec fn misses(live: Seq<Note>, now: int) -> Seq<Verdict> {
    live.filter(|note: Note| expired(note.time as int, now)).map_values(
        |note: Note| miss_for(note),
    )
}

/// The live notes and the verdicts after one tick of the judge: the key events
/// are judged in order, then every note that can no longer be hit is retired
/// with a miss.
pub open spec fn judged(
    table: Seq<(u32, (i64, i64))>,
    live: Seq<Note>,
    events: Seq<KeyEvent>,
    now: int,
    threshold: int,
) -> (Seq<Note>, Seq<Verdict>) {
    let (left, hits) = after_events(table, live, events, now, threshold);
    (survivors(left, now), hits + misses(left, now))
}

/// Judges key presses against the live notes.
#[derive(Debug)]
pub struct JudgeSystem {
    mapping: Vec<(u32, (i64, i64))>,
}

impl JudgeSystem {
    #[verifier::type_invariant]
    spec fn table_is_ordered(self) -> bool {
        ordered(self.mapping@)
    }

    /// The key table: for each mapped key the point it stands for, in
    /// ascending order.
    pub closed spec fn table(&self) -> Seq<(u32, (i64, i64))> {
        self.mapping@
    }

    /// The key table.
    pub fn mapping(&self) -> (m: &Vec<(u32, (i64, i64))>)
        ensures
            m@ == self.table(),
            ordered(m@),
    {
        proof {
            use_type_invariant(self);
        }
        &self.mapping
    }

    /// The point on the playfield that the key `key` stands for, if it is
    /// mapped.
    pub fn lookup(&self, key: u32) -> (r: Option<(i64, i64)>)
        ensures
            r == find(self.table(), key),
    {
        proof {
            use_type_invariant(self);
        }
        let table = &self.mapping;
        let mut low: usize = 0;
        let mut high: usize = table.len();
        while low < high
            invariant
                low <= high <= table@.len(),
                ordered(table@),
                forall|i: int| 0 <= i < low ==> (#[trigger] table@[i]).0 < key,
                forall|i: int| high <= i < table@.len() ==> (#[trigger] table@[i]).0 >= key,
            decreases high - low,
        {
            let middle = low + (high - low) / 2;
            if table[middle].0 < key {
                assert forall|i: int| 0 <= i < middle + 1 implies (#[trigger] table@[i]).0 < key by {
                    assert(entry_le(table@[i], table@[middle as int]));
                }
                low = middle + 1;
            } else {
                assert forall|i: int| middle <= i < table@.len() implies (#[trigger] table@[i]).0
                    >= key by {
                    assert(entry_le(table@[middle as int], table@[i]));
                }
                high = middle;
            }
        }
        if low < table.len() && table[low].0 == key {
            proof {
                assert(is_first_for(table@, key, low as int));
                let c = choose|i: int| is_first_for(table@, key, i);
                assert(c == low) by {
                    if c < low {
                        assert(table@[c].0 < key);
                    }
                }
            }
            Some(table[low].1)
        } else {
            proof {
                assert forall|i: int| !is_first_for(table@, key, i) by {
                    if 0 <= i < table@.len() {
                        if i < low {
                            assert(table@[i].0 < key);
                        } else {
                            assert(entry_le(table@[low as int], table@[i]));
                        }
                    }
                }
            }
            None
        }
    }

    /// Judges one key event at clock time `clock`.
    pub fn press(
        &self,
        event: KeyEvent,
        clock: i64,
        settings: &PlaySettings,
        live: &mut Vec<Note>,
    ) -> (verdict: Option<Verdict>)
        ensures
            (final(live)@, verdict) == after_event(
                self.table(),
                old(live)@,
                event,
                settings.input_time(clock),
                settings.norm_threshold as int,
            ),
    {
        if !event.pressed {
            return None;
        }
        let now = settings.input_time_at(clock);
        match self.lookup(event.scancode) {
            None => None,
            Some(input) => match select(live, input, now, settings.norm_threshold) {
                None => None,
                Some(i) => {
                    let note = live.remove(i);
                    Some(Verdict { grade: Grade::of(note.time as i128 - now), note })
                },
            },
        }
    }
}

impl JudgeSystem {
    /// One tick of the judge at clock time `clock`.
    ///
    /// Without a session nothing happens. Otherwise the key events are judged
    /// in the order in which they arrived, and then every note that can no
    /// longer be hit is retired with a miss. The verdicts come back in the
    /// order in which they were reached.
    pub fn run(
        &self,
        clock: i64,
        session: &Option<SessionContext>,
        events: &Vec<KeyEvent>,
        live: &mut Vec<Note>,
    ) -> (verdicts: Vec<Verdict>)
        ensures
            match *session {
                None => final(live)@ == old(live)@ && verdicts@ == Seq::<Verdict>::empty(),
                Some(s) => {
                    &&& final(live)@ == judged(
                        self.table(),
                        old(live)@,
                        events@,
                        s.settings.input_time(clock),
                        s.settings.norm_threshold as int,
                    ).0
                    &&& verdicts@ == judged(
                        self.table(),
                        old(live)@,
                        events@,
                        s.settings.input_time(clock),
                        s.settings.norm_threshold as int,
                    ).1
                },
            },
    {
        let mut verdicts: Vec<Verdict> = Vec::new();
        let settings = match session {
            None => {
                return verdicts;
            },
            Some(s) => &s.settings,
        };
        let ghost now = settings.input_time(clock);
        let ghost threshold = settings.norm_threshold as int;
        let mut k: usize = 0;
        assert(events@.take(0) =~= Seq::<KeyEvent>::empty());
        while k < events.len()
            invariant
                k <= events@.len(),
                now == settings.input_time(clock),
                threshold == settings.norm_threshold as int,
                live@ == after_events(
                    self.table(),
                    old(live)@,
                    events@.take(k as int),
                    now,
                    threshold,
                ).0,
                verdicts@ == after_events(
                    self.table(),
                    old(live)@,
                    events@.take(k as int),
                    now,
                    threshold,
                ).1,
            decreases events@.len() - k,
        {
            proof {
                assert(events@.take(k + 1).drop_last() =~= events@.take(k as int));
                assert(events@.take(k + 1).last() == events@[k as int]);
            }
            if let Some(verdict) = self.press(events[k], clock, settings, live) {
                verdicts.push(verdict);
            }
            k += 1;
        }
        assert(events@.take(k as int) =~= events@);
        let mut late = expire(clock, settings, live);
        verdicts.append(&mut late);
        verdicts
    }
}

/// Retires every live note that can no longer be hit at clock time `clock`,
/// each with a miss.
pub fn expire(clock: i64, settings: &PlaySettings, live: &mut Vec<Note>) -> (verdicts: Vec<Verdict>)
    ensures
        final(live)@ == survivors(old(live)@, settings.input_time(clock)),
        verdicts@ == misses(old(live)@, settings.input_time(clock)),
{
    let now = settings.input_time_at(clock);
    let ghost keep = |note: Note| !expired(note.time as int, now as int);
    let ghost gone = |note: Note| expired(note.time as int, now as int);
    let ghost miss = |note: Note| miss_for(note);
    let mut kept: Vec<Note> = Vec::new();
    let mut verdicts: Vec<Verdict> = Vec::new();
    let mut k: usize = 0;
    assert(live@.take(0) =~= Seq::<Note>::empty());
    while k < live.len()
        invariant
            k <= live@.len(),
            now == settings.input_time(clock),
            keep == |note: Note| !expired(note.time as int, now as int),
            gone == |note: Note| expired(note.time as int, now as int),
            miss == |note: Note| miss_for(note),
            kept@ == live@.take(k as int).filter(keep),
            verdicts@ == live@.take(k as int).filter(gone).map_values(miss),
        decreases live@.len() - k,
    {
        let note = live[k];
        proof {
            assert(live@.take(k + 1) =~= live@.take(k as int).push(note));
            live@.take(k as int).lemma_filter_push(note, keep);
            live@.take(k as int).lemma_filter_push(note, gone);
        }
        if (note.time as i128) + (NEAR_WINDOW as i128) < now {
            verdicts.push(Verdict { grade: Grade::Miss, note });
            assert(verdicts@ =~= live@.take(k + 1).filter(gone).map_values(miss));
        } else {
            kept.push(note);
        }
        k += 1;
    }
    assert(live@.take(k as int) =~= live@);
    *live = kept;
    verdicts
}

/// The windows lie inside one another: a perfect hit is also within the near
/// window, a hit within the near window is within reach of a press, and a note
/// that has run out of time is out of reach. So a note is never both hit and
/// retired for running out of time.
pub proof fn lemma_windows_nest(time: int, now: int)
    ensures
        grade_for(time - now) == Grade::Perfect ==> -NEAR_WINDOW < time - now < NEAR_WINDOW,
        grade_for(time - now) != Grade::Miss ==> eligible(time - now),
        expired(time, now) ==> !eligible(time - now),
        expired(time, now) ==> grade_for(time - now) == Grade::Miss,
{
}

/// The key table of a layout is determined by the layout: two tables in
/// ascending order that hold the same entries are the same table.
pub proof fn lemma_ordered_table_is_unique(
    a: Seq<(u32, (i64, i64))>,
    b: Seq<(u32, (i64, i64))>,
)
    requires
        ordered(a),
        ordered(b),
        a.to_multiset() == b.to_multiset(),
    ensures
        a == b,
    decreases a.len(),
{
    vstd::seq_lib::to_multiset_len(a);
    vstd::seq_lib::to_multiset_len(b);
    if a.len() == 0 {
        assert(a =~= b);
    } else {
        assert(a.contains(a[0]));
        to_multiset_contains(a, a[0]);
        to_multiset_contains(b, a[0]);
        let in_b = choose|k: int| 0 <= k < b.len() && b[k] == a[0];
        assert(entry_le(b[0], b[in_b]));
        assert(b.contains(b[0]));
        to_multiset_contains(b, b[0]);
        to_multiset_contains(a, b[0]);
        let in_a = choose|k: int| 0 <= k < a.len() && a[k] == b[0];
        assert(entry_le(a[0], a[in_a]));
        assert(a[0] == b[0]);
        to_multiset_remove(a, 0);
        to_multiset_remove(b, 0);
        let rest_a = a.remove(0);
        let rest_b = b.remove(0);
        assert forall|i: int, j: int| 0 <= i <= j < rest_a.len() implies entry_le(
            rest_a[i],
            rest_a[j],
        ) by {
            assert(entry_le(a[i + 1], a[j + 1]));
        }
        assert forall|i: int, j: int| 0 <= i <= j < rest_b.len() implies entry_le(
            rest_b[i],
            rest_b[j],
        ) by {
            assert(entry_le(b[i + 1], b[j + 1]));
        }
        lemma_ordered_table_is_unique(rest_a, rest_b);
        assert forall|i: int| 0 <= i < a.len() implies a[i] == b[i] by {
            if i > 0 {
                assert(a[i] == rest_a[i - 1]);
                assert(b[i] == rest_b[i - 1]);
            }
        }
        assert(a =~= b);
    }
}

/// A key is mapped exactly when the table holds an entry for it, and then it
/// stands for the point of one of its entries.
pub proof fn lemma_find_reaches_every_key(table: Seq<(u32, (i64, i64))>, key: u32)
    ensures
        find(table, key) is Some <==> exists|i: int|
            0 <= i < table.len() && (#[trigger] table[i]).0 == key,
        find(table, key) matches Some(point) ==> table.contains((key, point)),
{
    if exists|i: int| 0 <= i < table.len() && (#[trigger] table[i]).0 == key {
        let some = choose|i: int| 0 <= i < table.len() && (#[trigger] table[i]).0 == key;
        lemma_first_entry_exists(table, key, some);
    }
    if find(table, key) is Some {
        let first = choose|i: int| is_first_for(table, key, i);
        assert(table[first] == (key, table[first].1));
    }
}

/// When the entry at `i` is for `key`, some entry at or in front of `i` is the
/// first for `key`.
proof fn lemma_first_entry_exists(table: Seq<(u32, (i64, i64))>, key: u32, i: int)
    requires
        0 <= i < table.len(),
        table[i].0 == key,
    ensures
        exists|k: int| is_first_for(table, key, k),
    decreases i,
{
    if exists|j: int| 0 <= j < i && (#[trigger] table[j]).0 == key {
        let j = choose|j: int| 0 <= j < i && (#[trigger] table[j]).0 == key;
        lemma_first_entry_exists(table, key, j);
    } else {
        assert(is_first_for(table, key, i));
    }
}

/// The notes that the verdicts are about, in the order of the verdicts.
pub open spec fn notes_of(verdicts: Seq<Verdict>) -> Seq<Note> {
    verdicts.map_values(|verdict: Verdict| verdict.note)
}

/// Whenever a note among the first `n` answers a press, one of them is the
/// note to judge.
pub proof fn lemma_choice_exists(
    live: Seq<Note>,
    n: int,
    input: (i64, i64),
    now: int,
    threshold: int,
)
    requires
        0 <= n <= live.len(),
        exists|j: int| 0 <= j < n && answers(#[trigger] live[j], input, now, threshold),
    ensures
        exists|i: int| is_choice_among(live, n, i, input, now, threshold),
    decreases n,
{
    let last = n - 1;
    if exists|j: int| 0 <= j < last && answers(#[trigger] live[j], input, now, threshold) {
        lemma_choice_exists(live, last, input, now, threshold);
        let held = choose|i: int| is_choice_among(live, last, i, input, now, threshold);
        if answers(live[last], input, now, threshold) && rank_of(live[last], input, now).beats(
            rank_of(live[held], input, now),
        ) {
            assert(is_choice_among(live, n, last, input, now, threshold));
        } else {
            assert(is_choice_among(live, n, held, input, now, threshold));
        }
    } else {
        assert(is_choice_among(live, n, last, input, now, threshold));
    }
}

/// The note to judge is the best of the notes that answer the press: it
/// answers, and no note that answers ranks in front of it. A press is left
/// without a note only when no note answers it.
pub proof fn lemma_choice_is_best(live: Seq<Note>, input: (i64, i64), now: int, threshold: int)
    ensures
        match choice(live, input, now, threshold) {
            Some(i) => {
                &&& 0 <= i < live.len()
                &&& answers(live[i], input, now, threshold)
                &&& forall|j: int|
                    0 <= j < live.len() && answers(#[trigger] live[j], input, now, threshold)
                        ==> !rank_of(live[j], input, now).beats(rank_of(live[i], input, now))
            },
            None => forall|j: int|
                0 <= j < live.len() ==> !answers(#[trigger] live[j], input, now, threshold),
        },
{
    if exists|j: int| 0 <= j < live.len() && answers(#[trigger] live[j], input, now, threshold) {
        lemma_choice_exists(live, live.len() as int, input, now, threshold);
        let found = choose|i: int|
            is_choice_among(live, live.len() as int, i, input, now, threshold);
        assert(is_choice(live, found, input, now, threshold));
    }
    match choice(live, input, now, threshold) {
        Some(i) => {
            assert(is_choice(live, i, input, now, threshold));
            assert forall|j: int|
                0 <= j < live.len() && answers(#[trigger] live[j], input, now, threshold)
                implies !rank_of(live[j], input, now).beats(rank_of(live[i], input, now)) by {
                if j < i {
                    assert(rank_of(live[i], input, now).beats(rank_of(live[j], input, now)));
                }
            }
        },
        None => {},
    }
}

/// The order of the live notes does not decide which note is judged: two
/// live sets that hold the same notes either both leave the press without a
/// note, or give it notes of the same rank. Notes of the same rank stand at
/// the same position of the chart.
pub proof fn lemma_choice_ignores_order(
    first: Seq<Note>,
    second: Seq<Note>,
    input: (i64, i64),
    now: int,
    threshold: int,
)
    requires
        first.to_multiset() == second.to_multiset(),
    ensures
        match (choice(first, input, now, threshold), choice(second, input, now, threshold)) {
            (Some(i), Some(j)) => rank_of(first[i], input, now) == rank_of(second[j], input, now),
            (None, None) => true,
            _ => false,
        },
{
    lemma_choice_is_best(first, input, now, threshold);
    lemma_choice_is_best(second, input, now, threshold);
    match choice(first, input, now, threshold) {
        Some(i) => {
            let a = first[i];
            assert(first.contains(a));
            to_multiset_contains(first, a);
            to_multiset_contains(second, a);
            let at = choose|k: int| 0 <= k < second.len() && second[k] == a;
            assert(answers(second[at], input, now, threshold));
            let j = choice(second, input, now, threshold)->Some_0;
            let b = second[j];
            assert(second.contains(b));
            to_multiset_contains(second, b);
            to_multiset_contains(first, b);
            let back = choose|k: int| 0 <= k < first.len() && first[k] == b;
            assert(answers(first[back], input, now, threshold));
            assert(!rank_of(a, input, now).beats(rank_of(b, input, now)));
            assert(!rank_of(b, input, now).beats(rank_of(a, input, now)));
        },
        None => {
            match choice(second, input, now, threshold) {
                Some(j) => {
                    let b = second[j];
                    assert(second.contains(b));
                    to_multiset_contains(second, b);
                    to_multiset_contains(first, b);
                    let back = choose|k: int| 0 <= k < first.len() && first[k] == b;
                    assert(answers(first[back], input, now, threshold));
                },
                None => {},
            }
        },
    }
}

/// Adding the notes of an empty sequence to a live set leaves it as it is.
proof fn lemma_nothing_adds_nothing(live: Seq<Note>, nothing: Seq<Note>)
    requires
        nothing.len() == 0,
    ensures
        live.to_multiset() == live.to_multiset().add(nothing.to_multiset()),
{
    broadcast use vstd::multiset::group_multiset_axioms;

    vstd::seq_lib::to_multiset_len(nothing);
    assert(nothing.to_multiset() =~= vstd::multiset::Multiset::<Note>::empty());
    assert(live.to_multiset() =~= live.to_multiset().add(nothing.to_multiset()));
}

/// A key event retires at most one note, and the verdict is about that note.
/// The notes that were live are the notes that are still live together with
/// the note that the verdict is about.
pub proof fn lemma_event_accounts_for_notes(
    table: Seq<(u32, (i64, i64))>,
    live: Seq<Note>,
    event: KeyEvent,
    now: int,
    threshold: int,
)
    ensures
        ({
            let (rest, verdict) = after_event(table, live, event, now, threshold);
            match verdict {
                Some(v) => live.to_multiset() == rest.to_multiset().insert(v.note),
                None => rest == live,
            }
        }),
{
    let (rest, verdict) = after_event(table, live, event, now, threshold);
    if verdict is Some {
        let input = find(table, event.scancode)->Some_0;
        let i = choice(live, input, now, threshold)->Some_0;
        assert(is_choice(live, i, input, now, threshold));
        to_multiset_remove(live, i);
        to_multiset_contains(live, live[i]);
        assert(live.contains(live[i]));
        assert(live.to_multiset() =~= live.remove(i).to_multiset().insert(live[i]));
    }
}

/// The notes that were live before a run of key events are the notes that
/// are still live together with the notes of the verdicts.
pub proof fn lemma_events_account_for_notes(
    table: Seq<(u32, (i64, i64))>,
    live: Seq<Note>,
    events: Seq<KeyEvent>,
    now: int,
    threshold: int,
)
    ensures
        ({
            let (rest, verdicts) = after_events(table, live, events, now, threshold);
            live.to_multiset() == rest.to_multiset().add(notes_of(verdicts).to_multiset())
        }),
    decreases events.len(),
{
    let (rest, verdicts) = after_events(table, live, events, now, threshold);
    if events.len() == 0 {
        lemma_nothing_adds_nothing(rest, notes_of(verdicts));
    } else {
        let (left, hits) = after_events(table, live, events.drop_last(), now, threshold);
        lemma_events_account_for_notes(table, live, events.drop_last(), now, threshold);
        lemma_event_accounts_for_notes(table, left, events.last(), now, threshold);
        match after_event(table, left, events.last(), now, threshold).1 {
            Some(v) => {
                assert(notes_of(hits.push(v)) =~= notes_of(hits).push(v.note));
                to_multiset_build(notes_of(hits), v.note);
                assert(live.to_multiset() =~= rest.to_multiset().add(
                    notes_of(verdicts).to_multiset(),
                ));
            },
            None => {},
        }
    }
}

/// Retiring the notes that have run out of time splits the live notes in two:
/// the survivors and the notes of the misses.
pub proof fn lemma_expiry_accounts_for_notes(live: Seq<Note>, now: int)
    ensures
        live.to_multiset() == survivors(live, now).to_multiset().add(
            notes_of(misses(live, now)).to_multiset(),
        ),
        forall|i: int|
            0 <= i < survivors(live, now).len() ==> !expired(
                (#[trigger] survivors(live, now)[i]).time as int,
                now,
            ),
    decreases live.len(),
{
    let keep = |note: Note| !expired(note.time as int, now);
    let gone = |note: Note| expired(note.time as int, now);
    assert(notes_of(misses(live, now)) =~= live.filter(gone));
    if live.len() == 0 {
        reveal(Seq::filter);
        assert(live.filter(keep) =~= live);
        assert(live.filter(gone) =~= live);
        lemma_nothing_adds_nothing(live, live);
    } else {
        let front = live.drop_last();
        let last = live.last();
        lemma_expiry_accounts_for_notes(front, now);
        assert(notes_of(misses(front, now)) =~= front.filter(gone));
        assert(live =~= front.push(last));
        front.lemma_filter_push(last, keep);
        front.lemma_filter_push(last, gone);
        to_multiset_build(front, last);
        to_multiset_build(front.filter(keep), last);
        to_multiset_build(front.filter(gone), last);
        assert(live.to_multiset() =~= live.filter(keep).to_multiset().add(
            live.filter(gone).to_multiset(),
        ));
    }
    assert forall|i: int| 0 <= i < survivors(live, now).len() implies !expired(
        (#[trigger] survivors(live, now)[i]).time as int,
        now,
    ) by {
        live.lemma_filter_pred(keep, i);
    }
}

/// Every note that is live before a tick of the judge meets exactly one fate
/// in it: it is still live afterwards, or it is the subject of exactly one
/// verdict. No note that is still live has run out of time, so a note that is
/// never hit is retired with a miss by the first tick after its time has run
/// out.
pub proof fn lemma_every_note_meets_one_fate(
    table: Seq<(u32, (i64, i64))>,
    live: Seq<Note>,
    events: Seq<KeyEvent>,
    now: int,
    threshold: int,
)
    ensures
        ({
            let (rest, verdicts) = judged(table, live, events, now, threshold);
            &&& live.to_multiset() == rest.to_multiset().add(notes_of(verdicts).to_multiset())
            &&& forall|i: int| 0 <= i < rest.len() ==> !expired((#[trigger] rest[i]).time as int, now)
        }),
{
    let (left, hits) = after_events(table, live, events, now, threshold);
    let (rest, verdicts) = judged(table, live, events, now, threshold);
    lemma_events_account_for_notes(table, live, events, now, threshold);
    lemma_expiry_accounts_for_notes(left, now);
    assert(notes_of(verdicts) =~= notes_of(hits) + notes_of(misses(left, now)));
    lemma_multiset_commutative(notes_of(hits), notes_of(misses(left, now)));
    assert(live.to_multiset() =~= rest.to_multiset().add(notes_of(verdicts).to_multiset()));
}

} // verus!
