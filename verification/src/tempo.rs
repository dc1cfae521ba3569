//! The tempo map: conversion from chart time to tempo position.
//!
//! Tempo is counted in thousandths of a beat per minute and time in
//! microseconds. A tempo position is counted in the product of the two, that
//! is in units of one sixty-billionth of a beat, so the position reached after
//! `dt` microseconds at tempo `bpm` is the plain product `dt * bpm`.

use crate::timed::{count_before, lemma_count_before_bounds, lemma_count_before_monotone,
    lemma_count_before_splits, sorted_by_time, splits_after, Timed};
use std::cmp::Ordering;
use superslice::Ext;
use vstd::prelude::*;

verus! {

/// A tempo change: from its time on the chart runs at `bpm`, and the tempo
/// position at its time is `position`.
#[derive(Debug)]
pub struct BpmCommand {
    pub bpm: i32,
    pub position: i64,
}

/// The index of the tempo point that governs `time`: the last point at or
/// before `time`, or the first point when `time` precedes them all.
pub open spec fn governing_point(bpms: Seq<Timed<BpmCommand>>, time: int) -> int {
    let reached = count_before(bpms, time + 1);
    if reached == 0 {
        0
    } else {
        reached - 1
    }
}

/// The tempo position at `time`: the position of the governing point plus the
/// distance covered since then at its tempo.
pub open spec fn position_at(bpms: Seq<Timed<BpmCommand>>, time: int) -> int {
    let point = bpms[governing_point(bpms, time)];
    point.inner.position + (time - point.time) * point.inner.bpm
}

/// Each point's position is the one reached from the point before it.
pub open spec fn cumulative(bpms: Seq<Timed<BpmCommand>>) -> bool {
    forall|i: int|
        0 <= i < bpms.len() - 1 ==> (#[trigger] bpms[i + 1]).inner.position == bpms[i].inner.position
            + (bpms[i + 1].time - bpms[i].time) * bpms[i].inner.bpm
}

/// No tempo in the map runs backwards.
pub open spec fn tempo_non_negative(bpms: Seq<Timed<BpmCommand>>) -> bool {
    forall|i: int| 0 <= i < bpms.len() ==> (#[trigger] bpms[i]).inner.bpm >= 0
}

/// A tempo map has at least one point, is ordered by time, and its positions
/// are cumulative.
pub open spec fn tempo_map_wf(bpms: Seq<Timed<BpmCommand>>) -> bool {
    &&& bpms.len() > 0
    &&& sorted_by_time(bpms)
    &&& cumulative(bpms)
}

/// Where a time stands relative to the instant `t`: `Less` at or before it,
/// `Greater` after it.
pub fn instant_order(time: i64, t: i64) -> (r: Ordering)
    ensures
        (r is Less) == (time <= t),
        (r is Greater) == (time > t),
{
    if time <= t {
        Ordering::Less
    } else {
        Ordering::Greater
    }
}

/// Calls `superslice::Ext::lower_bound_by` with [`instant_order`] as the
/// comparator. On a slice whose `Less` elements all stand in front of the
/// others, that function returns the first position that is not `Less`. A
/// slice ordered by time is split that way, so the result is the first
/// position whose time lies after `t`, or the length when there is none.
#[verifier::external_body]
fn first_after<T>(slice: &[Timed<T>], t: i64) -> (k: usize)
    requires
        sorted_by_time(slice@),
    ensures
        splits_after(slice@, t, k),
{
    slice.lower_bound_by(|x| instant_order(x.time, t))
}

/// Every tempo position lies within this span of zero, whatever the tempo map
/// and the time are.
pub const POSITION_SPAN: i128 = 0x1_0000_0000_0000_0000_0000_0000;

/// The tempo position at `time`.
pub fn position_for_time(bpms: &[Timed<BpmCommand>], time: i64) -> (r: i128)
    requires
        bpms@.len() > 0,
        sorted_by_time(bpms@),
    ensures
        r == position_at(bpms@, time as int),
        -POSITION_SPAN <= r <= POSITION_SPAN,
{
    let after = first_after(bpms, time);
    proof {
        lemma_count_before_splits(bpms@, time + 1);
        crate::timed::lemma_split_is_unique(
            bpms@,
            time + 1,
            after as int,
            count_before(bpms@, time + 1),
        );
    }
    let index = if after == 0 {
        0
    } else {
        after - 1
    };
    let point = &bpms[index];
    let elapsed: i128 = time as i128 - point.time as i128;
    let tempo: i128 = point.inner.bpm as i128;
    assert(-0x8000_0000_0000_0000_0000_0000 <= elapsed * tempo <= 0x8000_0000_0000_0000_0000_0000)
        by (nonlinear_arith)
        requires
            -0x1_0000_0000_0000_0000 <= elapsed <= 0x1_0000_0000_0000_0000,
            -0x8000_0000 <= tempo <= 0x8000_0000,
    ;
    point.inner.position as i128 + elapsed * tempo
}

/// Along a tempo map without negative tempo the positions of its points never
/// decrease.
pub proof fn lemma_points_non_decreasing(bpms: Seq<Timed<BpmCommand>>, i: int, j: int)
    requires
        tempo_map_wf(bpms),
        tempo_non_negative(bpms),
        0 <= i <= j < bpms.len(),
    ensures
        bpms[i].inner.position <= bpms[j].inner.position,
    decreases j - i,
{
    if i < j {
        lemma_points_non_decreasing(bpms, i, j - 1);
        let step = bpms[j - 1 + 1].time - bpms[j - 1].time;
        let tempo = bpms[j - 1].inner.bpm;
        assert(bpms[j - 1 + 1].inner.position == bpms[j - 1].inner.position + step * tempo);
        assert(step * tempo >= 0) by (nonlinear_arith)
            requires
                step >= 0,
                tempo >= 0,
        ;
    }
}

/// The tempo position never decreases with time, as long as no tempo in the
/// map is negative.
pub proof fn lemma_position_non_decreasing(bpms: Seq<Timed<BpmCommand>>, t1: int, t2: int)
    requires
        tempo_map_wf(bpms),
        tempo_non_negative(bpms),
        t1 <= t2,
    ensures
        position_at(bpms, t1) <= position_at(bpms, t2),
{
    lemma_count_before_splits(bpms, t1 + 1);
    lemma_count_before_splits(bpms, t2 + 1);
    lemma_count_before_bounds(bpms, t1 + 1);
    lemma_count_before_bounds(bpms, t2 + 1);
    lemma_count_before_monotone(bpms, t1 + 1, t2 + 1);
    let i1 = governing_point(bpms, t1);
    let i2 = governing_point(bpms, t2);
    let earlier = bpms[i1];
    let later = bpms[i2];
    if i1 == i2 {
        assert((t1 - earlier.time) * earlier.inner.bpm <= (t2 - earlier.time) * earlier.inner.bpm)
            by (nonlinear_arith)
            requires
                t1 <= t2,
                earlier.inner.bpm >= 0,
        ;
    } else {
        let next = bpms[i1 + 1];
        assert(next.time > t1);
        assert(next.inner.position == earlier.inner.position + (next.time - earlier.time) * earlier.inner.bpm);
        assert((t1 - earlier.time) * earlier.inner.bpm <= (next.time - earlier.time) * earlier.inner.bpm)
            by (nonlinear_arith)
            requires
                t1 <= next.time,
                earlier.inner.bpm >= 0,
        ;
        lemma_points_non_decreasing(bpms, i1 + 1, i2);
        assert(later.time <= t2);
        assert((t2 - later.time) * later.inner.bpm >= 0) by (nonlinear_arith)
            requires
                t2 - later.time >= 0,
                later.inner.bpm >= 0,
        ;
    }
}

/// Between two instants that the same tempo point governs, the position
/// advances by the elapsed time multiplied by that point's tempo.
pub proof fn lemma_position_within_segment(bpms: Seq<Timed<BpmCommand>>, t1: int, t2: int)
    requires
        governing_point(bpms, t1) == governing_point(bpms, t2),
    ensures
        position_at(bpms, t2) - position_at(bpms, t1) == (t2 - t1) * bpms[governing_point(
            bpms,
            t1,
        )].inner.bpm,
{
    let point = bpms[governing_point(bpms, t1)];
    let tempo = point.inner.bpm as int;
    let start = point.time as int;
    assert((t2 - start) * tempo - (t1 - start) * tempo == (t2 - t1) * tempo)
        by (nonlinear_arith);
}

} // verus!
