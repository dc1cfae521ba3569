//! Time-stamped values and range queries over sequences ordered by time.

use std::cmp::Ordering;
use std::ops::Range;
use superslice::Ext;
use vstd::prelude::*;

verus! {

/// A value placed on the time axis of a chart. `time` is in microseconds.
#[derive(Debug)]
pub struct Timed<T> {
    pub time: i64,
    pub inner: T,
}

impl<T> std::ops::Deref for Timed<T> {
    type Target = T;

    fn deref(&self) -> (r: &T)
        ensures
            *r == self.inner,
    {
        &self.inner
    }
}

/// The sequence is ordered by ascending time. Equal times may repeat.
pub open spec fn sorted_by_time<T>(s: Seq<Timed<T>>) -> bool {
    forall|i: int, j: int| 0 <= i <= j < s.len() ==> s[i].time <= s[j].time
}

/// `k` splits `s` at time `t`: exactly the elements in front of `k` lie before `t`.
pub open spec fn splits_at<T>(s: Seq<Timed<T>>, t: int, k: int) -> bool {
    &&& 0 <= k <= s.len()
    &&& forall|i: int| 0 <= i < k ==> s[i].time < t
    &&& forall|i: int| k <= i < s.len() ==> s[i].time >= t
}

/// How many elements of `s` lie strictly before time `t`.
pub open spec fn count_before<T>(s: Seq<Timed<T>>, t: int) -> int
    decreases s.len(),
{
    if s.len() == 0 {
        0
    } else {
        count_before(s.drop_last(), t) + if s.last().time < t {
            1int
        } else {
            0int
        }
    }
}

/// The half-open window `[lo, hi)` on the time axis.
pub open spec fn in_window(time: int, lo: int, hi: int) -> bool {
    lo <= time < hi
}

/// `r` starts where the times reach `lo` and ends where they reach `hi`.
pub open spec fn frames_window<T>(s: Seq<Timed<T>>, lo: i64, hi: i64, r: Range<usize>) -> bool {
    splits_at(s, lo as int, r.start as int) && splits_at(s, hi as int, r.end as int)
}

/// `k` is the first position in `s` whose time lies after `t`.
pub open spec fn splits_after<T>(s: Seq<Timed<T>>, t: i64, k: usize) -> bool {
    splits_at(s, t + 1, k as int)
}

/// Where a time stands relative to the window `[lo, hi)`: `Less` in front of
/// it, `Equal` inside, `Greater` at `hi` or later.
pub fn window_order(time: i64, lo: i64, hi: i64) -> (r: Ordering)
    ensures
        (r is Less) == (time < lo),
        (r is Equal) == (lo <= time && time < hi),
        (r is Greater) == (lo <= time && hi <= time),
{
    if time < lo {
        Ordering::Less
    } else if time >= hi {
        Ordering::Greater
    } else {
        Ordering::Equal
    }
}

/// Calls `superslice::Ext::equal_range_by` with [`window_order`] as the
/// comparator. On a slice that the comparator splits into a `Less` run, an
/// `Equal` run and a `Greater` run, that function returns the bounds of the
/// `Equal` run: the first position that is not `Less` and the first that is
/// `Greater`. A slice ordered by time is split that way whenever `lo <= hi`.
#[verifier::external_body]
fn equal_run_of_window<T>(slice: &[Timed<T>], lo: i64, hi: i64) -> (r: Range<usize>)
    requires
        sorted_by_time(slice@),
        lo <= hi,
    ensures
        frames_window(slice@, lo, hi, r),
{
    slice.equal_range_by(|x| window_order(x.time, lo, hi))
}

/// The positions of the elements of `s` whose times lie in `[lo, hi)`, as a
/// pair of a first position and a position one past the last.
pub open spec fn window_range<T>(s: Seq<Timed<T>>, lo: int, hi: int) -> (int, int) {
    (count_before(s, lo), count_before(s, hi))
}

/// The range of positions in `slice` whose times lie in the half-open window
/// `[lo, hi)`. An element at `lo` is inside, an element at `hi` is not.
pub fn equal_range_by_time<T>(slice: &[Timed<T>], lo: i64, hi: i64) -> (r: Range<usize>)
    requires
        sorted_by_time(slice@),
        lo <= hi,
    ensures
        r.start <= r.end <= slice@.len(),
        (r.start as int, r.end as int) == window_range(slice@, lo as int, hi as int),
        forall|i: int|
            0 <= i < slice@.len() ==> ((r.start <= i < r.end) <==> in_window(
                #[trigger] slice@[i].time as int,
                lo as int,
                hi as int,
            )),
{
    let r = equal_run_of_window(slice, lo, hi);
    proof {
        lemma_count_before_splits(slice@, lo as int);
        lemma_count_before_splits(slice@, hi as int);
        lemma_split_is_unique(slice@, lo as int, r.start as int, count_before(slice@, lo as int));
        lemma_split_is_unique(slice@, hi as int, r.end as int, count_before(slice@, hi as int));
        lemma_count_before_monotone(slice@, lo as int, hi as int);
    }
    r
}

/// `count_before` lies between zero and the length of the sequence.
pub proof fn lemma_count_before_bounds<T>(s: Seq<Timed<T>>, t: int)
    ensures
        0 <= count_before(s, t) <= s.len(),
    decreases s.len(),
{
    if s.len() > 0 {
        lemma_count_before_bounds(s.drop_last(), t);
    }
}

/// A later instant has at least as many elements in front of it.
pub proof fn lemma_count_before_monotone<T>(s: Seq<Timed<T>>, t1: int, t2: int)
    requires
        t1 <= t2,
    ensures
        count_before(s, t1) <= count_before(s, t2),
    decreases s.len(),
{
    if s.len() > 0 {
        lemma_count_before_monotone(s.drop_last(), t1, t2);
    }
}

/// In a sequence ordered by time the elements before `t` are a prefix, and
/// `count_before` is its length.
pub proof fn lemma_count_before_splits<T>(s: Seq<Timed<T>>, t: int)
    requires
        sorted_by_time(s),
    ensures
        splits_at(s, t, count_before(s, t)),
    decreases s.len(),
{
    if s.len() > 0 {
        let front = s.drop_last();
        assert forall|i: int, j: int| 0 <= i <= j < front.len() implies front[i].time
            <= front[j].time by {
            assert(front[i] == s[i] && front[j] == s[j]);
        }
        lemma_count_before_splits(front, t);
        lemma_count_before_bounds(front, t);
        let k = count_before(front, t);
        if s.last().time < t {
            assert forall|i: int| 0 <= i < front.len() implies front[i].time < t by {
                assert(front[i] == s[i]);
                assert(s[i].time <= s[s.len() - 1].time);
            }
            if k < front.len() {
                assert(front[k].time >= t);
            }
            assert(k == front.len());
        } else {
            assert forall|i: int| 0 <= i < k implies s[i].time < t by {
                assert(front[i] == s[i]);
            }
            assert forall|i: int| k <= i < s.len() implies s[i].time >= t by {
                if i < front.len() {
                    assert(front[i] == s[i]);
                }
            }
        }
    }
}

/// At most one position splits a sequence at a given instant.
pub proof fn lemma_split_is_unique<T>(s: Seq<Timed<T>>, t: int, k1: int, k2: int)
    requires
        splits_at(s, t, k1),
        splits_at(s, t, k2),
    ensures
        k1 == k2,
{
    if k1 < k2 {
        assert(s[k1].time < t);
    } else if k2 < k1 {
        assert(s[k2].time < t);
    }
}

/// Two windows that meet at `b` tile the window `[a, c)`: the range of the
/// first ends where the range of the second starts, together they are the range
/// of `[a, c)`, and every element of that range lies in exactly one of them.
pub proof fn lemma_windows_tile<T>(s: Seq<Timed<T>>, a: int, b: int, c: int)
    requires
        sorted_by_time(s),
        a <= b <= c,
    ensures
        window_range(s, a, b).1 == window_range(s, b, c).0,
        window_range(s, a, c) == (window_range(s, a, b).0, window_range(s, b, c).1),
        window_range(s, a, b).0 <= window_range(s, a, b).1 <= window_range(s, b, c).1,
        forall|i: int|
            0 <= i < s.len() ==> (in_window(#[trigger] s[i].time as int, a, c) <==> (in_window(
                s[i].time as int,
                a,
                b,
            ) != in_window(s[i].time as int, b, c))),
{
    lemma_count_before_monotone(s, a, b);
    lemma_count_before_monotone(s, b, c);
}

/// The range of a window is the positions of the elements in the window, and
/// of no others.
pub proof fn lemma_window_range_is_exact<T>(s: Seq<Timed<T>>, lo: int, hi: int)
    requires
        sorted_by_time(s),
        lo <= hi,
    ensures
        0 <= window_range(s, lo, hi).0 <= window_range(s, lo, hi).1 <= s.len(),
        forall|i: int|
            0 <= i < s.len() ==> ((window_range(s, lo, hi).0 <= i < window_range(s, lo, hi).1)
                <==> in_window(#[trigger] s[i].time as int, lo, hi)),
{
    lemma_count_before_splits(s, lo);
    lemma_count_before_splits(s, hi);
    lemma_count_before_monotone(s, lo, hi);
}

/// A window that starts where it ends holds nothing.
pub proof fn lemma_empty_window<T>(s: Seq<Timed<T>>, t: int)
    ensures
        window_range(s, t, t).0 == window_range(s, t, t).1,
{
}

} // verus!
