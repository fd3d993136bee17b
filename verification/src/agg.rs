//! The finalized heartbeat aggregate: an immutable snapshot of the window
//! bounds, the liveness length, and the sorted live intervals, together
//! with its read-only queries for live ranges, dead ranges, durations and
//! point-in-time liveness.

use vstd::prelude::*;

use crate::intervals::covers;
use crate::intervals::intervals_ok;
use crate::intervals::lemma_intervals_sorted;

verus! {

/// Immutable result of heartbeat aggregation over `[start_time, end_time)`:
/// the live intervals are `(interval_starts[i], interval_ends[i])`.
pub struct HeartbeatAgg {
    pub start_time: i64,
    pub end_time: i64,
    pub interval_len: i64,
    pub interval_starts: Vec<i64>,
    pub interval_ends: Vec<i64>,
}

impl HeartbeatAgg {
    /// The live intervals as one sequence of pairs.
    pub open spec fn intervals(self) -> Seq<(i64, i64)> {
        Seq::new(
            self.interval_starts@.len(),
            |i: int| (self.interval_starts@[i], self.interval_ends@[i]),
        )
    }

    /// The instants at which the aggregate reports the source alive.
    pub open spec fn covers_time(self, t: int) -> bool {
        covers(self.intervals(), t)
    }

    /// A sound finalized aggregate: matching array lengths, a proper
    /// window, a positive liveness length, well-formed intervals that start
    /// inside the window and end by its end.
    pub open spec fn wf(self) -> bool {
        &&& self.interval_starts@.len() == self.interval_ends@.len()
        &&& self.start_time < self.end_time
        &&& self.interval_len > 0
        &&& self.end_time + self.interval_len <= i64::MAX
        &&& self.end_time - self.start_time <= i64::MAX
        &&& intervals_ok(self.intervals())
        &&& forall|k: int|
            0 <= k && k < self.intervals().len() ==> (#[trigger] self.intervals()[k]).0
                >= self.start_time
        &&& forall|k: int|
            0 <= k && k < self.intervals().len() ==> (#[trigger] self.intervals()[k]).1
                <= self.end_time
    }

    /// How many live intervals the aggregate holds.
    pub fn num_intervals(&self) -> (r: usize)
        requires
            self.interval_starts@.len() == self.interval_ends@.len(),
        ensures
            r == self.intervals().len(),
    {
        self.interval_starts.len()
    }

    /// The total live time: the sum of the interval lengths.
    fn sum_live_intervals(&self) -> (r: i64)
        requires
            self.wf(),
        ensures
            r == live_total(self.intervals()),
            0 <= r,
            r <= self.end_time - self.start_time,
    {
        let n = self.interval_starts.len();
        let mut sum: i64 = 0;
        let mut i: usize = 0;
        proof {
            assert(self.intervals().subrange(0, 0) =~= Seq::<(i64, i64)>::empty());
        }
        while i < n
            invariant
                0 <= i && i <= n,
                n == self.intervals().len(),
                self.wf(),
                sum == live_total(self.intervals().subrange(0, i as int)),
                0 <= sum,
                i > 0 ==> sum <= self.intervals()[i - 1].1 - self.start_time,
                i == 0 ==> sum == 0,
            decreases n - i,
        {
            let s = self.interval_starts[i];
            let e = self.interval_ends[i];
            proof {
                assert(self.intervals()[i as int] == (s, e));
                if i > 0 {
                    lemma_intervals_sorted(self.intervals(), i as int - 1, i as int);
                }
                assert(self.intervals().subrange(0, i as int + 1).drop_last()
                    =~= self.intervals().subrange(0, i as int));
                assert(self.intervals().subrange(0, i as int + 1).last()
                    == self.intervals()[i as int]);
            }
            sum = sum + (e - s);
            i += 1;
        }
        proof {
            assert(self.intervals().subrange(0, n as int) =~= self.intervals());
        }
        sum
    }
}

/// The summed length of a sequence of intervals.
pub open spec fn live_total(s: Seq<(i64, i64)>) -> int
    decreases s.len(),
{
    if s.len() == 0 {
        0
    } else {
        live_total(s.drop_last()) + (s.last().1 - s.last().0)
    }
}

/// The dead intervals of an aggregate: the gaps between its live intervals
/// within `[start_time, end_time]`, with zero-length stubs at the window
/// edges dropped. With no live interval the whole window is one dead range.
pub open spec fn dead_intervals(agg: HeartbeatAgg) -> Seq<(i64, i64)> {
    let s = agg.interval_starts@;
    let e = agg.interval_ends@;
    let n = s.len() as int;
    if n == 0 {
        seq![(agg.start_time, agg.end_time)]
    } else {
        (if s[0] == agg.start_time {
            Seq::<(i64, i64)>::empty()
        } else {
            seq![(agg.start_time, s[0])]
        }) + Seq::new((n - 1) as nat, |i: int| (e[i], s[i + 1])) + (if e[n - 1] == agg.end_time {
            Seq::<(i64, i64)>::empty()
        } else {
            seq![(e[n - 1], agg.end_time)]
        })
    }
}

/// The live ranges, in order.
pub fn live_ranges(agg: &HeartbeatAgg) -> (r: Vec<(i64, i64)>)
    requires
        agg.interval_starts@.len() == agg.interval_ends@.len(),
    ensures
        r@ == agg.intervals(),
{
    let n = agg.interval_starts.len();
    let mut out: Vec<(i64, i64)> = Vec::new();
    let mut i: usize = 0;
    while i < n
        invariant
            0 <= i && i <= n,
            n == agg.interval_starts@.len(),
            n == agg.interval_ends@.len(),
            out@ == agg.intervals().subrange(0, i as int),
        decreases n - i,
    {
        out.push((agg.interval_starts[i], agg.interval_ends[i]));
        proof {
            assert(out@ =~= agg.intervals().subrange(0, i as int + 1));
        }
        i += 1;
    }
    proof {
        assert(out@ =~= agg.intervals());
    }
    out
}

/// The dead ranges: the complement of the live ranges within the window,
/// built by turning interval ends into dead starts and interval starts into
/// dead ends, with the window edges adjusted so that no zero-length range
/// is reported.
#[verifier::loop_isolation(false)]
pub fn dead_ranges(agg: &HeartbeatAgg) -> (r: Vec<(i64, i64)>)
    requires
        agg.interval_starts@.len() == agg.interval_ends@.len(),
    ensures
        r@ == dead_intervals(*agg),
{
    let n = agg.interval_starts.len();
    let mut out: Vec<(i64, i64)> = Vec::new();
    if n == 0 {
        out.push((agg.start_time, agg.end_time));
        proof {
            assert(out@ =~= dead_intervals(*agg));
        }
        return out;
    }
    let ghost head = (if agg.interval_starts@[0] == agg.start_time {
        Seq::<(i64, i64)>::empty()
    } else {
        seq![(agg.start_time, agg.interval_starts@[0])]
    });
    let ghost mid = Seq::new((n - 1) as nat, |i: int| (agg.interval_ends@[i], agg.interval_starts@[i + 1]));
    if agg.interval_starts[0] != agg.start_time {
        out.push((agg.start_time, agg.interval_starts[0]));
    }
    proof {
        assert(out@ =~= head + mid.subrange(0, 0));
    }
    let mut i: usize = 0;
    while i < n - 1
        invariant
            0 <= i && i <= n - 1,
            out@ == head + mid.subrange(0, i as int),
        decreases n - 1 - i,
    {
        out.push((agg.interval_ends[i], agg.interval_starts[i + 1]));
        proof {
            assert(out@ =~= head + mid.subrange(0, i as int + 1));
        }
        i += 1;
    }
    proof {
        assert(mid.subrange(0, n - 1 as int) =~= mid);
    }
    if agg.interval_ends[n - 1] != agg.end_time {
        out.push((agg.interval_ends[n - 1], agg.end_time));
    }
    proof {
        assert(out@ =~= dead_intervals(*agg));
    }
    out
}

/// The total time the source was live, in milliseconds.
pub fn duration_live(agg: &HeartbeatAgg) -> (r: i64)
    requires
        agg.wf(),
    ensures
        r == live_total(agg.intervals()),
        0 <= r,
        r <= agg.end_time - agg.start_time,
{
    agg.sum_live_intervals()
}

/// The total time the source was dead within the window, in milliseconds:
/// the window length minus the live time.
pub fn duration_dead(agg: &HeartbeatAgg) -> (r: i64)
    requires
        agg.wf(),
    ensures
        r == agg.end_time - agg.start_time - live_total(agg.intervals()),
        0 <= r,
        r <= agg.end_time - agg.start_time,
{
    agg.end_time - agg.start_time - agg.sum_live_intervals()
}

/// Whether the source was live at instant `test`: true exactly when some
/// live interval `[s, e)` holds it, starts inclusive and ends exclusive.
pub fn live_at(agg: &HeartbeatAgg, test: i64) -> (r: bool)
    requires
        agg.wf(),
    ensures
        r == agg.covers_time(test as int),
{
    let n = agg.interval_starts.len();
    let mut i: usize = 0;
    while i < n
        invariant
            0 <= i && i <= n,
            n == agg.intervals().len(),
            agg.wf(),
            forall|k: int| 0 <= k && k < i ==> (#[trigger] agg.intervals()[k]).1 <= test,
        decreases n - i,
    {
        let s = agg.interval_starts[i];
        let e = agg.interval_ends[i];
        proof {
            assert(agg.intervals()[i as int] == (s, e));
        }
        if test < s {
            proof {
                assert forall|k: int| 0 <= k && k < n implies !((#[trigger] agg.intervals()[k]).0
                    <= test && test < agg.intervals()[k].1) by {
                    if k < i {
                        assert(agg.intervals()[k].1 <= test);
                    } else if k > i {
                        lemma_intervals_sorted(agg.intervals(), i as int, k);
                    }
                }
            }
            return false;
        }
        if test < e {
            return true;
        }
        i += 1;
    }
    proof {
        assert forall|k: int| 0 <= k && k < n implies !((#[trigger] agg.intervals()[k]).0 <= test
            && test < agg.intervals()[k].1) by {
            assert(agg.intervals()[k].1 <= test);
        }
    }
    false
}

} // verus!
