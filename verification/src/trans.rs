//! The heartbeat transition state: a bounded buffer of pending heartbeat
//! times plus the running sequence of live intervals. Heartbeats are
//! absorbed in batches: the buffer is sorted, swept into intervals, and
//! merged into the running sequence, keeping every operation's effect on
//! the covered instants exact.

use vstd::prelude::*;

use crate::agg::HeartbeatAgg;
use crate::intervals::batch_intervals;
use crate::intervals::covers;
use crate::intervals::heartbeat_covers;
use crate::intervals::intervals_ok;
use crate::intervals::is_start_of;
use crate::intervals::lemma_heartbeat_covers_push;
use crate::intervals::lemma_intervals_sorted;
use crate::intervals::lemma_heartbeat_covers_same_members;
use crate::intervals::sort_buffer;
use crate::union::combine_intervals;

verus! {

/// How many heartbeats are buffered before they are consolidated into
/// intervals.
pub const BUFFER_SIZE: usize = 1000;



/// The new state covers no instant at all.
pub open spec fn covers_nothing(x: HeartbeatTransState) -> bool {
    forall|t: int| #![trigger x.covers_time(t)] !x.covers_time(t)
}

/// The new state covers exactly what the old one covered plus the liveness
/// range of one heartbeat.
pub open spec fn coverage_with_heartbeat(
    x: HeartbeatTransState,
    y: HeartbeatTransState,
    time: i64,
) -> bool {
    forall|t: int|
        #![trigger x.covers_time(t)]
        x.covers_time(t) == (y.covers_time(t) || (time <= t && t < time + y.interval_len))
}

/// The two states cover exactly the same instants.
pub open spec fn coverage_unchanged(x: HeartbeatTransState, y: HeartbeatTransState) -> bool {
    forall|t: int| #![trigger x.covers_time(t)] x.covers_time(t) == y.covers_time(t)
}

/// The new state covers exactly what either of the two old states covered.
pub open spec fn coverage_union(
    x: HeartbeatTransState,
    y: HeartbeatTransState,
    z: HeartbeatTransState,
) -> bool {
    forall|t: int|
        #![trigger x.covers_time(t)]
        x.covers_time(t) == (y.covers_time(t) || z.covers_time(t))
}

/// The state covers exactly the liveness range of one heartbeat.
pub open spec fn coverage_of_single_heartbeat(x: HeartbeatTransState, time: i64) -> bool {
    forall|t: int|
        #![trigger x.covers_time(t)]
        x.covers_time(t) == (time <= t && t < time + x.interval_len)
}

/// The new state covers exactly what the old state covered or the
/// aggregate reported live.
pub open spec fn coverage_union_with_agg(
    x: HeartbeatTransState,
    y: HeartbeatTransState,
    a: HeartbeatAgg,
) -> bool {
    forall|t: int|
        #![trigger x.covers_time(t)]
        x.covers_time(t) == (y.covers_time(t) || a.covers_time(t))
}

/// The state covers exactly the instants the aggregate reports live.
pub open spec fn coverage_of_agg(x: HeartbeatTransState, a: HeartbeatAgg) -> bool {
    forall|t: int| #![trigger x.covers_time(t)] x.covers_time(t) == a.covers_time(t)
}

/// Before the window end the aggregate reports live exactly the instants
/// the state covered.
pub open spec fn finalized_coverage(a: HeartbeatAgg, x: HeartbeatTransState) -> bool {
    forall|t: int|
        #![trigger a.covers_time(t)]
        t < x.end ==> a.covers_time(t) == x.covers_time(t)
}

/// The aggregate reports nothing live at or beyond its window end.
pub open spec fn nothing_beyond_end(a: HeartbeatAgg) -> bool {
    forall|t: int| #![trigger a.covers_time(t)] t >= a.end_time ==> !a.covers_time(t)
}


/// Packs the pointwise form of [`covers_nothing`].
#[verifier::spinoff_prover]
proof fn lemma_pack_covers_nothing(x: HeartbeatTransState)
    requires
        forall|t: int| #![trigger x.covers_time(t)] !x.covers_time(t),
    ensures
        covers_nothing(x),
{
}

/// Packs the pointwise form of [`coverage_with_heartbeat`].
#[verifier::spinoff_prover]
proof fn lemma_pack_coverage_with_heartbeat(x: HeartbeatTransState, y: HeartbeatTransState, time: i64)
    requires
        forall|t: int|
            #![trigger x.covers_time(t)]
            x.covers_time(t) == (y.covers_time(t) || (time <= t && t < time + y.interval_len)),
    ensures
        coverage_with_heartbeat(x, y, time),
{
}

/// Packs the pointwise form of [`coverage_union`].
#[verifier::spinoff_prover]
proof fn lemma_pack_coverage_union(
    x: HeartbeatTransState,
    y: HeartbeatTransState,
    z: HeartbeatTransState,
)
    requires
        forall|t: int|
            #![trigger x.covers_time(t)]
            x.covers_time(t) == (y.covers_time(t) || z.covers_time(t)),
    ensures
        coverage_union(x, y, z),
{
}

/// Packs the pointwise form of [`coverage_of_single_heartbeat`].
#[verifier::spinoff_prover]
pub(crate) proof fn lemma_pack_coverage_of_single_heartbeat(x: HeartbeatTransState, time: i64)
    requires
        forall|t: int|
            #![trigger x.covers_time(t)]
            x.covers_time(t) == (time <= t && t < time + x.interval_len),
    ensures
        coverage_of_single_heartbeat(x, time),
{
}

/// Packs the pointwise form of [`coverage_union_with_agg`].
#[verifier::spinoff_prover]
pub(crate) proof fn lemma_pack_coverage_union_with_agg(
    x: HeartbeatTransState,
    y: HeartbeatTransState,
    a: HeartbeatAgg,
)
    requires
        forall|t: int|
            #![trigger x.covers_time(t)]
            x.covers_time(t) == (y.covers_time(t) || a.covers_time(t)),
    ensures
        coverage_union_with_agg(x, y, a),
{
}

/// Packs the pointwise form of [`finalized_coverage`].
#[verifier::spinoff_prover]
proof fn lemma_pack_finalized_coverage(a: HeartbeatAgg, x: HeartbeatTransState)
    requires
        forall|t: int|
            #![trigger a.covers_time(t)]
            t < x.end ==> a.covers_time(t) == x.covers_time(t),
    ensures
        finalized_coverage(a, x),
{
}

/// Packs the pointwise form of [`nothing_beyond_end`].
#[verifier::spinoff_prover]
proof fn lemma_pack_nothing_beyond_end(a: HeartbeatAgg)
    requires
        forall|t: int| #![trigger a.covers_time(t)] t >= a.end_time ==> !a.covers_time(t),
    ensures
        nothing_beyond_end(a),
{
}

/// The finalization trim: if the last interval outgrows the window end it
/// is clamped to it; everything else is untouched.
pub open spec fn clamp_last(s: Seq<(i64, i64)>, end: i64) -> Seq<(i64, i64)> {
    if s.len() > 0 && s.last().1 > end {
        s.update(s.len() - 1, (s.last().0, end))
    } else {
        s
    }
}

/// What the trim does to coverage: instants before the window end are kept
/// exactly; and when every interval starts before the window end, the
/// trimmed sequence is well formed, ends by the window end, and covers
/// nothing at or beyond it.
#[verifier::spinoff_prover]
pub proof fn lemma_clamp_last(s: Seq<(i64, i64)>, end: i64)
    requires
        intervals_ok(s),
    ensures
        clamp_last(s, end).len() == s.len(),
        forall|k: int|
            0 <= k && k < s.len() ==> (#[trigger] clamp_last(s, end)[k]).0 == s[k].0,
        forall|t: int| t < end ==> covers(clamp_last(s, end), t) == covers(s, t),
        (forall|k: int| 0 <= k && k < s.len() ==> (#[trigger] s[k]).0 < end) ==> intervals_ok(
            clamp_last(s, end),
        ),
        (forall|k: int| 0 <= k && k < s.len() ==> (#[trigger] s[k]).0 < end) ==> (forall|k: int|
            0 <= k && k < s.len() ==> (#[trigger] clamp_last(s, end)[k]).1 <= end),
        (forall|k: int| 0 <= k && k < s.len() ==> (#[trigger] s[k]).0 < end) ==> (forall|t: int|
            t >= end ==> !covers(clamp_last(s, end), t)),
{
    let c = clamp_last(s, end);
    let n = s.len() as int;
    assert forall|t: int| t < end implies covers(c, t) == covers(s, t) by {
        if covers(c, t) {
            let k = choose|k: int| 0 <= k < c.len() && (#[trigger] c[k]).0 <= t < c[k].1;
            assert(s[k].0 <= t && t < s[k].1);
        }
        if covers(s, t) {
            let k = choose|k: int| 0 <= k < s.len() && (#[trigger] s[k]).0 <= t < s[k].1;
            assert(c[k].0 <= t && t < c[k].1);
        }
    }
    if forall|k: int| 0 <= k && k < s.len() ==> (#[trigger] s[k]).0 < end {
        assert forall|k: int| 0 <= k && k < n implies (#[trigger] c[k]).1 <= end || c[k].1
            == s[k].1 by {}
        assert forall|k: int| 0 <= k && k < n implies (#[trigger] c[k]).0 < c[k].1 by {
            assert(c[k].0 == s[k].0);
            if k == n - 1 && s.last().1 > end {
                assert(c[k].1 == end);
                assert(s[k].0 < end);
            } else {
                assert(c[k].1 == s[k].1);
            }
        }
        assert forall|k: int| 0 <= k && k < n - 1 implies (#[trigger] c[k]).1 < c[k + 1].0 by {
            assert(c[k].1 == s[k].1);
            assert(c[k + 1].0 == s[k + 1].0);
        }
        assert(intervals_ok(c));
        assert forall|k: int| 0 <= k && k < n implies (#[trigger] c[k]).1 <= end by {
            if k < n - 1 {
                lemma_intervals_sorted(s, k, k + 1);
                assert(s[k].1 < s[k + 1].0);
                assert(s[k + 1].0 < end);
                assert(c[k].1 == s[k].1);
            }
        }
        assert forall|t: int| t >= end implies !covers(c, t) by {
            if covers(c, t) {
                let k = choose|k: int| 0 <= k < c.len() && (#[trigger] c[k]).0 <= t < c[k].1;
                assert(c[k].1 <= end);
            }
        }
    }
}

/// In-progress aggregation state over the observation window
/// `[start, end)`: pending heartbeat times in `buffer`, consolidated live
/// intervals in `liveness`, and the liveness length `interval_len` that a
/// single heartbeat keeps the source alive for.
pub struct HeartbeatTransState {
    pub start: i64,
    pub end: i64,
    pub interval_len: i64,
    pub buffer: Vec<i64>,
    pub liveness: Vec<(i64, i64)>,
}

impl HeartbeatTransState {
    /// Structural soundness: a proper window, a positive liveness length
    /// kept far enough from the numeric limit, buffered heartbeats inside
    /// the window, and a well-formed interval sequence.
    pub open spec fn wf(self) -> bool {
        &&& self.start < self.end
        &&& self.interval_len > 0
        &&& self.end + self.interval_len <= i64::MAX
        &&& self.end - self.start <= i64::MAX
        &&& forall|k: int|
            0 <= k && k < self.buffer@.len() ==> self.start <= #[trigger] self.buffer@[k]
                && self.buffer@[k] < self.end
        &&& intervals_ok(self.liveness@)
    }

    /// Every consolidated interval starts at or after the window start.
    pub open spec fn starts_in_window(self) -> bool {
        forall|k: int|
            0 <= k && k < self.liveness@.len() ==> (#[trigger] self.liveness@[k]).0 >= self.start
    }

    /// Every consolidated interval starts before the window end, so that
    /// only the last interval can outgrow the window.
    pub open spec fn starts_before_end(self) -> bool {
        forall|k: int|
            0 <= k && k < self.liveness@.len() ==> (#[trigger] self.liveness@[k]).0 < self.end
    }

    /// The instants at which this state currently counts the source alive:
    /// within the liveness length of a buffered heartbeat, or inside a
    /// consolidated interval.
    pub open spec fn covers_time(self, t: int) -> bool {
        heartbeat_covers(self.buffer@, self.interval_len, t) || covers(self.liveness@, t)
    }

    /// Creates an empty state over the window `[start, end)` with liveness
    /// length `interval`.
    pub fn new(start: i64, end: i64, interval: i64) -> (r: Self)
        requires
            start < end,
            interval > 0,
            end + interval <= i64::MAX,
            end - start <= i64::MAX,
        ensures
            r.wf(),
            r.starts_in_window(),
            r.starts_before_end(),
            r.start == start,
            r.end == end,
            r.interval_len == interval,
            r.buffer@.len() == 0,
            r.liveness@.len() == 0,
            covers_nothing(r),
    {
        let r = HeartbeatTransState {
            start,
            end,
            interval_len: interval,
            buffer: Vec::new(),
            liveness: Vec::new(),
        };
        proof {
            assert forall|t: int| #![trigger r.covers_time(t)] !r.covers_time(t) by {}
            lemma_pack_covers_nothing(r);
        }
        r
    }

    /// Records one heartbeat inside the window, consolidating the buffer
    /// first when it is full. Afterwards the state keeps the source alive
    /// over exactly the old instants plus `[time, time + interval_len)`.
    #[verifier::rlimit(100)]
    #[verifier::spinoff_prover]
    pub fn insert(&mut self, time: i64)
        requires
            old(self).wf(),
            old(self).start <= time,
            time < old(self).end,
        ensures
            final(self).wf(),
            final(self).start == old(self).start,
            final(self).end == old(self).end,
            final(self).interval_len == old(self).interval_len,
            coverage_with_heartbeat(*final(self), *old(self), time),
            old(self).starts_in_window() ==> final(self).starts_in_window(),
            old(self).starts_before_end() ==> final(self).starts_before_end(),
    {
        if self.buffer.len() >= BUFFER_SIZE {
            self.process_batch();
        }
        let ghost mid = *self;
        self.buffer.push(time);
        proof {
            lemma_heartbeat_covers_push(mid.buffer@, time, self.interval_len);
            assert forall|t: int|
                #![trigger self.covers_time(t)]
                self.covers_time(t) == (old(self).covers_time(t) || (time <= t && t < time + old(
                    self,
                ).interval_len)) by {
                assert(mid.covers_time(t) == old(self).covers_time(t));
                assert(heartbeat_covers(mid.buffer@.push(time), mid.interval_len, t)
                    == (heartbeat_covers(mid.buffer@, mid.interval_len, t) || (time <= t && t
                        < time + mid.interval_len)));
                assert(self.buffer@ == mid.buffer@.push(time));
            }
            lemma_pack_coverage_with_heartbeat(*self, *old(self), time);
        }
    }

    /// Consolidates the buffered heartbeats: sorts them, sweeps them into
    /// the intervals they keep alive, and merges those into the running
    /// liveness sequence. The covered instants are unchanged; with an
    /// empty buffer the state is untouched.
    #[verifier::rlimit(60)]
    #[verifier::spinoff_prover]
    pub fn process_batch(&mut self)
        requires
            old(self).wf(),
        ensures
            final(self).wf(),
            final(self).start == old(self).start,
            final(self).end == old(self).end,
            final(self).interval_len == old(self).interval_len,
            final(self).buffer@.len() == 0 || old(self).buffer@.len() == 0,
            old(self).buffer@.len() > 0 ==> final(self).buffer@.len() == 0,
            old(self).buffer@.len() == 0 ==> *final(self) == *old(self),
            coverage_unchanged(*final(self), *old(self)),
            old(self).starts_in_window() ==> final(self).starts_in_window(),
            old(self).starts_before_end() ==> final(self).starts_before_end(),
    {
        if self.buffer.len() == 0 {
            return ;
        }
        let ghost orig_buffer = self.buffer@;
        sort_buffer(&mut self.buffer);
        proof {
            assert forall|k: int| 0 <= k && k < self.buffer@.len() implies self.start
                <= #[trigger] self.buffer@[k] && self.buffer@[k] < self.end by {
                assert(self.buffer@.contains(self.buffer@[k]));
                let w = choose|w: int| 0 <= w < orig_buffer.len() && orig_buffer[w]
                    == self.buffer@[k];
                assert(self.start <= orig_buffer[w] && orig_buffer[w] < self.end);
            }
            lemma_heartbeat_covers_same_members(orig_buffer, self.buffer@, self.interval_len);
        }
        let new_intervals = batch_intervals(&self.buffer, self.interval_len);
        let ghost old_liv = self.liveness@;
        if self.liveness.len() == 0 {
            self.liveness = new_intervals;
        } else {
            combine_intervals(&mut self.liveness, &new_intervals);
        }
        proof {
            assert forall|k: int| 0 <= k && k < self.liveness@.len() implies (
            #[trigger] self.liveness@[k]).0 >= self.start || !old(self).starts_in_window() by {
                if old(self).starts_in_window() {
                    if is_start_of(self.liveness@[k].0, old_liv) {
                        let w = choose|w: int| 0 <= w < old_liv.len() && (#[trigger] old_liv[w]).0
                            == self.liveness@[k].0;
                        assert(old_liv[w].0 >= self.start);
                    } else {
                        let w = choose|w: int| 0 <= w < new_intervals@.len() && (
                        #[trigger] new_intervals@[w]).0 == self.liveness@[k].0;
                        assert(self.buffer@.contains(new_intervals@[w].0));
                        let v = choose|v: int| 0 <= v < self.buffer@.len() && self.buffer@[v]
                            == new_intervals@[w].0;
                        assert(self.start <= self.buffer@[v]);
                    }
                }
            }
            assert forall|k: int| 0 <= k && k < self.liveness@.len() implies (
            #[trigger] self.liveness@[k]).0 < self.end || !old(self).starts_before_end() by {
                if old(self).starts_before_end() {
                    if is_start_of(self.liveness@[k].0, old_liv) {
                        let w = choose|w: int| 0 <= w < old_liv.len() && (#[trigger] old_liv[w]).0
                            == self.liveness@[k].0;
                        assert(old_liv[w].0 < self.end);
                    } else {
                        let w = choose|w: int| 0 <= w < new_intervals@.len() && (
                        #[trigger] new_intervals@[w]).0 == self.liveness@[k].0;
                        assert(self.buffer@.contains(new_intervals@[w].0));
                        let v = choose|v: int| 0 <= v < self.buffer@.len() && self.buffer@[v]
                            == new_intervals@[w].0;
                        assert(self.buffer@[v] < self.end);
                    }
                }
            }
        }
        self.buffer.clear();
    }

    /// Merges another state with the same liveness length into this one.
    /// Both buffers are consolidated first; the window bounds of `self` are
    /// kept. Afterwards this state keeps the source alive over exactly the
    /// instants either state covered.
    pub fn combine(&mut self, other: HeartbeatTransState)
        requires
            old(self).wf(),
            other.wf(),
            old(self).interval_len == other.interval_len,
        ensures
            final(self).wf(),
            final(self).start == old(self).start,
            final(self).end == old(self).end,
            final(self).interval_len == old(self).interval_len,
            final(self).buffer@.len() == 0 || old(self).buffer@.len() == 0,
            coverage_union(*final(self), *old(self), other),
            (old(self).starts_in_window() && other.starts_in_window() && other.start >= old(
                self,
            ).start) ==> final(self).starts_in_window(),
            (old(self).starts_before_end() && other.starts_before_end() && other.end <= old(
                self,
            ).end) ==> final(self).starts_before_end(),
    {
        let ghost other_in = other;
        let mut other = other;
        self.process_batch();
        other.process_batch();
        let ghost my_mid = *self;
        let ghost other_mid = other;
        let ghost my_liv = self.liveness@;
        let ghost other_liv = other.liveness@;
        if other.liveness.len() == 0 {
            proof {
                assert forall|t: int|
                    #![trigger self.covers_time(t)]
                    self.covers_time(t) == (old(self).covers_time(t) || other_in.covers_time(
                        t,
                    )) by {
                    assert(my_mid.covers_time(t) == old(self).covers_time(t));
                    assert(other_mid.covers_time(t) == other_in.covers_time(t));
                }
                lemma_pack_coverage_union(*self, *old(self), other_in);
            }
            return ;
        }
        if self.liveness.len() == 0 {
            self.liveness = other.liveness;
            proof {
                assert forall|t: int|
                    #![trigger self.covers_time(t)]
                    self.covers_time(t) == (old(self).covers_time(t) || other_in.covers_time(
                        t,
                    )) by {
                    assert(my_mid.covers_time(t) == old(self).covers_time(t));
                    assert(other_mid.covers_time(t) == other_in.covers_time(t));
                }
                lemma_pack_coverage_union(*self, *old(self), other_in);
            }
            return ;
        }
        combine_intervals(&mut self.liveness, &other.liveness);
        proof {
            assert forall|t: int|
                #![trigger self.covers_time(t)]
                self.covers_time(t) == (old(self).covers_time(t) || other_in.covers_time(t)) by {
                assert(my_mid.covers_time(t) == old(self).covers_time(t));
                assert(other_mid.covers_time(t) == other_in.covers_time(t));
                assert(covers(self.liveness@, t) == (covers(my_liv, t) || covers(other_liv, t)));
            }
            lemma_pack_coverage_union(*self, *old(self), other_in);
            assert forall|k: int| 0 <= k && k < self.liveness@.len() implies ((
            #[trigger] self.liveness@[k]).0 >= old(self).start || !(old(self).starts_in_window()
                && other.starts_in_window() && other.start >= old(self).start)) by {
                if old(self).starts_in_window() && other.starts_in_window() && other.start >= old(
                    self,
                ).start {
                    if is_start_of(self.liveness@[k].0, my_liv) {
                        let w = choose|w: int| 0 <= w < my_liv.len() && (#[trigger] my_liv[w]).0
                            == self.liveness@[k].0;
                        assert(my_liv[w].0 >= old(self).start);
                    } else {
                        let w = choose|w: int| 0 <= w < other_liv.len() && (
                        #[trigger] other_liv[w]).0 == self.liveness@[k].0;
                        assert(other_liv[w].0 >= other.start);
                    }
                }
            }
            assert forall|k: int| 0 <= k && k < self.liveness@.len() implies ((
            #[trigger] self.liveness@[k]).0 < old(self).end || !(old(self).starts_before_end()
                && other.starts_before_end() && other.end <= old(self).end)) by {
                if old(self).starts_before_end() && other.starts_before_end() && other.end <= old(
                    self,
                ).end {
                    if is_start_of(self.liveness@[k].0, my_liv) {
                        let w = choose|w: int| 0 <= w < my_liv.len() && (#[trigger] my_liv[w]).0
                            == self.liveness@[k].0;
                        assert(my_liv[w].0 < old(self).end);
                    } else {
                        let w = choose|w: int| 0 <= w < other_liv.len() && (
                        #[trigger] other_liv[w]).0 == self.liveness@[k].0;
                        assert(other_liv[w].0 < other.end);
                    }
                }
            }
        }
    }


    /// Builds a transition state back from a finalized aggregate: the same
    /// window and liveness length, an empty buffer, and the aggregate's
    /// intervals as the liveness sequence.
    pub fn from_agg(agg: &HeartbeatAgg) -> (r: Self)
        requires
            agg.wf(),
        ensures
            r.wf(),
            r.starts_in_window(),
            r.starts_before_end(),
            r.start == agg.start_time,
            r.end == agg.end_time,
            r.interval_len == agg.interval_len,
            r.buffer@.len() == 0,
            r.liveness@ == agg.intervals(),
            coverage_of_agg(r, *agg),
    {
        let n = agg.interval_starts.len();
        let mut liveness: Vec<(i64, i64)> = Vec::new();
        let mut i: usize = 0;
        while i < n
            invariant
                0 <= i && i <= n,
                n == agg.interval_starts@.len(),
                n == agg.interval_ends@.len(),
                liveness@ == agg.intervals().subrange(0, i as int),
            decreases n - i,
        {
            liveness.push((agg.interval_starts[i], agg.interval_ends[i]));
            proof {
                assert(liveness@ =~= agg.intervals().subrange(0, i as int + 1));
            }
            i += 1;
        }
        proof {
            assert(liveness@ =~= agg.intervals());
        }
        let r = HeartbeatTransState {
            start: agg.start_time,
            end: agg.end_time,
            interval_len: agg.interval_len,
            buffer: Vec::new(),
            liveness,
        };
        proof {
            assert forall|k: int| 0 <= k && k < r.liveness@.len() implies (
            #[trigger] r.liveness@[k]).0 < r.end by {
                assert(agg.intervals()[k].0 < agg.intervals()[k].1);
                assert(agg.intervals()[k].1 <= agg.end_time);
            }
        }
        r
    }

    /// Finalizes the state into an immutable aggregate: the buffer is
    /// consolidated, and the last interval's end is trimmed to the window
    /// end. Instants before the window end stay covered exactly as in the
    /// state; when the state's intervals all start inside the window, the
    /// result is a well-formed aggregate that covers nothing at or beyond
    /// the window end.
    #[verifier::rlimit(60)]
    #[verifier::spinoff_prover]
    pub fn finalize(&mut self) -> (agg: HeartbeatAgg)
        requires
            old(self).wf(),
        ensures
            agg.start_time == old(self).start,
            agg.end_time == old(self).end,
            agg.interval_len == old(self).interval_len,
            agg.interval_starts@.len() == agg.interval_ends@.len(),
            finalized_coverage(agg, *old(self)),
            old(self).buffer@.len() == 0 ==> agg.intervals() == clamp_last(
                old(self).liveness@,
                old(self).end,
            ),
            old(self).starts_before_end() ==> intervals_ok(agg.intervals()),
            old(self).starts_before_end() ==> (forall|k: int|
                0 <= k && k < agg.intervals().len() ==> (#[trigger] agg.intervals()[k]).1 <= old(
                    self,
                ).end),
            old(self).starts_before_end() ==> nothing_beyond_end(agg),
            old(self).starts_in_window() ==> (forall|k: int|
                0 <= k && k < agg.intervals().len() ==> (#[trigger] agg.intervals()[k]).0 >= old(
                    self,
                ).start),
            (old(self).starts_in_window() && old(self).starts_before_end()) ==> agg.wf(),
    {
        self.process_batch();
        let ghost mid = *self;
        let ghost batched = self.liveness@;
        let n = self.liveness.len();
        let mut starts: Vec<i64> = Vec::new();
        let mut ends: Vec<i64> = Vec::new();
        let mut i: usize = 0;
        while i < n
            invariant
                0 <= i && i <= n,
                n == self.liveness@.len(),
                batched == self.liveness@,
                starts@.len() == i,
                ends@.len() == i,
                forall|k: int|
                    0 <= k && k < i ==> #[trigger] starts@[k] == self.liveness@[k].0,
                forall|k: int| 0 <= k && k < i ==> #[trigger] ends@[k] == self.liveness@[k].1,
            decreases n - i,
        {
            let p = self.liveness[i];
            starts.push(p.0);
            ends.push(p.1);
            i += 1;
        }
        if n > 0 && ends[n - 1] > self.end {
            ends.set(n - 1, self.end);
        }
        let agg = HeartbeatAgg {
            start_time: self.start,
            end_time: self.end,
            interval_len: self.interval_len,
            interval_starts: starts,
            interval_ends: ends,
        };
        proof {
            lemma_clamp_last(batched, self.end);
            assert(agg.intervals() =~= clamp_last(batched, self.end));
            assert forall|t: int|
                #![trigger agg.covers_time(t)]
                t < old(self).end ==> agg.covers_time(t) == old(self).covers_time(t) by {
                if t < old(self).end {
                    assert(covers(clamp_last(batched, old(self).end), t) == covers(batched, t));
                    assert(mid.covers_time(t) == old(self).covers_time(t));
                    assert(mid.buffer@.len() == 0);
                }
            }
            lemma_pack_finalized_coverage(agg, *old(self));
            if old(self).starts_before_end() {
                assert forall|t: int|
                    #![trigger agg.covers_time(t)]
                    t >= agg.end_time ==> !agg.covers_time(t) by {
                    if t >= agg.end_time {
                        assert(!covers(clamp_last(batched, old(self).end), t));
                    }
                }
                lemma_pack_nothing_beyond_end(agg);
            }
        }
        agg
    }

    /// Read access to the pending heartbeat buffer.
    pub fn get_buffer(&self) -> (r: &Vec<i64>)
        ensures
            r@ == self.buffer@,
    {
        &self.buffer
    }

    /// Read access to the consolidated live intervals.
    pub fn get_liveness(&self) -> (r: &Vec<(i64, i64)>)
        ensures
            r@ == self.liveness@,
    {
        &self.liveness
    }
}

} // verus!
