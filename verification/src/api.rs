//! The aggregate-style entry points an aggregation host drives: the
//! per-heartbeat transition, finalization into an immutable aggregate, and
//! the rollup transition that merges finalized aggregates back into a
//! running state.

use vstd::prelude::*;

use crate::agg::HeartbeatAgg;
use crate::intervals::intervals_ok;
use crate::trans::clamp_last;
use crate::trans::coverage_of_agg;
use crate::trans::coverage_of_single_heartbeat;
use crate::trans::coverage_union_with_agg;
use crate::trans::coverage_with_heartbeat;
use crate::trans::finalized_coverage;
use crate::trans::lemma_pack_coverage_of_single_heartbeat;
use crate::trans::lemma_pack_coverage_union_with_agg;
use crate::trans::nothing_beyond_end;
use crate::trans::HeartbeatTransState;

verus! {

/// Composes the coverage facts of a merge with the coverage of the
/// aggregate the merged state was built from.
#[verifier::spinoff_prover]
proof fn lemma_merge_covers_agg(
    snew: HeartbeatTransState,
    sold: HeartbeatTransState,
    other: HeartbeatTransState,
    a: HeartbeatAgg,
)
    requires
        crate::trans::coverage_union(snew, sold, other),
        coverage_of_agg(other, a),
    ensures
        coverage_union_with_agg(snew, sold, a),
{
    assert forall|t: int|
        #![trigger snew.covers_time(t)]
        snew.covers_time(t) == (sold.covers_time(t) || a.covers_time(t)) by {
        assert(snew.covers_time(t) == (sold.covers_time(t) || other.covers_time(t)));
        assert(other.covers_time(t) == a.covers_time(t));
    }
    lemma_pack_coverage_union_with_agg(snew, sold, a);
}

/// One aggregation step: on the first heartbeat the state is created
/// lazily over the window `[start, start + length)` with liveness length
/// `liveness_duration`, then the heartbeat is inserted.
pub fn heartbeat_trans(
    state: Option<HeartbeatTransState>,
    heartbeat: i64,
    start: i64,
    length: i64,
    liveness_duration: i64,
) -> (r: Option<HeartbeatTransState>)
    requires
        state is None ==> length > 0 && liveness_duration > 0 && start + length
            + liveness_duration <= i64::MAX && start <= heartbeat && heartbeat < start + length,
        state matches Some(s) ==> s.wf() && s.start <= heartbeat && heartbeat < s.end,
    ensures
        state is None ==> (r matches Some(st) && st.wf() && st.starts_in_window()
            && st.starts_before_end() && st.start == start && st.end == start + length
            && st.interval_len == liveness_duration && coverage_of_single_heartbeat(
            st,
            heartbeat,
        )),
        state matches Some(s) ==> (r matches Some(st) && st.wf() && st.start == s.start && st.end
            == s.end && st.interval_len == s.interval_len && coverage_with_heartbeat(
            st,
            s,
            heartbeat,
        ) && (s.starts_in_window() ==> st.starts_in_window()) && (s.starts_before_end()
            ==> st.starts_before_end())),
{
    let mut st = match state {
        Some(s) => s,
        None => HeartbeatTransState::new(start, start + length, liveness_duration),
    };
    let ghost fresh = st;
    st.insert(heartbeat);
    proof {
        if state is None {
            assert forall|t: int|
                #![trigger st.covers_time(t)]
                st.covers_time(t) == (heartbeat <= t && t < heartbeat + st.interval_len) by {
                assert(st.covers_time(t) == (fresh.covers_time(t) || (heartbeat <= t && t
                    < heartbeat + fresh.interval_len)));
                assert(!fresh.covers_time(t));
            }
            lemma_pack_coverage_of_single_heartbeat(st, heartbeat);
        }
    }
    Some(st)
}

/// Finalization: nothing from no state, otherwise the state's aggregate.
pub fn heartbeat_final(state: Option<HeartbeatTransState>) -> (r: Option<HeartbeatAgg>)
    requires
        state matches Some(s) ==> s.wf(),
    ensures
        state is None <==> r is None,
        state matches Some(s) ==> (r matches Some(agg) && agg.start_time == s.start
            && agg.end_time == s.end && agg.interval_len == s.interval_len
            && agg.interval_starts@.len() == agg.interval_ends@.len() && finalized_coverage(
            agg,
            s,
        ) && (s.buffer@.len() == 0 ==> agg.intervals() == clamp_last(s.liveness@, s.end)) && (
        s.starts_before_end() ==> intervals_ok(agg.intervals())) && (s.starts_before_end()
            ==> nothing_beyond_end(agg)) && ((s.starts_in_window() && s.starts_before_end())
            ==> agg.wf())),
{
    match state {
        None => None,
        Some(s) => {
            let mut s = s;
            Some(s.finalize())
        },
    }
}

/// One rollup step: no incoming aggregate leaves the state unchanged; an
/// aggregate with no running state becomes a fresh state; otherwise the
/// incoming aggregate is merged into the running state, whose window is
/// kept.
#[verifier::rlimit(100)]
#[verifier::spinoff_prover]
pub fn heartbeat_rollup_trans(
    state: Option<HeartbeatTransState>,
    value: Option<HeartbeatAgg>,
) -> (r: Option<HeartbeatTransState>)
    requires
        value matches Some(a) ==> a.wf(),
        state matches Some(s) ==> (value matches Some(a) ==> s.wf() && s.interval_len
            == a.interval_len),
    ensures
        value is None ==> r == state,
        state is None ==> (value matches Some(a) ==> (r matches Some(st) && st.wf()
            && st.starts_in_window() && st.starts_before_end() && st.start == a.start_time
            && st.end == a.end_time && st.interval_len == a.interval_len && st.buffer@.len() == 0
            && st.liveness@ == a.intervals() && coverage_of_agg(st, a))),
        state matches Some(s) ==> (value matches Some(a) ==> (r matches Some(st) && st.wf()
            && st.start == s.start && st.end == s.end && st.interval_len == s.interval_len
            && coverage_union_with_agg(st, s, a) && ((
        s.starts_in_window() && a.start_time >= s.start) ==> st.starts_in_window()) && ((
        s.starts_before_end() && a.end_time <= s.end) ==> st.starts_before_end()))),
{
    match (state, value) {
        (st, None) => st,
        (None, Some(a)) => Some(HeartbeatTransState::from_agg(&a)),
        (Some(s), Some(a)) => {
            let ghost s_snap = s;
            let other = HeartbeatTransState::from_agg(&a);
            let ghost other_snap = other;
            let mut s = s;
            s.combine(other);
            proof {
                lemma_merge_covers_agg(s, s_snap, other_snap, a);
            }
            Some(s)
        },
    }
}

} // verus!
