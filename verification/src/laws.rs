//! The library's laws: properties that tie the public operations together,
//! stated over the spec-level model and proved once and for all.

use vstd::prelude::*;

use crate::agg::dead_intervals;
use crate::agg::live_total;
use crate::agg::HeartbeatAgg;
use crate::intervals::covers;
use crate::intervals::heartbeat_covers;
use crate::intervals::intervals_ok;
use crate::intervals::lemma_canonical_form;
use crate::intervals::lemma_heartbeat_covers_same_members;
use crate::intervals::lemma_intervals_sorted;
use crate::intervals::union_cov;
use crate::trans::clamp_last;
use crate::trans::coverage_unchanged;
use crate::trans::nothing_beyond_end;
use crate::trans::HeartbeatTransState;

verus! {

/// Containment: every heartbeat that contributed to a finalized aggregate
/// and lies before the window end falls inside one of its live intervals;
/// and conversely every live instant is within the liveness length of some
/// heartbeat.
#[verifier::spinoff_prover]
pub proof fn lemma_heartbeat_containment(agg: HeartbeatAgg, hbs: Seq<i64>, len: i64, h: i64)
    requires
        len > 0,
        forall|t: int|
            #![trigger agg.covers_time(t)]
            t < agg.end_time ==> (agg.covers_time(t) == heartbeat_covers(hbs, len, t)),
        nothing_beyond_end(agg),
        hbs.contains(h),
        h < agg.end_time,
    ensures
        agg.covers_time(h as int),
        forall|t: int|
            #![trigger agg.covers_time(t)]
            agg.covers_time(t) ==> heartbeat_covers(hbs, len, t),
{
    let w = choose|w: int| 0 <= w < hbs.len() && hbs[w] == h;
    assert(hbs[w] <= h && h < hbs[w] + len);
    assert(heartbeat_covers(hbs, len, h as int));
    assert forall|t: int| #![trigger agg.covers_time(t)] agg.covers_time(t)
        implies heartbeat_covers(hbs, len, t) by {
        if t >= agg.end_time {
            assert(!agg.covers_time(t));
        }
    }
}

/// Window bounds: a well-formed aggregate's first interval starts at or
/// after the window start, and its last interval ends by the window end.
pub proof fn lemma_window_bounds(agg: HeartbeatAgg)
    requires
        agg.wf(),
        agg.intervals().len() > 0,
    ensures
        agg.intervals()[0].0 >= agg.start_time,
        agg.intervals().last().1 <= agg.end_time,
{
    assert(agg.intervals()[0].0 >= agg.start_time);
    assert(agg.intervals()[agg.intervals().len() - 1].1 <= agg.end_time);
}

/// The live total of intervals inside `[start, end]` is non-negative and
/// at most the window length.
proof fn lemma_live_total_in_window(s: Seq<(i64, i64)>, start: i64, end: i64)
    requires
        intervals_ok(s),
        start <= end,
        forall|k: int| 0 <= k && k < s.len() ==> (#[trigger] s[k]).0 >= start,
        forall|k: int| 0 <= k && k < s.len() ==> (#[trigger] s[k]).1 <= end,
    ensures
        0 <= live_total(s),
        live_total(s) <= end - start,
        s.len() > 0 ==> live_total(s) <= s.last().1 - start,
    decreases s.len(),
{
    if s.len() > 0 {
        let pre = s.drop_last();
        assert(pre =~= s.subrange(0, s.len() - 1));
        assert forall|k: int| 0 <= k && k < pre.len() implies (#[trigger] pre[k]).0 >= start
            && pre[k].1 <= end by {
            assert(pre[k] == s[k]);
        }
        lemma_live_total_in_window(pre, start, end);
        if pre.len() > 0 {
            assert(pre.last() == s[s.len() - 2]);
            assert(s[s.len() - 2].1 < s[s.len() - 1].0);
        }
    }
}

/// Duration law: live and dead time partition the window, and the live
/// total never exceeds the window length.
pub proof fn lemma_duration_partition(agg: HeartbeatAgg)
    requires
        agg.wf(),
    ensures
        live_total(agg.intervals()) + (agg.end_time - agg.start_time - live_total(
            agg.intervals(),
        )) == agg.end_time - agg.start_time,
        0 <= live_total(agg.intervals()),
        live_total(agg.intervals()) <= agg.end_time - agg.start_time,
{
    lemma_live_total_in_window(agg.intervals(), agg.start_time, agg.end_time);
}

/// Round trip: rebuilding a transition state from a well-formed aggregate
/// and finalizing it with no further heartbeats trims nothing, so the same
/// intervals come back.
pub proof fn lemma_rollup_round_trip(agg: HeartbeatAgg)
    requires
        agg.wf(),
    ensures
        clamp_last(agg.intervals(), agg.end_time) == agg.intervals(),
{
    if agg.intervals().len() > 0 {
        assert(agg.intervals()[agg.intervals().len() - 1].1 <= agg.end_time);
    }
}

/// Commutativity: any two heartbeat sequences with the same multiset of
/// entries produce the same well-formed interval sequence, whatever the
/// order the heartbeats arrived in.
#[verifier::spinoff_prover]
pub proof fn lemma_heartbeat_order_irrelevant(
    u: Seq<(i64, i64)>,
    v: Seq<(i64, i64)>,
    h1: Seq<i64>,
    h2: Seq<i64>,
    len: i64,
)
    requires
        intervals_ok(u),
        intervals_ok(v),
        h1.to_multiset() == h2.to_multiset(),
        forall|t: int| #![trigger covers(u, t)] covers(u, t) == heartbeat_covers(h1, len, t),
        forall|t: int| #![trigger covers(v, t)] covers(v, t) == heartbeat_covers(h2, len, t),
    ensures
        u == v,
{
    assert forall|x: i64| h1.contains(x) == h2.contains(x) by {
        broadcast use vstd::seq_lib::group_to_multiset_ensures;

        assert(h1.contains(x) == (h1.to_multiset().count(x) > 0));
        assert(h2.contains(x) == (h2.to_multiset().count(x) > 0));
    }
    lemma_heartbeat_covers_same_members(h1, h2, len);
    assert forall|t: int| covers(u, t) == covers(v, t) by {
        assert(covers(u, t) == heartbeat_covers(h1, len, t));
        assert(covers(v, t) == heartbeat_covers(h2, len, t));
        assert(heartbeat_covers(h1, len, t) == heartbeat_covers(h2, len, t));
    }
    lemma_canonical_form(u, v);
}

/// Merging is commutative: the union of two interval sequences is the same
/// well-formed sequence in either order.
pub proof fn lemma_union_commutative(
    u: Seq<(i64, i64)>,
    v: Seq<(i64, i64)>,
    a: Seq<(i64, i64)>,
    b: Seq<(i64, i64)>,
)
    requires
        intervals_ok(u),
        intervals_ok(v),
        union_cov(u, a, b),
        union_cov(v, b, a),
    ensures
        u == v,
{
    assert forall|t: int| covers(u, t) == covers(v, t) by {
        assert(covers(u, t) == (covers(a, t) || covers(b, t)));
        assert(covers(v, t) == (covers(b, t) || covers(a, t)));
    }
    lemma_canonical_form(u, v);
}

/// Rollup associativity: merging three interval sequences gives the same
/// result whichever pair is merged first.
pub proof fn lemma_union_associative(
    a: Seq<(i64, i64)>,
    b: Seq<(i64, i64)>,
    c: Seq<(i64, i64)>,
    ab: Seq<(i64, i64)>,
    ab_c: Seq<(i64, i64)>,
    bc: Seq<(i64, i64)>,
    a_bc: Seq<(i64, i64)>,
)
    requires
        intervals_ok(ab_c),
        intervals_ok(a_bc),
        union_cov(ab, a, b),
        union_cov(ab_c, ab, c),
        union_cov(bc, b, c),
        union_cov(a_bc, a, bc),
    ensures
        ab_c == a_bc,
{
    assert forall|t: int| covers(ab_c, t) == covers(a_bc, t) by {
        assert(covers(ab_c, t) == (covers(ab, t) || covers(c, t)));
        assert(covers(ab, t) == (covers(a, t) || covers(b, t)));
        assert(covers(a_bc, t) == (covers(a, t) || covers(bc, t)));
        assert(covers(bc, t) == (covers(b, t) || covers(c, t)));
    }
    lemma_canonical_form(ab_c, a_bc);
}

/// Batching transparency: two consolidated states over the same window
/// that cover the same instants hold the same intervals, so the finalized
/// aggregate does not depend on when or how often the buffer was flushed.
#[verifier::spinoff_prover]
pub proof fn lemma_batching_transparent(s1: HeartbeatTransState, s2: HeartbeatTransState)
    requires
        s1.wf(),
        s2.wf(),
        s1.buffer@.len() == 0,
        s2.buffer@.len() == 0,
        s1.start == s2.start,
        s1.end == s2.end,
        s1.interval_len == s2.interval_len,
        coverage_unchanged(s1, s2),
    ensures
        s1.liveness@ == s2.liveness@,
        clamp_last(s1.liveness@, s1.end) == clamp_last(s2.liveness@, s2.end),
{
    assert forall|t: int| covers(s1.liveness@, t) == covers(s2.liveness@, t) by {
        assert(s1.covers_time(t) == s2.covers_time(t));
        assert(!heartbeat_covers(s1.buffer@, s1.interval_len, t));
        assert(!heartbeat_covers(s2.buffer@, s2.interval_len, t));
    }
    lemma_canonical_form(s1.liveness@, s2.liveness@);
}

/// Finds the last interval that starts at or before `t`.
proof fn lemma_locate(s: Seq<(i64, i64)>, t: int) -> (k: int)
    requires
        intervals_ok(s),
        s.len() > 0,
        s[0].0 <= t,
    ensures
        0 <= k && k < s.len(),
        s[k].0 <= t,
        k == s.len() - 1 || t < s[k + 1].0,
    decreases s.len(),
{
    if s.len() == 1 || t < s[1].0 {
        0
    } else {
        let s1 = s.subrange(1, s.len() as int);
        assert forall|i: int| 0 <= i && i < s1.len() implies (#[trigger] s1[i]).0 < s1[i].1 by {
            assert(s1[i] == s[i + 1]);
        }
        assert forall|i: int| 0 <= i && i < s1.len() - 1 implies (#[trigger] s1[i]).1 < s1[i
            + 1].0 by {
            assert(s1[i] == s[i + 1]);
            assert(s1[i + 1] == s[i + 2]);
        }
        assert(s1[0] == s[1]);
        let k1 = lemma_locate(s1, t);
        assert(s1[k1] == s[k1 + 1]);
        if k1 < s1.len() - 1 {
            assert(s1[k1 + 1] == s[k1 + 2]);
        }
        k1 + 1
    }
}

/// The shape of the dead sequence when there is at least one live
/// interval: an optional leading gap, the interior gaps, and an optional
/// trailing gap.
#[verifier::spinoff_prover]
proof fn lemma_dead_index(agg: HeartbeatAgg)
    requires
        agg.wf(),
        agg.interval_starts@.len() > 0,
    ensures
        dead_intervals(agg).len() == head_count(agg) + agg.interval_starts@.len() - 1
            + tail_count(agg),
        forall|k: int|
            0 <= k && k < head_count(agg) ==> (#[trigger] dead_intervals(agg)[k]) == (
            agg.start_time, agg.interval_starts@[0]),
        forall|k: int|
            head_count(agg) <= k && k < head_count(agg) + agg.interval_starts@.len() - 1 ==> (
            #[trigger] dead_intervals(agg)[k]) == (
            agg.interval_ends@[k - head_count(agg)],
            agg.interval_starts@[k - head_count(agg) + 1],
            ),
        forall|k: int|
            head_count(agg) + agg.interval_starts@.len() - 1 <= k && k < dead_intervals(
                agg,
            ).len() ==> (#[trigger] dead_intervals(agg)[k]) == (
            agg.interval_ends@[agg.interval_starts@.len() - 1], agg.end_time),
{
    let d = dead_intervals(agg);
    let st = agg.start_time;
    let en = agg.end_time;
    let s = agg.interval_starts@;
    let e = agg.interval_ends@;
    let n = s.len() as int;
    let head = (if s[0] == st {
        Seq::<(i64, i64)>::empty()
    } else {
        seq![(st, s[0])]
    });
    let mid = Seq::new((n - 1) as nat, |i: int| (e[i], s[i + 1]));
    let tail = (if e[n - 1] == en {
        Seq::<(i64, i64)>::empty()
    } else {
        seq![(e[n - 1], en)]
    });
    assert(d == head + mid + tail);
    let hl = head.len() as int;
    assert(hl == head_count(agg));
    assert(tail.len() as int == tail_count(agg));
    assert forall|k: int| 0 <= k && k < hl implies (#[trigger] d[k]) == (st, s[0]) by {
        assert(d[k] == head[k]);
    }
    assert forall|k: int| hl <= k && k < hl + n - 1 implies (#[trigger] d[k]) == (
    e[k - hl], s[k - hl + 1]) by {
        assert(d[k] == mid[k - hl]);
    }
    assert forall|k: int| hl + n - 1 <= k && k < d.len() implies (#[trigger] d[k]) == (
    e[n - 1], en) by {
        assert(d[k] == tail[k - hl - (n - 1)]);
    }
}

/// Whether the window start lies in a dead gap before the first live
/// interval.
spec fn head_count(agg: HeartbeatAgg) -> int {
    if agg.interval_starts@[0] == agg.start_time {
        0
    } else {
        1
    }
}

/// Whether the window end lies in a dead gap after the last live interval.
spec fn tail_count(agg: HeartbeatAgg) -> int {
    if agg.interval_ends@[agg.interval_starts@.len() - 1] == agg.end_time {
        0
    } else {
        1
    }
}

/// Complement law: the dead ranges are themselves a well-formed sequence of
/// non-empty intervals lying inside the window, and together with the live
/// ranges they tile `[start_time, end_time)`: every instant of the window
/// is in exactly one of the two, and the dead ranges cover nothing outside
/// the window.
#[verifier::rlimit(100)]
#[verifier::spinoff_prover]
pub proof fn lemma_dead_ranges_complement(agg: HeartbeatAgg)
    requires
        agg.wf(),
    ensures
        intervals_ok(dead_intervals(agg)),
        forall|k: int|
            0 <= k && k < dead_intervals(agg).len() ==> (#[trigger] dead_intervals(agg)[k]).0
                >= agg.start_time && dead_intervals(agg)[k].1 <= agg.end_time,
        forall|t: int|
            agg.start_time <= t && t < agg.end_time ==> (covers(dead_intervals(agg), t)
                != agg.covers_time(t)),
        forall|t: int|
            !(agg.start_time <= t && t < agg.end_time) ==> !covers(dead_intervals(agg), t),
{
    let d = dead_intervals(agg);
    let live = agg.intervals();
    let st = agg.start_time;
    let en = agg.end_time;
    let s = agg.interval_starts@;
    let e = agg.interval_ends@;
    let n = s.len() as int;
    assert forall|k: int| 0 <= k && k < n implies (#[trigger] live[k]) == (s[k], e[k]) by {}
    if n == 0 {
        assert(d =~= seq![(st, en)]);
        assert(d[0] == (st, en));
        assert forall|t: int| covers(d, t) == (st <= t && t < en) by {
            if covers(d, t) {
                let k = choose|k: int| 0 <= k < d.len() && (#[trigger] d[k]).0 <= t < d[k].1;
                assert(k == 0);
            }
            if st <= t && t < en {
                assert(d[0].0 <= t && t < d[0].1);
            }
        }
        assert forall|t: int| !agg.covers_time(t) by {
            if covers(live, t) {
                let k = choose|k: int| 0 <= k < live.len() && (#[trigger] live[k]).0 <= t
                    < live[k].1;
            }
        }
    } else {
        lemma_dead_index(agg);
        let hl = head_count(agg);
        // Interval facts carried over from the live sequence.
        assert forall|k: int| 0 <= k && k < n implies s[k] < e[k] && s[k] >= st && e[k] <= en by {
            assert(live[k].0 < live[k].1);
            assert(live[k].0 >= st);
            assert(live[k].1 <= en);
        }
        assert forall|k: int| 0 <= k && k < n - 1 implies e[k] < s[k + 1] by {
            assert(live[k].1 < live[k + 1].0);
        }
        // The dead sequence is well formed and lies inside the window.
        assert forall|k: int| 0 <= k && k < d.len() implies (#[trigger] d[k]).0 < d[k].1 by {}
        assert forall|k: int| 0 <= k && k < d.len() - 1 implies (#[trigger] d[k]).1 < d[k
            + 1].0 by {}
        assert(intervals_ok(d));
        assert forall|k: int| 0 <= k && k < d.len() implies (#[trigger] d[k]).0 >= st && d[k].1
            <= en by {}
        // Nothing outside the window is dead.
        assert forall|t: int| !(st <= t && t < en) implies !covers(d, t) by {
            if covers(d, t) {
                let k = choose|k: int| 0 <= k < d.len() && (#[trigger] d[k]).0 <= t < d[k].1;
                assert(d[k].0 >= st && d[k].1 <= en);
            }
        }
        // Inside the window, dead and live are complements.
        assert forall|t: int| st <= t && t < en implies (covers(d, t) != agg.covers_time(t)) by {
            if covers(d, t) && covers(live, t) {
                let kd = choose|k: int| 0 <= k < d.len() && (#[trigger] d[k]).0 <= t < d[k].1;
                let kl = choose|k: int| 0 <= k < live.len() && (#[trigger] live[k]).0 <= t
                    < live[k].1;
                assert(s[kl] <= t && t < e[kl]);
                if kd < hl {
                    if kl > 0 {
                        lemma_intervals_sorted(live, 0, kl);
                    }
                    assert(false);
                } else if kd < hl + n - 1 {
                    let i = kd - hl;
                    assert(e[i] <= t && t < s[i + 1]);
                    if kl <= i {
                        if kl < i {
                            lemma_intervals_sorted(live, kl, i);
                        }
                        assert(false);
                    } else {
                        if kl > i + 1 {
                            lemma_intervals_sorted(live, i + 1, kl);
                        }
                        assert(false);
                    }
                } else {
                    assert(e[n - 1] <= t);
                    if kl < n - 1 {
                        lemma_intervals_sorted(live, kl, n - 1);
                    }
                    assert(false);
                }
            }
            if !covers(d, t) && !covers(live, t) {
                if t < s[0] {
                    assert(s[0] != st);
                    assert(d[0] == (st, s[0]));
                    assert(d[0].0 <= t && t < d[0].1);
                    assert(covers(d, t));
                } else {
                    let k = lemma_locate(live, t);
                    assert(s[k] <= t);
                    assert(!(live[k].0 <= t && t < live[k].1));
                    assert(t >= e[k]);
                    if k < n - 1 {
                        assert(t < live[k + 1].0);
                        assert(d[hl + k] == (e[k], s[k + 1]));
                        assert(d[hl + k].0 <= t && t < d[hl + k].1);
                        assert(covers(d, t));
                    } else {
                        assert(e[n - 1] <= t && t < en);
                        assert(e[n - 1] != en);
                        assert(d[hl + n - 1] == (e[n - 1], en));
                        assert(d[hl + n - 1].0 <= t && t < d[hl + n - 1].1);
                        assert(covers(d, t));
                    }
                }
                assert(false);
            }
        }
    }
}

/// Sortedness and non-emptiness for a transition state: every consolidated
/// interval is non-empty, and any earlier one ends strictly before any
/// later one starts, so the starts are strictly increasing and no two
/// intervals overlap or touch.
pub proof fn lemma_liveness_sorted(st: HeartbeatTransState, i: int, j: int)
    requires
        st.wf(),
        0 <= i,
        i <= j,
        j < st.liveness@.len(),
    ensures
        st.liveness@[i].0 < st.liveness@[i].1,
        i < j ==> st.liveness@[i].1 < st.liveness@[j].0,
{
    if i < j {
        lemma_intervals_sorted(st.liveness@, i, j);
    }
}

/// Sortedness and non-emptiness for a finalized aggregate: every live
/// interval is non-empty, and any earlier one ends strictly before any
/// later one starts.
pub proof fn lemma_aggregate_sorted(agg: HeartbeatAgg, i: int, j: int)
    requires
        agg.wf(),
        0 <= i,
        i <= j,
        j < agg.intervals().len(),
    ensures
        agg.intervals()[i].0 < agg.intervals()[i].1,
        i < j ==> agg.intervals()[i].1 < agg.intervals()[j].0,
{
    if i < j {
        lemma_intervals_sorted(agg.intervals(), i, j);
    }
}

} // verus!
