//! The interval model: well-formed interval sequences, pointwise coverage,
//! and the canonical-form theorem that makes coverage a complete
//! specification of a well-formed sequence.
//!
//! An interval `(s, e)` stands for the half-open range of integer
//! milliseconds `[s, e)`. A sequence is well formed when every interval is
//! non-empty and each interval ends strictly before the next begins; two
//! intervals that touch (`e == s'`) must have been coalesced into one.
//! Under that discipline a sequence is determined by the set of instants it
//! covers, which lets every operation be specified by coverage alone.

use vstd::prelude::*;

verus! {

/// Every interval is non-empty (`s < e`) and each ends strictly before the
/// next starts (`e_i < s_{i+1}`), so the sequence is sorted, non-overlapping
/// and has no touching pair left uncoalesced.
pub open spec fn intervals_ok(s: Seq<(i64, i64)>) -> bool {
    &&& forall|i: int| 0 <= i && i < s.len() ==> (#[trigger] s[i]).0 < s[i].1
    &&& forall|i: int| 0 <= i && i < s.len() - 1 ==> (#[trigger] s[i]).1 < s[i + 1].0
}

/// The instant `t` lies inside one of the intervals of `s`.
pub open spec fn covers(s: Seq<(i64, i64)>, t: int) -> bool {
    exists|i: int| 0 <= i && i < s.len() && (#[trigger] s[i]).0 <= t && t < s[i].1
}

/// The instant `t` is within the liveness length `len` of one of the
/// heartbeats of `hbs`.
pub open spec fn heartbeat_covers(hbs: Seq<i64>, len: i64, t: int) -> bool {
    exists|i: int| 0 <= i && i < hbs.len() && (#[trigger] hbs[i]) <= t && t < hbs[i] + len
}

/// `x` is the start of some interval of `s`.
pub open spec fn is_start_of(x: i64, s: Seq<(i64, i64)>) -> bool {
    exists|i: int| 0 <= i && i < s.len() && (#[trigger] s[i]).0 == x
}

/// `x` is the end of some interval of `s`.
pub open spec fn is_end_of(x: i64, s: Seq<(i64, i64)>) -> bool {
    exists|i: int| 0 <= i && i < s.len() && (#[trigger] s[i]).1 == x
}

/// In a well-formed sequence any earlier interval ends strictly before any
/// later one starts; in particular the starts are strictly increasing.
pub proof fn lemma_intervals_sorted(s: Seq<(i64, i64)>, i: int, j: int)
    requires
        intervals_ok(s),
        0 <= i && i < j && j < s.len(),
    ensures
        s[i].1 < s[j].0,
        s[i].0 < s[j].0,
    decreases j - i,
{
    if i + 1 < j {
        lemma_intervals_sorted(s, i + 1, j);
    }
}

/// Appending an interval extends coverage by exactly that interval's range.
pub proof fn lemma_covers_push(s: Seq<(i64, i64)>, p: (i64, i64))
    ensures
        forall|t: int| #![trigger covers(s.push(p), t)] covers(s.push(p), t) == (covers(s, t) || (p.0 <= t && t < p.1)),
{
    assert forall|t: int| #![trigger covers(s.push(p), t)] covers(s.push(p), t) == (covers(s, t) || (p.0 <= t && t < p.1)) by {
        if covers(s.push(p), t) {
            let i = choose|i: int| 0 <= i && i < s.push(p).len() && (#[trigger] s.push(p)[i]).0 <= t && t < s.push(p)[i].1;
            if i < s.len() {
                assert(s[i].0 <= t && t < s[i].1);
            } else {
                assert(s.push(p)[i] == p);
            }
        }
        if covers(s, t) {
            let i = choose|i: int| 0 <= i && i < s.len() && (#[trigger] s[i]).0 <= t && t < s[i].1;
            assert(s.push(p)[i].0 <= t && t < s.push(p)[i].1);
        }
        if p.0 <= t && t < p.1 {
            assert(s.push(p)[s.len() as int].0 <= t && t < s.push(p)[s.len() as int].1);
        }
    }
}

/// Appending a heartbeat extends heartbeat coverage by exactly `[h, h + len)`.
pub proof fn lemma_heartbeat_covers_push(hbs: Seq<i64>, h: i64, len: i64)
    ensures
        forall|t: int|
            #![trigger heartbeat_covers(hbs.push(h), len, t)]
            heartbeat_covers(hbs.push(h), len, t)
                == (heartbeat_covers(hbs, len, t) || (h <= t && t < h + len)),
{
    assert forall|t: int|
        #![trigger heartbeat_covers(hbs.push(h), len, t)]
        heartbeat_covers(hbs.push(h), len, t)
            == (heartbeat_covers(hbs, len, t) || (h <= t && t < h + len)) by {
        if heartbeat_covers(hbs.push(h), len, t) {
            let i = choose|i: int| 0 <= i && i < hbs.push(h).len()
                && (#[trigger] hbs.push(h)[i]) <= t && t < hbs.push(h)[i] + len;
            if i < hbs.len() {
                assert(hbs[i] <= t && t < hbs[i] + len);
            } else {
                assert(hbs.push(h)[i] == h);
            }
        }
        if heartbeat_covers(hbs, len, t) {
            let i = choose|i: int| 0 <= i && i < hbs.len() && (#[trigger] hbs[i]) <= t && t < hbs[i] + len;
            assert(hbs.push(h)[i] <= t && t < hbs.push(h)[i] + len);
        }
        if h <= t && t < h + len {
            assert(hbs.push(h)[hbs.len() as int] == h);
        }
    }
}

/// The canonical-form theorem: two well-formed interval sequences that cover
/// the same instants are the same sequence. Coverage therefore pins a
/// well-formed result down completely.
#[verifier::spinoff_prover]
pub proof fn lemma_canonical_form(a: Seq<(i64, i64)>, b: Seq<(i64, i64)>)
    requires
        intervals_ok(a),
        intervals_ok(b),
        forall|t: int| covers(a, t) == covers(b, t),
    ensures
        a == b,
    decreases a.len(),
{
    if a.len() == 0 {
        if b.len() > 0 {
            assert(covers(b, b[0].0 as int));
            let i = choose|i: int| 0 <= i && i < a.len() && (#[trigger] a[i]).0 <= b[0].0 < a[i].1;
            assert(false);
        }
        assert(a =~= b);
    } else {
        if b.len() == 0 {
            assert(covers(a, a[0].0 as int));
            let i = choose|i: int| 0 <= i && i < b.len() && (#[trigger] b[i]).0 <= a[0].0 < b[i].1;
            assert(false);
        }
        // The first starts agree: each is the least covered instant.
        assert(covers(a, a[0].0 as int));
        assert(covers(b, b[0].0 as int));
        let ia = choose|i: int| 0 <= i && i < b.len() && (#[trigger] b[i]).0 <= a[0].0 < b[i].1;
        if ia > 0 {
            lemma_intervals_sorted(b, 0, ia);
        }
        assert(b[0].0 <= a[0].0);
        let ib = choose|i: int| 0 <= i && i < a.len() && (#[trigger] a[i]).0 <= b[0].0 < a[i].1;
        if ib > 0 {
            lemma_intervals_sorted(a, 0, ib);
        }
        assert(a[0].0 <= b[0].0);
        // The first ends agree: each is the least uncovered instant beyond.
        if a[0].1 < b[0].1 {
            assert(covers(b, a[0].1 as int));
            let i = choose|i: int| 0 <= i && i < a.len() && (#[trigger] a[i]).0 <= a[0].1 < a[i].1;
            assert(i > 0);
            lemma_intervals_sorted(a, 0, i);
            assert(false);
        }
        if b[0].1 < a[0].1 {
            assert(covers(a, b[0].1 as int));
            let i = choose|i: int| 0 <= i && i < b.len() && (#[trigger] b[i]).0 <= b[0].1 < b[i].1;
            assert(i > 0);
            lemma_intervals_sorted(b, 0, i);
            assert(false);
        }
        assert(a[0] == b[0]);
        // The tails cover the same instants, so they agree by induction.
        let a1 = a.subrange(1, a.len() as int);
        let b1 = b.subrange(1, b.len() as int);
        assert forall|t: int| covers(a1, t) == covers(b1, t) by {
            lemma_tail_covers(a, t);
            lemma_tail_covers(b, t);
        }
        lemma_canonical_form(a1, b1);
        assert(a.len() == b.len());
        assert forall|i: int| 0 <= i && i < a.len() implies a[i] == b[i] by {
            if i > 0 {
                assert(a1[i - 1] == b1[i - 1]);
            }
        }
        assert(a =~= b);
    }
}

/// Sorts a heartbeat buffer ascending by insertion sort. The multiset of
/// entries — and with it membership — is unchanged.
#[verifier::spinoff_prover]
pub fn sort_buffer(v: &mut Vec<i64>)
    ensures
        final(v)@.len() == old(v)@.len(),
        forall|p: int, q: int| 0 <= p && p <= q && q < final(v)@.len() ==> final(v)@[p] <= final(v)@[q],
        final(v)@.to_multiset() == old(v)@.to_multiset(),
        forall|x: i64| final(v)@.contains(x) == old(v)@.contains(x),
{
    let ghost orig = v@;
    let mut i: usize = 1;
    while i < v.len()
        invariant
            1 <= i,
            v@.len() == orig.len(),
            v@.to_multiset() == orig.to_multiset(),
            forall|p: int, q: int| 0 <= p && p <= q && q < i && q < v@.len() ==> v@[p] <= v@[q],
        decreases v@.len() - i,
    {
        let mut j: usize = i;
        while j > 0 && v[j - 1] > v[j]
            invariant
                0 <= j && j <= i && i < v@.len(),
                v@.len() == orig.len(),
                v@.to_multiset() == orig.to_multiset(),
                forall|p: int, q: int| 0 <= p && p < q && q <= i && q != j ==> v@[p] <= v@[q],
            decreases j,
    {
            let x = v[j - 1];
            let y = v[j];
            let ghost pre = v@;
            v.set(j - 1, y);
            v.set(j, x);
            proof {
                broadcast use vstd::seq_lib::group_to_multiset_ensures;
                broadcast use vstd::multiset::group_multiset_axioms;
                assert(v@ == pre.update(j - 1, y).update(j as int, x));
                assert(pre.contains(x) && pre.contains(y));
                assert(v@.to_multiset() =~= pre.to_multiset());
            }
            j -= 1;
        }
        i += 1;
    }
    proof {
        broadcast use vstd::seq_lib::group_to_multiset_ensures;
        assert forall|x: i64| v@.contains(x) == orig.contains(x) by {
            assert(v@.contains(x) == (v@.to_multiset().count(x) > 0));
            assert(orig.contains(x) == (orig.to_multiset().count(x) > 0));
        }
    }
}

/// `x` is some heartbeat of `hbs` plus `len`.
pub open spec fn is_heartbeat_end(x: i64, hbs: Seq<i64>, len: i64) -> bool {
    exists|i: int| 0 <= i && i < hbs.len() && x == (#[trigger] hbs[i]) + len
}


/// `r` covers exactly what `a` or `b` covers: it is the set union.
pub open spec fn union_cov(r: Seq<(i64, i64)>, a: Seq<(i64, i64)>, b: Seq<(i64, i64)>) -> bool {
    forall|t: int| #![trigger covers(r, t)] covers(r, t) == (covers(a, t) || covers(b, t))
}

/// Every start of `r` is a start of `a` or of `b`.
pub open spec fn starts_from(r: Seq<(i64, i64)>, a: Seq<(i64, i64)>, b: Seq<(i64, i64)>) -> bool {
    forall|k: int| 0 <= k && k < r.len()
        ==> (is_start_of((#[trigger] r[k]).0, a) || is_start_of(r[k].0, b))
}

/// Every end of `r` is an end of `a` or of `b`.
pub open spec fn ends_from(r: Seq<(i64, i64)>, a: Seq<(i64, i64)>, b: Seq<(i64, i64)>) -> bool {
    forall|k: int| 0 <= k && k < r.len()
        ==> (is_end_of((#[trigger] r[k]).1, a) || is_end_of(r[k].1, b))
}

/// The larger of two interval ends.
pub open spec fn max_end(x: i64, y: i64) -> i64 {
    if x >= y {
        x
    } else {
        y
    }
}

/// One sweep step that extends the current run: a heartbeat at or before
/// the bound pushes the bound out to `h + len` without opening a gap.
#[verifier::spinoff_prover]
proof fn lemma_sweep_extend(out: Seq<(i64, i64)>, s: i64, bound: i64, hbs: Seq<i64>, i: int, len: i64, h: i64)
    requires
        len > 0,
        1 <= i && i < hbs.len(),
        forall|p: int, q: int| 0 <= p && p <= q && q < hbs.len() ==> hbs[p] <= hbs[q],
        bound == hbs[i - 1] + len,
        s <= hbs[i - 1],
        h == hbs[i],
        h <= bound,
        forall|t: int| (covers(out, t) || (s <= t && t < bound))
            == heartbeat_covers(hbs.subrange(0, i), len, t),
    ensures
        forall|t: int| (covers(out, t) || (s <= t && t < h + len))
            == heartbeat_covers(hbs.subrange(0, i + 1), len, t),
{
    assert(hbs.subrange(0, i + 1) =~= hbs.subrange(0, i).push(hbs[i]));
    lemma_heartbeat_covers_push(hbs.subrange(0, i), h, len);
    assert(hbs[i - 1] <= hbs[i]);
    assert forall|t: int| (covers(out, t) || (s <= t && t < h + len))
        == heartbeat_covers(hbs.subrange(0, i + 1), len, t) by {
        assert((covers(out, t) || (s <= t && t < bound))
            == heartbeat_covers(hbs.subrange(0, i), len, t));
    }
}

/// One sweep step that closes the current run: a heartbeat beyond the bound
/// emits `(s, bound)` and opens a new run at `h`.
#[verifier::spinoff_prover]
proof fn lemma_sweep_emit(out: Seq<(i64, i64)>, s: i64, bound: i64, hbs: Seq<i64>, i: int, len: i64, h: i64)
    requires
        len > 0,
        1 <= i && i < hbs.len(),
        forall|p: int, q: int| 0 <= p && p <= q && q < hbs.len() ==> hbs[p] <= hbs[q],
        bound == hbs[i - 1] + len,
        s <= hbs[i - 1],
        h == hbs[i],
        h > bound,
        forall|t: int| (covers(out, t) || (s <= t && t < bound))
            == heartbeat_covers(hbs.subrange(0, i), len, t),
    ensures
        forall|t: int| (covers(out.push((s, bound)), t) || (h <= t && t < h + len))
            == heartbeat_covers(hbs.subrange(0, i + 1), len, t),
{
    assert(hbs.subrange(0, i + 1) =~= hbs.subrange(0, i).push(hbs[i]));
    lemma_heartbeat_covers_push(hbs.subrange(0, i), h, len);
    lemma_covers_push(out, (s, bound));
    assert forall|t: int| (covers(out.push((s, bound)), t) || (h <= t && t < h + len))
        == heartbeat_covers(hbs.subrange(0, i + 1), len, t) by {
        assert((covers(out, t) || (s <= t && t < bound))
            == heartbeat_covers(hbs.subrange(0, i), len, t));
        assert(covers(out.push((s, bound)), t) == (covers(out, t) || (s <= t && t < bound)));
    }
}

/// The final sweep step: emitting the last open run completes the coverage
/// of the whole heartbeat batch.
#[verifier::spinoff_prover]
proof fn lemma_sweep_last(out: Seq<(i64, i64)>, s: i64, bound: i64, hbs: Seq<i64>, i: int, len: i64)
    requires
        i == hbs.len(),
        forall|t: int| (covers(out, t) || (s <= t && t < bound))
            == heartbeat_covers(hbs.subrange(0, i), len, t),
    ensures
        forall|t: int| covers(out.push((s, bound)), t) == heartbeat_covers(hbs, len, t),
{
    assert(hbs.subrange(0, i) =~= hbs);
    lemma_covers_push(out, (s, bound));
    assert forall|t: int| covers(out.push((s, bound)), t) == heartbeat_covers(hbs, len, t) by {
        assert((covers(out, t) || (s <= t && t < bound))
            == heartbeat_covers(hbs.subrange(0, i), len, t));
        assert(covers(out.push((s, bound)), t) == (covers(out, t) || (s <= t && t < bound)));
    }
}

/// Turns a sorted, non-empty heartbeat batch into the well-formed interval
/// sequence covering exactly the instants within `len` of a heartbeat: a
/// heartbeat at or before the running bound extends the current run, any
/// other begins a new one. Every produced start is a heartbeat and every
/// produced end is a heartbeat plus `len`.
#[verifier::loop_isolation(false)]
#[verifier::spinoff_prover]
pub fn batch_intervals(hbs: &Vec<i64>, len: i64) -> (r: Vec<(i64, i64)>)
    requires
        hbs@.len() > 0,
        len > 0,
        forall|p: int, q: int| 0 <= p && p <= q && q < hbs@.len() ==> hbs@[p] <= hbs@[q],
        forall|i: int| 0 <= i && i < hbs@.len() ==> (#[trigger] hbs@[i]) + len <= i64::MAX,
    ensures
        r@.len() > 0,
        intervals_ok(r@),
        forall|t: int| covers(r@, t) == heartbeat_covers(hbs@, len, t),
        forall|k: int| 0 <= k && k < r@.len() ==> hbs@.contains((#[trigger] r@[k]).0),
        forall|k: int| 0 <= k && k < r@.len() ==> is_heartbeat_end((#[trigger] r@[k]).1, hbs@, len),
{
    let mut out: Vec<(i64, i64)> = Vec::new();
    let mut s: i64 = hbs[0];
    let mut bound: i64 = s + len;
    let mut i: usize = 1;
    proof {
        assert(hbs@.contains(s));
        assert forall|t: int| (covers(out@, t) || (s <= t && t < bound))
            == heartbeat_covers(hbs@.subrange(0, i as int), len, t) by {
            assert(hbs@.subrange(0, i as int) =~= seq![hbs@[0]]);
            if heartbeat_covers(hbs@.subrange(0, i as int), len, t) {
                let w = choose|w: int| 0 <= w && w < hbs@.subrange(0, i as int).len()
                    && (#[trigger] hbs@.subrange(0, i as int)[w]) <= t
                        < hbs@.subrange(0, i as int)[w] + len;
                assert(w == 0);
            }
            if s <= t && t < bound {
                assert(hbs@.subrange(0, i as int)[0] <= t && t < hbs@.subrange(0, i as int)[0] + len);
            }
        }
    }
    while i < hbs.len()
        invariant
            1 <= i && i <= hbs@.len(),
            len > 0,
            forall|p: int, q: int| 0 <= p && p <= q && q < hbs@.len() ==> hbs@[p] <= hbs@[q],
            forall|k: int| 0 <= k && k < hbs@.len() ==> (#[trigger] hbs@[k]) + len <= i64::MAX,
            bound == hbs@[i - 1] + len,
            s <= hbs@[i - 1],
            hbs@.contains(s),
            intervals_ok(out@),
            out@.len() > 0 ==> out@.last().1 < s,
            forall|t: int| (covers(out@, t) || (s <= t && t < bound))
                == heartbeat_covers(hbs@.subrange(0, i as int), len, t),
            forall|k: int| 0 <= k && k < out@.len() ==> hbs@.contains((#[trigger] out@[k]).0),
            forall|k: int| 0 <= k && k < out@.len() ==> is_heartbeat_end((#[trigger] out@[k]).1, hbs@, len),
        decreases hbs@.len() - i,
    {
        let h = hbs[i];
        if h <= bound {
            proof {
                lemma_sweep_extend(out@, s, bound, hbs@, i as int, len, h);
            }
            bound = h + len;
        } else {
            proof {
                lemma_sweep_emit(out@, s, bound, hbs@, i as int, len, h);
                assert(s < bound);
            }
            out.push((s, bound));
            s = h;
            bound = h + len;
        }
        i += 1;
    }
    proof {
        lemma_sweep_last(out@, s, bound, hbs@, i as int, len);
        assert(s < bound);
    }
    out.push((s, bound));
    out
}



/// Concatenation covers exactly what either part covers.
#[verifier::spinoff_prover]
pub proof fn lemma_covers_add(x: Seq<(i64, i64)>, y: Seq<(i64, i64)>)
    ensures
        forall|t: int| #![trigger covers(x + y, t)] covers(x + y, t) == (covers(x, t) || covers(y, t)),
{
    assert forall|t: int| #![trigger covers(x + y, t)] covers(x + y, t) == (covers(x, t) || covers(y, t)) by {
        if covers(x + y, t) {
            let i = choose|i: int| 0 <= i && i < (x + y).len() && ((#[trigger] (x + y)[i])).0 <= t && t < ((x + y)[i]).1;
            if i < x.len() {
                assert(x[i].0 <= t && t < x[i].1);
            } else {
                assert(y[i - x.len()].0 <= t && t < y[i - x.len()].1);
            }
        }
        if covers(x, t) {
            let i = choose|i: int| 0 <= i && i < x.len() && (#[trigger] x[i]).0 <= t && t < x[i].1;
            assert(((x + y)[i]).0 <= t && t < ((x + y)[i]).1);
        }
        if covers(y, t) {
            let i = choose|i: int| 0 <= i && i < y.len() && (#[trigger] y[i]).0 <= t && t < y[i].1;
            assert(((x + y)[i + x.len()]).0 <= t && t < ((x + y)[i + x.len()]).1);
        }
    }
}

/// Concatenation of two well-formed sequences is well formed when the first
/// ends strictly before the second begins.
#[verifier::spinoff_prover]
pub proof fn lemma_ok_add(x: Seq<(i64, i64)>, y: Seq<(i64, i64)>)
    requires
        intervals_ok(x),
        intervals_ok(y),
        x.len() > 0 && y.len() > 0 ==> x.last().1 < y[0].0,
    ensures
        intervals_ok(x + y),
{
    assert forall|k: int| 0 <= k && k < (x + y).len() implies ((x + y)[k]).0 < ((x + y)[k]).1 by {
        if k < x.len() {
            assert((x + y)[k] == x[k]);
        } else {
            assert((x + y)[k] == y[k - x.len()]);
        }
    }
    assert forall|k: int| 0 <= k && k < (x + y).len() - 1 implies ((x + y)[k]).1 < ((x + y)[k + 1]).0 by {
        if k + 1 < x.len() {
            assert((x + y)[k] == x[k] && (x + y)[k + 1] == x[k + 1]);
        } else if k + 1 == x.len() {
            assert((x + y)[k] == x[k] && x[k] == x.last());
            assert((x + y)[k + 1] == y[0]);
        } else {
            assert((x + y)[k] == y[k - x.len()] && (x + y)[k + 1] == y[k + 1 - x.len()]);
        }
    }
}

/// Two heartbeat sequences with the same members keep the same instants
/// alive.
#[verifier::spinoff_prover]
pub proof fn lemma_heartbeat_covers_same_members(h1: Seq<i64>, h2: Seq<i64>, len: i64)
    requires
        forall|x: i64| h1.contains(x) == h2.contains(x),
    ensures
        forall|t: int| heartbeat_covers(h1, len, t) == heartbeat_covers(h2, len, t),
{
    assert forall|t: int| heartbeat_covers(h1, len, t) == heartbeat_covers(h2, len, t) by {
        if heartbeat_covers(h1, len, t) {
            let i = choose|i: int| 0 <= i && i < h1.len() && (#[trigger] h1[i]) <= t && t < h1[i] + len;
            assert(h1.contains(h1[i]));
            let j = choose|j: int| 0 <= j && j < h2.len() && h2[j] == h1[i];
            assert(h2[j] <= t && t < h2[j] + len);
        }
        if heartbeat_covers(h2, len, t) {
            let i = choose|i: int| 0 <= i && i < h2.len() && (#[trigger] h2[i]) <= t && t < h2[i] + len;
            assert(h2.contains(h2[i]));
            let j = choose|j: int| 0 <= j && j < h1.len() && h1[j] == h2[i];
            assert(h1[j] <= t && t < h1[j] + len);
        }
    }
}

/// Coverage of the tail of a well-formed sequence: exactly the coverage of
/// the whole, restricted to the instants at or beyond the first interval's
/// end.
#[verifier::spinoff_prover]
proof fn lemma_tail_covers(a: Seq<(i64, i64)>, t: int)
    requires
        intervals_ok(a),
        a.len() > 0,
    ensures
        covers(a.subrange(1, a.len() as int), t) == (covers(a, t) && t >= a[0].1),
{
    let a1 = a.subrange(1, a.len() as int);
    if covers(a1, t) {
        let i = choose|i: int| 0 <= i && i < a1.len() && (#[trigger] a1[i]).0 <= t && t < a1[i].1;
        assert(a[i + 1].0 <= t && t < a[i + 1].1);
        lemma_intervals_sorted(a, 0, i + 1);
        assert(covers(a, t));
        assert(t >= a[0].1);
    }
    if covers(a, t) && t >= a[0].1 {
        let i = choose|i: int| 0 <= i && i < a.len() && (#[trigger] a[i]).0 <= t && t < a[i].1;
        assert(i > 0);
        assert(a1[i - 1].0 <= t && t < a1[i - 1].1);
        assert(covers(a1, t));
    }
}

} // verus!
