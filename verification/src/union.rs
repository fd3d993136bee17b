//! The interval union engine: the general two-iterator merge over two
//! well-formed interval sequences, and the ordered fast path that extends
//! or appends when the incoming intervals lie wholly to the right.

use vstd::prelude::*;

use crate::intervals::covers;
use crate::intervals::ends_from;
use crate::intervals::intervals_ok;
use crate::intervals::is_end_of;
use crate::intervals::is_start_of;
use crate::intervals::lemma_covers_add;
use crate::intervals::lemma_covers_push;
use crate::intervals::lemma_intervals_sorted;
use crate::intervals::lemma_ok_add;
use crate::intervals::max_end;
use crate::intervals::starts_from;
use crate::intervals::union_cov;

verus! {

/// Merge-loop bookkeeping: the emitted intervals cover exactly what the
/// consumed prefixes of the two inputs cover.
spec fn prefix_cov(out: Seq<(i64, i64)>, a: Seq<(i64, i64)>, b: Seq<(i64, i64)>, i: int, j: int) -> bool {
    forall|t: int|
        #![trigger covers(out, t)]
        covers(out, t) == (covers(a.subrange(0, i), t) || covers(b.subrange(0, j), t))
}

/// Merge-loop bookkeeping while a run `[s, bound)` is open: emitted
/// intervals plus the open run cover exactly the consumed prefixes.
spec fn run_cov(
    out: Seq<(i64, i64)>,
    a: Seq<(i64, i64)>,
    b: Seq<(i64, i64)>,
    i: int,
    j: int,
    s: i64,
    bound: i64,
) -> bool {
    forall|t: int|
        #![trigger covers(out, t)]
        (covers(out, t) || (s <= t && t < bound))
            == (covers(a.subrange(0, i), t) || covers(b.subrange(0, j), t))
}

/// All unconsumed intervals of `s` start strictly beyond `x`.
spec fn rest_above(s: Seq<(i64, i64)>, from: int, x: i64) -> bool {
    forall|k: int| from <= k && k < s.len() ==> (#[trigger] s[k]).0 > x
}

/// All unconsumed intervals of `s` start at or beyond `x`.
spec fn rest_at_or_above(s: Seq<(i64, i64)>, from: int, x: i64) -> bool {
    forall|k: int| from <= k && k < s.len() ==> (#[trigger] s[k]).0 >= x
}

/// Packs a pointwise coverage fact into the `run_cov` form.
#[verifier::spinoff_prover]
proof fn lemma_pack_run_cov(
    out: Seq<(i64, i64)>,
    a: Seq<(i64, i64)>,
    b: Seq<(i64, i64)>,
    i: int,
    j: int,
    s: i64,
    bound: i64,
)
    requires
        forall|t: int|
            #![trigger covers(out, t)]
            (covers(out, t) || (s <= t && t < bound))
                == (covers(a.subrange(0, i), t) || covers(b.subrange(0, j), t)),
    ensures
        run_cov(out, a, b, i, j, s, bound),
{
}

/// Packs a pointwise coverage fact into the `prefix_cov` form.
#[verifier::spinoff_prover]
proof fn lemma_pack_prefix_cov(
    out: Seq<(i64, i64)>,
    a: Seq<(i64, i64)>,
    b: Seq<(i64, i64)>,
    i: int,
    j: int,
)
    requires
        forall|t: int|
            #![trigger covers(out, t)]
            covers(out, t) == (covers(a.subrange(0, i), t) || covers(b.subrange(0, j), t)),
    ensures
        prefix_cov(out, a, b, i, j),
{
}

/// Packs a pointwise coverage fact into the `union_cov` form.
#[verifier::spinoff_prover]
pub proof fn lemma_pack_union_cov(r: Seq<(i64, i64)>, a: Seq<(i64, i64)>, b: Seq<(i64, i64)>)
    requires
        forall|t: int|
            #![trigger covers(r, t)]
            covers(r, t) == (covers(a, t) || covers(b, t)),
    ensures
        union_cov(r, a, b),
{
}

/// Opening a run in the merge: the interval with the smaller start is
/// consumed and becomes the open run `[s, bound)`.
#[verifier::spinoff_prover]
proof fn lemma_union_pick(
    a: Seq<(i64, i64)>,
    b: Seq<(i64, i64)>,
    i: int,
    j: int,
    out: Seq<(i64, i64)>,
    s: i64,
    bound: i64,
    from_a: bool,
)
    requires
        intervals_ok(a),
        intervals_ok(b),
        0 <= i && i <= a.len(),
        0 <= j && j <= b.len(),
        intervals_ok(out),
        prefix_cov(out, a, b, i, j),
        out.len() > 0 ==> rest_above(a, i, out.last().1),
        out.len() > 0 ==> rest_above(b, j, out.last().1),
        from_a ==> i < a.len() && (j == b.len() || a[i].0 <= b[j].0) && s == a[i].0 && bound
            == a[i].1,
        !from_a ==> j < b.len() && (i == a.len() || b[j].0 <= a[i].0) && s == b[j].0 && bound
            == b[j].1,
    ensures
        s < bound,
        from_a ==> run_cov(out, a, b, i + 1, j, s, bound),
        !from_a ==> run_cov(out, a, b, i, j + 1, s, bound),
        out.len() > 0 ==> out.last().1 < s,
        from_a ==> rest_at_or_above(a, i + 1, s) && rest_at_or_above(b, j, s),
        !from_a ==> rest_at_or_above(a, i, s) && rest_at_or_above(b, j + 1, s),
        is_start_of(s, a) || is_start_of(s, b),
        is_end_of(bound, a) || is_end_of(bound, b),
{
    if from_a {
        assert(a.subrange(0, i + 1) =~= a.subrange(0, i).push(a[i]));
        lemma_covers_push(a.subrange(0, i), a[i]);
        assert forall|t: int|
            #![trigger covers(out, t)]
            (covers(out, t) || (s <= t && t < bound))
                == (covers(a.subrange(0, i + 1), t) || covers(b.subrange(0, j), t)) by {
            assert(covers(out, t) == (covers(a.subrange(0, i), t) || covers(b.subrange(0, j), t)));
            assert(covers(a.subrange(0, i).push(a[i]), t)
                == (covers(a.subrange(0, i), t) || (a[i].0 <= t && t < a[i].1)));
        }
        lemma_pack_run_cov(out, a, b, i + 1, j, s, bound);
        assert forall|k: int| i + 1 <= k && k < a.len() implies (#[trigger] a[k]).0 >= s by {
            lemma_intervals_sorted(a, i, k);
        }
        assert forall|k: int| j <= k && k < b.len() implies (#[trigger] b[k]).0 >= s by {
            if k > j {
                lemma_intervals_sorted(b, j, k);
            }
        }
    } else {
        assert(b.subrange(0, j + 1) =~= b.subrange(0, j).push(b[j]));
        lemma_covers_push(b.subrange(0, j), b[j]);
        assert forall|t: int|
            #![trigger covers(out, t)]
            (covers(out, t) || (s <= t && t < bound))
                == (covers(a.subrange(0, i), t) || covers(b.subrange(0, j + 1), t)) by {
            assert(covers(out, t) == (covers(a.subrange(0, i), t) || covers(b.subrange(0, j), t)));
            assert(covers(b.subrange(0, j).push(b[j]), t)
                == (covers(b.subrange(0, j), t) || (b[j].0 <= t && t < b[j].1)));
        }
        lemma_pack_run_cov(out, a, b, i, j + 1, s, bound);
        assert forall|k: int| j + 1 <= k && k < b.len() implies (#[trigger] b[k]).0 >= s by {
            lemma_intervals_sorted(b, j, k);
        }
        assert forall|k: int| i <= k && k < a.len() implies (#[trigger] a[k]).0 >= s by {
            if k > i {
                lemma_intervals_sorted(a, i, k);
            }
        }
    }
}


/// Coverage step of absorbing one interval of `a`: the open run widens from
/// `bound` to `nb`, the larger of `bound` and the absorbed end.
proof fn lemma_absorb_cov_a(
    a: Seq<(i64, i64)>,
    b: Seq<(i64, i64)>,
    i: int,
    j: int,
    out: Seq<(i64, i64)>,
    s: i64,
    bound: i64,
    nb: i64,
)
    requires
        0 <= i && i < a.len(),
        0 <= j && j <= b.len(),
        s < bound,
        forall|t: int|
            #![trigger covers(out, t)]
            (covers(out, t) || (s <= t && t < bound))
                == (covers(a.subrange(0, i), t) || covers(b.subrange(0, j), t)),
        a[i].0 <= bound,
        a[i].0 >= s,
        nb == max_end(bound, a[i].1),
    ensures
        forall|t: int|
            #![trigger covers(out, t)]
            (covers(out, t) || (s <= t && t < nb))
                == (covers(a.subrange(0, i + 1), t) || covers(b.subrange(0, j), t)),
{
    assert(a.subrange(0, i + 1) =~= a.subrange(0, i).push(a[i]));
    lemma_covers_push(a.subrange(0, i), a[i]);
    assert forall|t: int|
        #![trigger covers(out, t)]
        (covers(out, t) || (s <= t && t < nb))
            == (covers(a.subrange(0, i + 1), t) || covers(b.subrange(0, j), t)) by {
        assert((covers(out, t) || (s <= t && t < bound))
            == (covers(a.subrange(0, i), t) || covers(b.subrange(0, j), t)));
        assert(covers(a.subrange(0, i).push(a[i]), t)
            == (covers(a.subrange(0, i), t) || (a[i].0 <= t && t < a[i].1)));
    }
}

/// Coverage step of absorbing one interval of `b`.
proof fn lemma_absorb_cov_b(
    a: Seq<(i64, i64)>,
    b: Seq<(i64, i64)>,
    i: int,
    j: int,
    out: Seq<(i64, i64)>,
    s: i64,
    bound: i64,
    nb: i64,
)
    requires
        0 <= i && i <= a.len(),
        0 <= j && j < b.len(),
        s < bound,
        forall|t: int|
            #![trigger covers(out, t)]
            (covers(out, t) || (s <= t && t < bound))
                == (covers(a.subrange(0, i), t) || covers(b.subrange(0, j), t)),
        b[j].0 <= bound,
        b[j].0 >= s,
        nb == max_end(bound, b[j].1),
    ensures
        forall|t: int|
            #![trigger covers(out, t)]
            (covers(out, t) || (s <= t && t < nb))
                == (covers(a.subrange(0, i), t) || covers(b.subrange(0, j + 1), t)),
{
    assert(b.subrange(0, j + 1) =~= b.subrange(0, j).push(b[j]));
    lemma_covers_push(b.subrange(0, j), b[j]);
    assert forall|t: int|
        #![trigger covers(out, t)]
        (covers(out, t) || (s <= t && t < nb))
            == (covers(a.subrange(0, i), t) || covers(b.subrange(0, j + 1), t)) by {
        assert((covers(out, t) || (s <= t && t < bound))
            == (covers(a.subrange(0, i), t) || covers(b.subrange(0, j), t)));
        assert(covers(b.subrange(0, j).push(b[j]), t)
            == (covers(b.subrange(0, j), t) || (b[j].0 <= t && t < b[j].1)));
    }
}

/// Absorbing an overlapping or touching interval of `a` into the open run:
/// the bound moves out to the larger end, and the covered region stays one
/// contiguous range.
#[verifier::rlimit(100)]
#[verifier::spinoff_prover]
proof fn lemma_union_absorb_a(
    a: Seq<(i64, i64)>,
    b: Seq<(i64, i64)>,
    i: int,
    j: int,
    out: Seq<(i64, i64)>,
    s: i64,
    bound: i64,
    nb: i64,
)
    requires
        intervals_ok(a),
        intervals_ok(b),
        0 <= i && i < a.len(),
        0 <= j && j <= b.len(),
        s < bound,
        run_cov(out, a, b, i, j, s, bound),
        rest_at_or_above(a, i, s),
        rest_at_or_above(b, j, s),
        a[i].0 <= bound,
        is_end_of(bound, a) || is_end_of(bound, b),
        nb == max_end(bound, a[i].1),
    ensures
        s < nb,
        run_cov(out, a, b, i + 1, j, s, nb),
        rest_at_or_above(a, i + 1, s),
        is_end_of(nb, a) || is_end_of(nb, b),
{
    assert(a[i].0 >= s);
    lemma_absorb_cov_a(a, b, i, j, out, s, bound, nb);
    lemma_pack_run_cov(out, a, b, i + 1, j, s, nb);
    assert forall|k: int| i + 1 <= k && k < a.len() implies (#[trigger] a[k]).0 >= s by {
        lemma_intervals_sorted(a, i, k);
    }
    if a[i].1 > bound {
        assert(is_end_of(a[i].1, a));
    }
}

/// Absorbing an overlapping or touching interval of `b` into the open run.
#[verifier::rlimit(100)]
#[verifier::spinoff_prover]
proof fn lemma_union_absorb_b(
    a: Seq<(i64, i64)>,
    b: Seq<(i64, i64)>,
    i: int,
    j: int,
    out: Seq<(i64, i64)>,
    s: i64,
    bound: i64,
    nb: i64,
)
    requires
        intervals_ok(a),
        intervals_ok(b),
        0 <= i && i <= a.len(),
        0 <= j && j < b.len(),
        s < bound,
        run_cov(out, a, b, i, j, s, bound),
        rest_at_or_above(a, i, s),
        rest_at_or_above(b, j, s),
        b[j].0 <= bound,
        is_end_of(bound, a) || is_end_of(bound, b),
        nb == max_end(bound, b[j].1),
    ensures
        s < nb,
        run_cov(out, a, b, i, j + 1, s, nb),
        rest_at_or_above(b, j + 1, s),
        is_end_of(nb, a) || is_end_of(nb, b),
{
    assert(b[j].0 >= s);
    lemma_absorb_cov_b(a, b, i, j, out, s, bound, nb);
    lemma_pack_run_cov(out, a, b, i, j + 1, s, nb);
    assert forall|k: int| j + 1 <= k && k < b.len() implies (#[trigger] b[k]).0 >= s by {
        lemma_intervals_sorted(b, j, k);
    }
    if b[j].1 > bound {
        assert(is_end_of(b[j].1, b));
    }
}

/// Closing the open run: once every unconsumed interval starts strictly
/// beyond the bound, `(s, bound)` is emitted and the invariants of the
/// outer merge loop hold again.
#[verifier::spinoff_prover]
proof fn lemma_union_emit(
    a: Seq<(i64, i64)>,
    b: Seq<(i64, i64)>,
    i: int,
    j: int,
    out: Seq<(i64, i64)>,
    s: i64,
    bound: i64,
)
    requires
        intervals_ok(a),
        intervals_ok(b),
        intervals_ok(out),
        0 <= i && i <= a.len(),
        0 <= j && j <= b.len(),
        s < bound,
        run_cov(out, a, b, i, j, s, bound),
        out.len() > 0 ==> out.last().1 < s,
        i < a.len() ==> a[i].0 > bound,
        j < b.len() ==> b[j].0 > bound,
        is_start_of(s, a) || is_start_of(s, b),
        is_end_of(bound, a) || is_end_of(bound, b),
        starts_from(out, a, b),
        ends_from(out, a, b),
    ensures
        intervals_ok(out.push((s, bound))),
        prefix_cov(out.push((s, bound)), a, b, i, j),
        out.push((s, bound)).last().1 == bound,
        rest_above(a, i, bound),
        rest_above(b, j, bound),
        starts_from(out.push((s, bound)), a, b),
        ends_from(out.push((s, bound)), a, b),
{
    lemma_covers_push(out, (s, bound));
    assert forall|t: int|
        #![trigger covers(out.push((s, bound)), t)]
        covers(out.push((s, bound)), t)
            == (covers(a.subrange(0, i), t) || covers(b.subrange(0, j), t)) by {
        assert((covers(out, t) || (s <= t && t < bound))
            == (covers(a.subrange(0, i), t) || covers(b.subrange(0, j), t)));
        assert(covers(out.push((s, bound)), t) == (covers(out, t) || (s <= t && t < bound)));
    }
    lemma_pack_prefix_cov(out.push((s, bound)), a, b, i, j);
    assert forall|k: int| i <= k && k < a.len() implies (#[trigger] a[k]).0 > bound by {
        if k > i {
            lemma_intervals_sorted(a, i, k);
        }
    }
    assert forall|k: int| j <= k && k < b.len() implies (#[trigger] b[k]).0 > bound by {
        if k > j {
            lemma_intervals_sorted(b, j, k);
        }
    }
    assert forall|k: int| 0 <= k && k < out.push((s, bound)).len() implies (#[trigger] out.push(
        (s, bound),
    )[k]).0 < out.push((s, bound))[k].1 by {
        if k < out.len() {
            assert(out.push((s, bound))[k] == out[k]);
        }
    }
    assert forall|k: int| 0 <= k && k < out.push((s, bound)).len() - 1 implies (#[trigger] out.push(
        (s, bound),
    )[k]).1 < out.push((s, bound))[k + 1].0 by {
        if k < out.len() - 1 {
            assert(out.push((s, bound))[k] == out[k]);
            assert(out.push((s, bound))[k + 1] == out[k + 1]);
        } else {
            assert(out.push((s, bound))[k] == out[k]);
            assert(out[k] == out.last());
        }
    }
}

/// When both inputs are fully consumed the emitted sequence is the union.
#[verifier::spinoff_prover]
proof fn lemma_union_done(
    a: Seq<(i64, i64)>,
    b: Seq<(i64, i64)>,
    i: int,
    j: int,
    out: Seq<(i64, i64)>,
)
    requires
        i == a.len(),
        j == b.len(),
        prefix_cov(out, a, b, i, j),
    ensures
        union_cov(out, a, b),
{
    assert(a.subrange(0, i) =~= a);
    assert(b.subrange(0, j) =~= b);
    assert forall|t: int|
        #![trigger covers(out, t)]
        covers(out, t) == (covers(a, t) || covers(b, t)) by {
        assert(covers(out, t) == (covers(a.subrange(0, i), t) || covers(b.subrange(0, j), t)));
    }
    lemma_pack_union_cov(out, a, b);
}



/// The absorb phase of one merge run: consumes every interval of either
/// input that starts at or before the open bound, moving the bound out to
/// the largest absorbed end.
#[verifier::rlimit(100)]
#[verifier::spinoff_prover]
#[verifier::loop_isolation(false)]
fn absorb_into_run(
    a: &Vec<(i64, i64)>,
    b: &Vec<(i64, i64)>,
    out: &Vec<(i64, i64)>,
    i: &mut usize,
    j: &mut usize,
    s: i64,
    bound: &mut i64,
)
    requires
        intervals_ok(a@),
        intervals_ok(b@),
        intervals_ok(out@),
        *old(i) <= a@.len(),
        *old(j) <= b@.len(),
        s < *old(bound),
        run_cov(out@, a@, b@, *old(i) as int, *old(j) as int, s, *old(bound)),
        rest_at_or_above(a@, *old(i) as int, s),
        rest_at_or_above(b@, *old(j) as int, s),
        is_end_of(*old(bound), a@) || is_end_of(*old(bound), b@),
    ensures
        *old(i) <= *final(i) <= a@.len(),
        *old(j) <= *final(j) <= b@.len(),
        s < *final(bound),
        run_cov(out@, a@, b@, *final(i) as int, *final(j) as int, s, *final(bound)),
        rest_at_or_above(a@, *final(i) as int, s),
        rest_at_or_above(b@, *final(j) as int, s),
        is_end_of(*final(bound), a@) || is_end_of(*final(bound), b@),
        *final(i) < a@.len() ==> a@[*final(i) as int].0 > *final(bound),
        *final(j) < b@.len() ==> b@[*final(j) as int].0 > *final(bound),
{
    while (*i < a.len() && a[*i].0 <= *bound) || (*j < b.len() && b[*j].0 <= *bound)
        invariant
            *old(i) <= *i <= a@.len(),
            *old(j) <= *j <= b@.len(),
            s < *bound,
            run_cov(out@, a@, b@, *i as int, *j as int, s, *bound),
            rest_at_or_above(a@, *i as int, s),
            rest_at_or_above(b@, *j as int, s),
            is_end_of(*bound, a@) || is_end_of(*bound, b@),
        decreases a@.len() - *i + b@.len() - *j,
    {
        if *i < a.len() && a[*i].0 <= *bound {
            let p = a[*i];
            let ghost bound0 = *bound;
            if p.1 > *bound {
                *bound = p.1;
            }
            proof {
                assert(*bound == max_end(bound0, p.1));
                lemma_union_absorb_a(a@, b@, *i as int, *j as int, out@, s, bound0, *bound);
            }
            *i += 1;
        } else {
            let p = b[*j];
            let ghost bound0 = *bound;
            if p.1 > *bound {
                *bound = p.1;
            }
            proof {
                assert(*bound == max_end(bound0, p.1));
                lemma_union_absorb_b(a@, b@, *i as int, *j as int, out@, s, bound0, *bound);
            }
            *j += 1;
        }
    }
}

/// Union of two well-formed interval sequences by a two-iterator merge: the
/// open run starts at the smaller next start, absorbs every interval that
/// starts at or before the running bound (coalescing touching intervals),
/// and is emitted when neither input can extend it. The result is the
/// well-formed sequence covering exactly what either input covers; every
/// start and end of the result comes from one of the inputs.
#[verifier::rlimit(100)]
#[verifier::loop_isolation(false)]
#[verifier::spinoff_prover]
pub fn union_intervals(a: &Vec<(i64, i64)>, b: &Vec<(i64, i64)>) -> (r: Vec<(i64, i64)>)
    requires
        intervals_ok(a@),
        intervals_ok(b@),
    ensures
        intervals_ok(r@),
        union_cov(r@, a@, b@),
        starts_from(r@, a@, b@),
        ends_from(r@, a@, b@),
{
    let mut out: Vec<(i64, i64)> = Vec::new();
    let mut i: usize = 0;
    let mut j: usize = 0;
    proof {
        assert(a@.subrange(0, 0) =~= Seq::<(i64, i64)>::empty());
        assert(b@.subrange(0, 0) =~= Seq::<(i64, i64)>::empty());
        assert(prefix_cov(out@, a@, b@, 0, 0));
    }
    while i < a.len() || j < b.len()
        invariant
            i <= a@.len(),
            j <= b@.len(),
            intervals_ok(out@),
            prefix_cov(out@, a@, b@, i as int, j as int),
            out@.len() > 0 ==> rest_above(a@, i as int, out@.last().1),
            out@.len() > 0 ==> rest_above(b@, j as int, out@.last().1),
            starts_from(out@, a@, b@),
            ends_from(out@, a@, b@),
        decreases a@.len() - i + b@.len() - j,
    {
        let from_a = i < a.len() && (j >= b.len() || a[i].0 <= b[j].0);
        let picked = if from_a {
            let p = a[i];
            proof {
                lemma_union_pick(a@, b@, i as int, j as int, out@, p.0, p.1, true);
            }
            i += 1;
            p
        } else {
            let p = b[j];
            proof {
                lemma_union_pick(a@, b@, i as int, j as int, out@, p.0, p.1, false);
            }
            j += 1;
            p
        };
        let s = picked.0;
        let mut bound = picked.1;
        absorb_into_run(a, b, &out, &mut i, &mut j, s, &mut bound);
        let ghost out0 = out@;
        out.push((s, bound));
        proof {
            lemma_union_emit(a@, b@, i as int, j as int, out0, s, bound);
            assert(out@ == out0.push((s, bound)));
        }
    }
    proof {
        lemma_union_done(a@, b@, i as int, j as int, out@);
    }
    out
}


/// The shape the ordered fast path of the merge produces: when the incoming
/// first interval overlaps or touches the existing last one, that last end
/// is moved out to the incoming end, else the incoming interval stands on
/// its own; the incoming remainder is appended unchanged.
pub open spec fn ordered_merge(old_liv: Seq<(i64, i64)>, new_iv: Seq<(i64, i64)>) -> Seq<(i64, i64)> {
    if new_iv[0].0 <= old_liv.last().1 {
        old_liv.update(old_liv.len() - 1, (old_liv.last().0, new_iv[0].1)) + new_iv.subrange(
            1,
            new_iv.len() as int,
        )
    } else {
        old_liv + new_iv
    }
}

/// Correctness of the ordered fast path: when the incoming intervals start
/// beyond the existing last start and their first end reaches at least the
/// existing last end, the fast-path shape is the well-formed union.
#[verifier::rlimit(100)]
#[verifier::spinoff_prover]
pub proof fn lemma_ordered_merge(old_liv: Seq<(i64, i64)>, new_iv: Seq<(i64, i64)>)
    requires
        intervals_ok(old_liv),
        intervals_ok(new_iv),
        old_liv.len() > 0,
        new_iv.len() > 0,
        old_liv.last().0 < new_iv[0].0,
        old_liv.last().1 <= new_iv[0].1,
    ensures
        intervals_ok(ordered_merge(old_liv, new_iv)),
        union_cov(ordered_merge(old_liv, new_iv), old_liv, new_iv),
        starts_from(ordered_merge(old_liv, new_iv), old_liv, new_iv),
        ends_from(ordered_merge(old_liv, new_iv), old_liv, new_iv),
{
    let n = old_liv.len() as int;
    let tail = new_iv.subrange(1, new_iv.len() as int);
    assert(new_iv =~= seq![new_iv[0]] + tail);
    lemma_covers_add(seq![new_iv[0]], tail);
    assert forall|t: int| covers(seq![new_iv[0]], t) == (new_iv[0].0 <= t && t < new_iv[0].1) by {
        if covers(seq![new_iv[0]], t) {
            let i = choose|i: int| 0 <= i && i < 1 && (#[trigger] seq![new_iv[0]][i]).0 <= t
                < seq![new_iv[0]][i].1;
            assert(i >= 0);
            assert(i == 0);
        }
        if new_iv[0].0 <= t && t < new_iv[0].1 {
            assert(seq![new_iv[0]][0].0 <= t && t < seq![new_iv[0]][0].1);
        }
    }
    assert(intervals_ok(tail));
    if new_iv[0].0 <= old_liv.last().1 {
        let upd = old_liv.update(n - 1, (old_liv.last().0, new_iv[0].1));
        // The updated sequence is well formed and covers the old instants
        // together with the incoming first interval.
        assert(upd.last() == (old_liv.last().0, new_iv[0].1));
        assert forall|k: int| 0 <= k && k < upd.len() implies (#[trigger] upd[k]).0 < upd[k].1 by {
            if k < n - 1 {
                assert(upd[k] == old_liv[k]);
            }
        }
        assert forall|k: int| 0 <= k && k < upd.len() - 1 implies (#[trigger] upd[k]).1 < upd[k + 1].0 by {
            if k + 1 < n - 1 {
                assert(upd[k] == old_liv[k] && upd[k + 1] == old_liv[k + 1]);
            } else {
                assert(upd[k] == old_liv[k]);
                assert(old_liv[k].1 < old_liv[k + 1].0);
                assert(old_liv[k + 1].0 <= old_liv[k + 1].1);
            }
        }
        assert(intervals_ok(upd));
        assert forall|t: int| covers(upd, t) == (covers(old_liv, t) || (new_iv[0].0 <= t
            < new_iv[0].1)) by {
            if covers(upd, t) {
                let i = choose|i: int| 0 <= i && i < upd.len() && (#[trigger] upd[i]).0 <= t && t < upd[i].1;
                if i < n - 1 {
                    assert(old_liv[i].0 <= t && t < old_liv[i].1);
                } else {
                    if t < old_liv.last().1 {
                        assert(old_liv[n - 1].0 <= t && t < old_liv[n - 1].1);
                    } else {
                        assert(new_iv[0].0 <= t && t < new_iv[0].1);
                    }
                }
            }
            if covers(old_liv, t) {
                let i = choose|i: int| 0 <= i && i < old_liv.len() && (#[trigger] old_liv[i]).0 <= t
                    < old_liv[i].1;
                assert(upd[i].0 <= t && t < upd[i].1);
            }
            if new_iv[0].0 <= t && t < new_iv[0].1 {
                assert(upd[n - 1].0 <= t && t < upd[n - 1].1);
            }
        }
        if tail.len() > 0 {
            assert(new_iv[0].1 < new_iv[1].0);
            assert(tail[0] == new_iv[1]);
        }
        lemma_ok_add(upd, tail);
        lemma_covers_add(upd, tail);
        assert forall|t: int| covers(ordered_merge(old_liv, new_iv), t) == (covers(old_liv, t)
            || covers(new_iv, t)) by {
            assert(covers(upd + tail, t) == (covers(upd, t) || covers(tail, t)));
            assert(covers(new_iv, t) == (covers(seq![new_iv[0]], t) || covers(tail, t)));
        }
        assert forall|k: int| 0 <= k && k < (upd + tail).len() implies (is_start_of(
            (#[trigger] (upd + tail)[k]).0,
            old_liv,
        ) || is_start_of((upd + tail)[k].0, new_iv)) by {
            if k < n {
                assert((upd + tail)[k] == upd[k]);
                if k < n - 1 {
                    assert(upd[k].0 == old_liv[k].0);
                } else {
                    assert(upd[k].0 == old_liv[n - 1].0);
                }
            } else {
                assert((upd + tail)[k] == new_iv[k - n + 1]);
            }
        }
        assert forall|k: int| 0 <= k && k < (upd + tail).len() implies (is_end_of(
            (#[trigger] (upd + tail)[k]).1,
            old_liv,
        ) || is_end_of((upd + tail)[k].1, new_iv)) by {
            if k < n {
                assert((upd + tail)[k] == upd[k]);
                if k < n - 1 {
                    assert(upd[k].1 == old_liv[k].1);
                } else {
                    assert(upd[k].1 == new_iv[0].1);
                }
            } else {
                assert((upd + tail)[k] == new_iv[k - n + 1]);
            }
        }
    } else {
        lemma_ok_add(old_liv, new_iv);
        lemma_covers_add(old_liv, new_iv);
        assert forall|k: int| 0 <= k && k < (old_liv + new_iv).len() implies (is_start_of(
            (#[trigger] (old_liv + new_iv)[k]).0,
            old_liv,
        ) || is_start_of((old_liv + new_iv)[k].0, new_iv)) by {
            if k < n {
                assert((old_liv + new_iv)[k] == old_liv[k]);
            } else {
                assert((old_liv + new_iv)[k] == new_iv[k - n]);
            }
        }
        assert forall|k: int| 0 <= k && k < (old_liv + new_iv).len() implies (is_end_of(
            (#[trigger] (old_liv + new_iv)[k]).1,
            old_liv,
        ) || is_end_of((old_liv + new_iv)[k].1, new_iv)) by {
            if k < n {
                assert((old_liv + new_iv)[k] == old_liv[k]);
            } else {
                assert((old_liv + new_iv)[k] == new_iv[k - n]);
            }
        }
    }
}


/// Merges a freshly built batch of intervals into the running liveness
/// sequence. When the batch lies wholly to the right of the last existing
/// start and its first end reaches at least the existing last end, the
/// ordered fast path extends or appends in place; otherwise the general
/// two-iterator merge runs.
#[verifier::rlimit(100)]
#[verifier::spinoff_prover]
#[verifier::loop_isolation(false)]
pub fn combine_intervals(liveness: &mut Vec<(i64, i64)>, new_intervals: &Vec<(i64, i64)>)
    requires
        intervals_ok(old(liveness)@),
        intervals_ok(new_intervals@),
        old(liveness)@.len() > 0,
        new_intervals@.len() > 0,
    ensures
        intervals_ok(final(liveness)@),
        union_cov(final(liveness)@, old(liveness)@, new_intervals@),
        starts_from(final(liveness)@, old(liveness)@, new_intervals@),
        ends_from(final(liveness)@, old(liveness)@, new_intervals@),
{
    let n = liveness.len();
    let last = liveness[n - 1];
    let first_new = new_intervals[0];
    if last.0 < first_new.0 && last.1 <= first_new.1 {
        let ghost old_liv = liveness@;
        proof {
            lemma_ordered_merge(old_liv, new_intervals@);
        }
        if first_new.0 <= last.1 {
            liveness.set(n - 1, (last.0, first_new.1));
            proof {
                assert(liveness@ =~= old_liv.update(
                    old_liv.len() - 1,
                    (old_liv.last().0, new_intervals@[0].1),
                ));
            }
        } else {
            liveness.push(first_new);
        }
        let ghost base = liveness@;
        let mut k: usize = 1;
        proof {
            assert(base + new_intervals@.subrange(1, 1) =~= base);
        }
        while k < new_intervals.len()
            invariant
                1 <= k <= new_intervals@.len(),
                liveness@ == base + new_intervals@.subrange(1, k as int),
            decreases new_intervals@.len() - k,
        {
            let p = new_intervals[k];
            liveness.push(p);
            proof {
                assert(liveness@ =~= base + new_intervals@.subrange(1, k as int + 1));
            }
            k += 1;
        }
        proof {
            assert(new_intervals@ =~= seq![new_intervals@[0]]
                + new_intervals@.subrange(1, new_intervals@.len() as int));
            assert(liveness@ =~= ordered_merge(old_liv, new_intervals@));
        }
    } else {
        let merged = union_intervals(liveness, new_intervals);
        *liveness = merged;
    }
}


} // verus!
