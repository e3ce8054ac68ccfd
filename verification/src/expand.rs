//! Turning the oracle's move list into a node's edges.
//!
//! At the root, excluded moves are dropped and optional exploration noise
//! is blended in; in either case the surviving priors are renormalized so
//! that every expanded node's priors sum to exactly `UNIT`.  The
//! renormalization distributes the cumulative scaled prefix sums, so the
//! total is exact by telescoping, not approximate.

use vstd::prelude::*;
use vstd::arithmetic::div_mod::{
    lemma_div_is_ordered, lemma_hoist_over_denominator, lemma_div_by_multiple,
};
use vstd::arithmetic::mul::lemma_mul_inequality;
use crate::arena::{Edge, edge_prior_sum, lemma_edge_prior_sum_push};
use crate::fixed::{UNIT, MAX_MOVES};
use crate::oracle::{prior_sum, lemma_prior_sum_push};
use crate::rng::{SearchRng, rng_wf, spec_iter};

verus! {

/// The moves of `ms` that are not excluded, in order.
pub open spec fn allowed_moves(ms: Seq<(u64, u64)>, excl: Seq<u64>) -> Seq<(u64, u64)>
    decreases ms.len(),
{
    if ms.len() == 0 {
        Seq::empty()
    } else {
        let rest = allowed_moves(ms.drop_last(), excl);
        if excl.contains(ms.last().0) {
            rest
        } else {
            rest.push(ms.last())
        }
    }
}

/// Filtering keeps only non-excluded moves, keeps them unchanged, and
/// never grows the list.
pub proof fn lemma_allowed_moves_elems(ms: Seq<(u64, u64)>, excl: Seq<u64>)
    ensures
        allowed_moves(ms, excl).len() <= ms.len(),
        forall|j: int| 0 <= j < allowed_moves(ms, excl).len() ==> {
            &&& !excl.contains((#[trigger] allowed_moves(ms, excl)[j]).0)
            &&& exists|i: int| 0 <= i < ms.len() && ms[i] == allowed_moves(ms, excl)[j]
        },
    decreases ms.len(),
{
    if ms.len() > 0 {
        lemma_allowed_moves_elems(ms.drop_last(), excl);
        assert forall|i: int| 0 <= i < ms.drop_last().len()
            implies ms.drop_last()[i] == ms[i] by {}
        assert(ms[ms.len() - 1] == ms.last());
    }
}

/// Filtering a duplicate-free move list leaves it duplicate-free.
pub proof fn lemma_allowed_moves_distinct(ms: Seq<(u64, u64)>, excl: Seq<u64>)
    requires
        forall|i: int, j: int|
            #![trigger ms[i], ms[j]]
            0 <= i < j < ms.len() ==> ms[i].0 != ms[j].0,
    ensures
        forall|i: int, j: int|
            #![trigger allowed_moves(ms, excl)[i], allowed_moves(ms, excl)[j]]
            0 <= i < j < allowed_moves(ms, excl).len() ==> allowed_moves(ms, excl)[i].0
                != allowed_moves(ms, excl)[j].0,
    decreases ms.len(),
{
    if ms.len() > 0 {
        let prefix = ms.drop_last();
        assert forall|i: int, j: int|
            #![trigger prefix[i], prefix[j]]
            0 <= i < j < prefix.len() implies prefix[i].0 != prefix[j].0 by {
            assert(prefix[i] == ms[i]);
            assert(prefix[j] == ms[j]);
        }
        lemma_allowed_moves_distinct(prefix, excl);
        lemma_allowed_moves_elems(prefix, excl);
        let rest = allowed_moves(prefix, excl);
        if !excl.contains(ms.last().0) {
            let a = allowed_moves(ms, excl);
            assert(a == rest.push(ms.last()));
            assert forall|i: int, j: int|
                #![trigger a[i], a[j]]
                0 <= i < j < a.len() implies a[i].0 != a[j].0 by {
                if j < a.len() - 1 {
                    assert(a[i] == rest[i]);
                    assert(a[j] == rest[j]);
                } else {
                    assert(a[j] == ms.last());
                    assert(a[i] == rest[i]);
                    let w = choose|w: int| 0 <= w < prefix.len() && prefix[w] == rest[i];
                    assert(prefix[w] == ms[w]);
                    assert(ms[w].0 != ms[ms.len() - 1].0);
                }
            }
        }
    }
}

/// Filtering empties the list exactly when every move is excluded.
pub proof fn lemma_allowed_moves_empty(ms: Seq<(u64, u64)>, excl: Seq<u64>)
    ensures
        allowed_moves(ms, excl).len() == 0 <==> (forall|i: int|
            0 <= i < ms.len() ==> excl.contains((#[trigger] ms[i]).0)),
    decreases ms.len(),
{
    if ms.len() > 0 {
        lemma_allowed_moves_empty(ms.drop_last(), excl);
        assert forall|i: int| 0 <= i < ms.drop_last().len()
            implies ms.drop_last()[i] == ms[i] by {}
        assert(ms[ms.len() - 1] == ms.last());
    }
}

/// Drops the excluded moves from a move list.
pub fn filter_excluded(moves: &Vec<(u64, u64)>, excl: &Vec<u64>) -> (r: Vec<(u64, u64)>)
    ensures
        r@ == allowed_moves(moves@, excl@),
{
    let mut r: Vec<(u64, u64)> = Vec::new();
    let mut i: usize = 0;
    while i < moves.len()
        invariant
            0 <= i <= moves@.len(),
            r@ == allowed_moves(moves@.take(i as int), excl@),
        decreases moves@.len() - i,
    {
        let m: (u64, u64) = moves[i];
        let mut excluded: bool = false;
        let mut k: usize = 0;
        while k < excl.len()
            invariant
                0 <= k <= excl@.len(),
                excluded == exists|t: int| 0 <= t < k && excl@[t] == m.0,
            decreases excl@.len() - k,
        {
            if excl[k] == m.0 {
                excluded = true;
            }
            k = k + 1;
        }
        proof {
            assert(excluded == excl@.contains(m.0));
            assert(moves@.take(i + 1).drop_last() =~= moves@.take(i as int));
            assert(moves@.take(i + 1).last() == moves@[i as int]);
        }
        if !excluded {
            r.push(m);
        }
        i = i + 1;
    }
    proof {
        assert(moves@.take(moves@.len() as int) =~= moves@);
    }
    r
}

/// The weight the renormalization gives move `i`: its prior, or 1 for
/// every move when all priors are zero (the uniform fallback).
pub open spec fn weight_of(ms: Seq<(u64, u64)>, i: int, uniform: bool) -> int {
    if uniform {
        1
    } else {
        ms[i].1 as int
    }
}

/// The sum of the first `k` weights.
pub open spec fn wsum(ms: Seq<(u64, u64)>, k: int, uniform: bool) -> int
    decreases k,
{
    if k <= 0 {
        0
    } else {
        wsum(ms, k - 1, uniform) + weight_of(ms, k - 1, uniform)
    }
}

/// Weight prefix sums grow monotonically.
pub proof fn lemma_wsum_mono(ms: Seq<(u64, u64)>, k1: int, k2: int, uniform: bool)
    requires
        0 <= k1 <= k2,
    ensures
        wsum(ms, k1, uniform) <= wsum(ms, k2, uniform),
    decreases k2 - k1,
{
    if k1 < k2 {
        lemma_wsum_mono(ms, k1, k2 - 1, uniform);
    }
}

/// The weight mass `renormalize` divides by: the prior total, or one per
/// move when every prior is zero.
pub open spec fn renorm_total(ms: Seq<(u64, u64)>) -> int {
    if wsum(ms, ms.len() as int, false) == 0 {
        ms.len() as int
    } else {
        wsum(ms, ms.len() as int, false)
    }
}

/// The share move `i` receives: the difference of the scaled cumulative
/// prefix sums around it, so that the shares telescope to exactly `UNIT`.
pub open spec fn renorm_share(ms: Seq<(u64, u64)>, i: int) -> int {
    let uniform = wsum(ms, ms.len() as int, false) == 0;
    let t = renorm_total(ms);
    (wsum(ms, i + 1, uniform) * (UNIT as int)) / t - (wsum(ms, i, uniform) * (UNIT as int)) / t
}

/// Shares out `UNIT` across the moves in proportion to their priors (or
/// uniformly when every prior is zero), by cumulative scaled prefix sums:
/// the result keeps every move, gives move `i` exactly `renorm_share`,
/// bounds every prior by `UNIT`, and sums to exactly `UNIT`.
pub fn renormalize(moves: &Vec<(u64, u64)>) -> (r: Vec<(u64, u64)>)
    requires
        1 <= moves@.len() <= MAX_MOVES,
        forall|i: int| 0 <= i < moves@.len() ==> (#[trigger] moves@[i]).1 <= UNIT,
    ensures
        r@.len() == moves@.len(),
        forall|i: int| 0 <= i < moves@.len() ==> (#[trigger] r@[i]).0 == moves@[i].0,
        forall|i: int| 0 <= i < moves@.len() ==> (#[trigger] r@[i]).1 <= UNIT,
        forall|i: int| 0 <= i < moves@.len() ==> (#[trigger] r@[i]).1 == renorm_share(moves@, i),
        prior_sum(r@) == UNIT,
{
    // Total prior mass, at most MAX_MOVES * UNIT.
    let mut total: u64 = 0;
    let mut i: usize = 0;
    while i < moves.len()
        invariant
            0 <= i <= moves@.len(),
            moves@.len() <= MAX_MOVES,
            forall|t: int| 0 <= t < moves@.len() ==> (#[trigger] moves@[t]).1 <= UNIT,
            total == wsum(moves@, i as int, false),
            total <= i * (UNIT as int),
        decreases moves@.len() - i,
    {
        proof {
            lemma_mul_inequality(i as int, MAX_MOVES as int, UNIT as int);
        }
        total = total + moves[i].1;
        i = i + 1;
    }
    let uniform: bool = total == 0;
    let t: u64 = if uniform {
        moves.len() as u64
    } else {
        total
    };
    proof {
        if uniform {
            lemma_wsum_uniform(moves@, moves@.len() as int);
        }
        assert(t == wsum(moves@, moves@.len() as int, uniform));
        assert(t >= 1);
    }

    let mut r: Vec<(u64, u64)> = Vec::new();
    let mut s: u64 = 0;
    let mut j: usize = 0;
    while j < moves.len()
        invariant
            0 <= j <= moves@.len(),
            moves@.len() <= MAX_MOVES,
            forall|x: int| 0 <= x < moves@.len() ==> (#[trigger] moves@[x]).1 <= UNIT,
            1 <= t,
            uniform == (wsum(moves@, moves@.len() as int, false) == 0),
            t == wsum(moves@, moves@.len() as int, uniform),
            t == renorm_total(moves@),
            s == wsum(moves@, j as int, uniform),
            r@.len() == j,
            forall|x: int| 0 <= x < j ==> (#[trigger] r@[x]).0 == moves@[x].0,
            forall|x: int| 0 <= x < j ==> (#[trigger] r@[x]).1 <= UNIT,
            forall|x: int| 0 <= x < j ==> (#[trigger] r@[x]).1 == renorm_share(moves@, x),
            prior_sum(r@) == s * (UNIT as int) / (t as int),
        decreases moves@.len() - j,
    {
        let w: u64 = if uniform {
            1
        } else {
            moves[j].1
        };
        proof {
            lemma_wsum_mono(moves@, j + 1, moves@.len() as int, uniform);
            assert(s + w == wsum(moves@, j + 1, uniform));
            assert(s + w <= t);
            // Bounds for the multiplications below.
            lemma_mul_inequality((s + w) as int, t as int, UNIT as int);
            assert(t as int <= 0x1_0000_0000) by {
                if uniform {
                    lemma_wsum_uniform(moves@, moves@.len() as int);
                } else {
                    lemma_wsum_le_len_unit(moves@, moves@.len() as int);
                    lemma_mul_inequality(moves@.len() as int, MAX_MOVES as int, UNIT as int);
                    assert((MAX_MOVES as int) * (UNIT as int) == 0x1_0000_0000);
                }
            }
            lemma_mul_inequality(t as int, 0x1_0000_0000, UNIT as int);
        }
        let lo: u64 = s * UNIT / t;
        let hi: u64 = (s + w) * UNIT / t;
        proof {
            lemma_div_is_ordered((s * UNIT) as int, ((s + w) * UNIT) as int, t as int);
            // hi - lo is at most UNIT: (s + w) * UNIT <= s * UNIT + t * UNIT,
            // and dividing the right side by t adds exactly UNIT to lo.
            lemma_mul_inequality(w as int, t as int, UNIT as int);
            assert((s + w) * (UNIT as int) == s * (UNIT as int) + w * (UNIT as int))
                by (nonlinear_arith);
            lemma_hoist_over_denominator((s * UNIT) as int, UNIT as int, t as nat);
            assert((s * UNIT) as int / (t as int) + UNIT == ((s * UNIT) + (UNIT as int) * (t as int))
                / (t as int));
            assert(w * (UNIT as int) <= (UNIT as int) * (t as int)) by (nonlinear_arith)
                requires
                    w as int <= t as int,
            ;
            lemma_div_is_ordered(((s + w) * UNIT) as int,
                (s * UNIT) as int + (UNIT as int) * (t as int), t as int);
            assert(hi <= lo + UNIT);
        }
        let q: u64 = hi - lo;
        let mv: u64 = moves[j].0;
        proof {
            lemma_prior_sum_push(r@, (mv, q));
            assert(q == renorm_share(moves@, j as int));
        }
        r.push((mv, q));
        s = s + w;
        j = j + 1;
    }
    proof {
        assert(s == t);
        lemma_div_by_multiple(UNIT as int, t as int);
        assert((t as int) * (UNIT as int) == (UNIT as int) * (t as int)) by (nonlinear_arith);
        assert(prior_sum(r@) == UNIT);
    }
    r
}

/// With uniform weights the prefix sum counts the moves.
pub proof fn lemma_wsum_uniform(ms: Seq<(u64, u64)>, k: int)
    requires
        k >= 0,
    ensures
        wsum(ms, k, true) == k,
    decreases k,
{
    if k > 0 {
        lemma_wsum_uniform(ms, k - 1);
    }
}

/// Prior-weight prefix sums are bounded by one `UNIT` per move.
pub proof fn lemma_wsum_le_len_unit(ms: Seq<(u64, u64)>, k: int)
    requires
        0 <= k <= ms.len(),
        forall|i: int| 0 <= i < ms.len() ==> (#[trigger] ms[i]).1 <= UNIT,
    ensures
        wsum(ms, k, false) <= k * (UNIT as int),
    decreases k,
{
    if k > 0 {
        lemma_wsum_le_len_unit(ms, k - 1);
        assert((k - 1) * (UNIT as int) + UNIT == k * (UNIT as int)) by (nonlinear_arith);
    }
}

/// The noise weight in [1, UNIT] that the `i`-th draw of the blend
/// carries (`s` is the generator state before the first draw).
pub open spec fn noise_at(s: u64, i: int) -> int {
    (spec_iter(s, i + 1) & 0xFFFF) + 1
}

/// Blends every prior with a fresh random weight: the mixed prior of
/// move `i` is exactly `((UNIT - w) * prior + w * noise_at(i)) / UNIT`,
/// one word drawn per move.  Move identifiers and the `UNIT` bound are
/// preserved; the sum is restored by `renormalize` afterwards.
pub fn blend_noise(rng: &mut SearchRng, moves: &Vec<(u64, u64)>, w: u64) -> (r: Vec<(u64, u64)>)
    requires
        rng_wf(*old(rng)),
        w <= UNIT,
        forall|i: int| 0 <= i < moves@.len() ==> (#[trigger] moves@[i]).1 <= UNIT,
    ensures
        rng_wf(*final(rng)),
        final(rng).state == spec_iter(old(rng).state, moves@.len() as int),
        r@.len() == moves@.len(),
        forall|i: int| 0 <= i < moves@.len() ==> (#[trigger] r@[i]).0 == moves@[i].0,
        forall|i: int| 0 <= i < moves@.len() ==> (#[trigger] r@[i]).1 <= UNIT,
        forall|i: int|
            0 <= i < moves@.len() ==> (#[trigger] r@[i]).1 == ((UNIT - w) * moves@[i].1 + w
                * noise_at(old(rng).state, i)) / (UNIT as int),
    {
    let mut r: Vec<(u64, u64)> = Vec::new();
    let mut i: usize = 0;
    while i < moves.len()
        invariant
            rng_wf(*rng),
            rng.state == spec_iter(old(rng).state, i as int),
            0 <= i <= moves@.len(),
            forall|t: int| 0 <= t < moves@.len() ==> (#[trigger] moves@[t]).1 <= UNIT,
            w <= UNIT,
            r@.len() == i,
            forall|t: int| 0 <= t < i ==> (#[trigger] r@[t]).0 == moves@[t].0,
            forall|t: int| 0 <= t < i ==> (#[trigger] r@[t]).1 <= UNIT,
            forall|t: int|
                0 <= t < i ==> (#[trigger] r@[t]).1 == ((UNIT - w) * moves@[t].1 + w * noise_at(
                    old(rng).state,
                    t,
                )) / (UNIT as int),
        decreases moves@.len() - i,
    {
        let word: u64 = rng.next_word();
        proof {
            assert(word == spec_iter(old(rng).state, i + 1));
        }
        proof {
            assert(word & 0xFFFF <= 0xFFFF) by (bit_vector);
        }
        let noise: u64 = (word & 0xFFFF) + 1;
        let p: u64 = moves[i].1;
        proof {
            lemma_mul_inequality((UNIT - w) as int, UNIT as int, p as int);
            assert((UNIT as int - w) * p <= (UNIT as int - w) * (UNIT as int)) by (nonlinear_arith)
                requires
                    p as int <= UNIT as int,
                    0 <= (UNIT as int - w),
            ;
            assert((w as int) * noise <= (w as int) * (UNIT as int)) by (nonlinear_arith)
                requires
                    noise as int <= UNIT as int,
                    0 <= w as int,
            ;
            assert((UNIT as int - w) * (UNIT as int) + (w as int) * (UNIT as int) == (UNIT as int)
                * (UNIT as int)) by (nonlinear_arith);
            assert((UNIT as int) * (UNIT as int) < 0x10000000000000000);
        }
        let mixed: u64 = ((UNIT - w) * p + w * noise) / UNIT;
        proof {
            lemma_div_is_ordered(((UNIT - w) * p + w * noise) as int,
                (UNIT as int) * (UNIT as int), UNIT as int);
            lemma_div_by_multiple(UNIT as int, UNIT as int);
            assert((UNIT as int) * (UNIT as int) / (UNIT as int) == UNIT);
        }
        r.push((moves[i].0, mixed));
        i = i + 1;
    }
    r
}

/// Builds the edge list of a freshly expanded node: one unmaterialized
/// edge per move, carrying the move's prior.
pub fn edges_from_moves(moves: &Vec<(u64, u64)>) -> (es: Vec<Edge>)
    ensures
        es@.len() == moves@.len(),
        forall|j: int| 0 <= j < moves@.len() ==> {
            &&& (#[trigger] es@[j]).mv == moves@[j].0
            &&& es@[j].prior == moves@[j].1
            &&& es@[j].child is None
        },
        edge_prior_sum(es@) == prior_sum(moves@),
{
    let mut es: Vec<Edge> = Vec::new();
    let mut i: usize = 0;
    while i < moves.len()
        invariant
            0 <= i <= moves@.len(),
            es@.len() == i,
            forall|j: int| 0 <= j < i ==> {
                &&& (#[trigger] es@[j]).mv == moves@[j].0
                &&& es@[j].prior == moves@[j].1
                &&& es@[j].child is None
            },
            edge_prior_sum(es@) == prior_sum(moves@.take(i as int)),
        decreases moves@.len() - i,
    {
        let e = Edge { mv: moves[i].0, prior: moves[i].1, child: None };
        proof {
            lemma_edge_prior_sum_push(es@, e);
            lemma_prior_sum_push(moves@.take(i as int), moves@[i as int]);
            assert(moves@.take(i as int).push(moves@[i as int]) =~= moves@.take(i + 1));
        }
        es.push(e);
        i = i + 1;
    }
    proof {
        assert(moves@.take(moves@.len() as int) =~= moves@);
    }
    es
}

} // verus!
