//! Stochastic playouts.
//!
//! When the settings ask for rollouts, a fresh leaf is valued by playing
//! up to `rollout_depth` plies, sampling each move from the oracle's prior
//! distribution sharpened by the `rollout_greed` exponent (0 samples
//! uniformly, larger values approach the greedy move), and then asking the
//! evaluator - or the terminal outcome - for the resulting position.  The
//! value is flipped once per ply on the way back, to stay stated from the
//! perspective of the side to move at the starting position.

use vstd::prelude::*;
use vstd::arithmetic::power::{pow, lemma_pow0, lemma_pow_adds, lemma_pow1, lemma_pow_increases};
use vstd::arithmetic::mul::{lemma_mul_inequality, lemma_mul_upper_bound};
use crate::fixed::{UNIT, MAX_MOVES};
use crate::oracle::GamePosition;
use crate::rng::{SearchRng, rng_wf};
use crate::settings::GREED_MAX;

verus! {

/// The largest weight one move can get: `UNIT` to the `GREED_MAX`.
pub const WEIGHT_BOUND: u128 = 0x1_0000_0000_0000_0000_0000_0000;

/// Powers with bases up to `UNIT` stay below `WEIGHT_BOUND` while the
/// exponent stays within `GREED_MAX`.
proof fn lemma_unit_pow_bound(e: nat)
    requires
        e <= GREED_MAX,
    ensures
        pow(UNIT as int, e) <= WEIGHT_BOUND,
        pow(UNIT as int, e) >= 1,
{
    reveal_with_fuel(pow, 7);
    lemma_pow_increases(UNIT as nat, e, GREED_MAX as nat);
}

/// Power monotonicity in the base.
proof fn lemma_pow_base_mono(a: int, b: int, e: nat)
    requires
        0 <= a <= b,
    ensures
        0 <= pow(a, e) <= pow(b, e),
    decreases e,
{
    reveal(pow);
    if e > 0 {
        lemma_pow_base_mono(a, b, (e - 1) as nat);
        lemma_mul_upper_bound(a, b, pow(a, (e - 1) as nat), pow(b, (e - 1) as nat));
        assert(pow(a, e) == a * pow(a, (e - 1) as nat));
        assert(pow(b, e) == b * pow(b, (e - 1) as nat));
        assert(a * pow(a, (e - 1) as nat) >= 0) by (nonlinear_arith)
            requires
                a >= 0,
                pow(a, (e - 1) as nat) >= 0,
        ;
    }
}

/// A prior raised to the sharpening exponent.
fn pow_weight(p: u64, g: u64) -> (r: u128)
    requires
        p <= UNIT,
        g <= GREED_MAX,
    ensures
        r == pow(p as int, g as nat),
        r <= WEIGHT_BOUND,
{
    let mut acc: u128 = 1;
    let mut k: u64 = 0;
    proof {
        lemma_pow0(p as int);
        lemma_pow0(UNIT as int);
    }
    while k < g
        invariant
            k <= g,
            g <= GREED_MAX,
            p <= UNIT,
            acc == pow(p as int, k as nat),
            acc <= pow(UNIT as int, k as nat),
        decreases g - k,
    {
        proof {
            lemma_unit_pow_bound(k as nat);
            lemma_unit_pow_bound((k + 1) as nat);
            lemma_mul_upper_bound(acc as int, pow(UNIT as int, k as nat), p as int, UNIT as int);
            lemma_pow_adds(p as int, k as nat, 1);
            lemma_pow1(p as int);
            lemma_pow_adds(UNIT as int, k as nat, 1);
            lemma_pow1(UNIT as int);
        }
        acc = acc * (p as u128);
        k = k + 1;
    }
    proof {
        lemma_unit_pow_bound(g as nat);
    }
    acc
}

/// The sum of the first `k` sharpened weights of a move list.
pub open spec fn weight_sum(ms: Seq<(u64, u64)>, k: int, g: nat) -> int
    decreases k,
{
    if k <= 0 {
        0
    } else {
        weight_sum(ms, k - 1, g) + pow(ms[k - 1].1 as int, g)
    }
}

/// Draws one move index, with probability proportional to the sharpened
/// priors.  With any positive weight mass, exactly two words are drawn
/// from the generator; if every weight vanishes, index 0 is returned and
/// the generator is left alone.
pub fn sample_index(rng: &mut SearchRng, moves: &Vec<(u64, u64)>, greed: u64) -> (j: usize)
    requires
        rng_wf(*old(rng)),
        1 <= moves@.len() <= MAX_MOVES,
        forall|i: int| 0 <= i < moves@.len() ==> (#[trigger] moves@[i]).1 <= UNIT,
        greed <= GREED_MAX,
    ensures
        rng_wf(*final(rng)),
        j < moves@.len(),
        weight_sum(moves@, moves@.len() as int, greed as nat) == 0 ==> *final(rng) == *old(rng),
        weight_sum(moves@, moves@.len() as int, greed as nat) != 0 ==> final(rng).state
            == crate::rng::spec_next(crate::rng::spec_next(old(rng).state)),
{
    let g = greed;
    let mut total: u128 = 0;
    let mut i: usize = 0;
    while i < moves.len()
        invariant
            rng_wf(*rng),
            *rng == *old(rng),
            0 <= i <= moves@.len(),
            moves@.len() <= MAX_MOVES,
            forall|t: int| 0 <= t < moves@.len() ==> (#[trigger] moves@[t]).1 <= UNIT,
            g <= GREED_MAX,
            total == weight_sum(moves@, i as int, g as nat),
            total <= (i as int) * (WEIGHT_BOUND as int),
        decreases moves@.len() - i,
    {
        let w: u128 = pow_weight(moves[i].1, g);
        proof {
            assert((i as int) * (WEIGHT_BOUND as int) + WEIGHT_BOUND == ((i + 1) as int) * (
            WEIGHT_BOUND as int)) by (nonlinear_arith);
            lemma_mul_inequality((i + 1) as int, MAX_MOVES as int, WEIGHT_BOUND as int);
        }
        total = total + w;
        i = i + 1;
    }
    if total == 0 {
        return 0;
    }
    let hi: u64 = rng.next_word();
    let lo: u64 = rng.next_word();
    let draw: u128 = (((hi as u128) << 64) | (lo as u128)) % total;
    proof {
        assert(draw < total);
    }
    let mut acc: u128 = 0;
    let mut j: usize = 0;
    while j < moves.len()
        invariant
            rng_wf(*rng),
            rng.state == crate::rng::spec_next(crate::rng::spec_next(old(rng).state)),
            0 <= j <= moves@.len(),
            moves@.len() <= MAX_MOVES,
            forall|t: int| 0 <= t < moves@.len() ==> (#[trigger] moves@[t]).1 <= UNIT,
            g == greed,
            g <= GREED_MAX,
            total > 0,
            total == weight_sum(moves@, moves@.len() as int, g as nat),
            acc == weight_sum(moves@, j as int, g as nat),
            acc <= (j as int) * (WEIGHT_BOUND as int),
            draw < total,
            acc <= draw,
        decreases moves@.len() - j,
    {
        let w: u128 = pow_weight(moves[j].1, g);
        proof {
            assert((j as int) * (WEIGHT_BOUND as int) + WEIGHT_BOUND == ((j + 1) as int) * (
            WEIGHT_BOUND as int)) by (nonlinear_arith);
            lemma_mul_inequality((j + 1) as int, MAX_MOVES as int, WEIGHT_BOUND as int);
        }
        if draw < acc + w {
            return j;
        }
        acc = acc + w;
        j = j + 1;
    }
    proof {
        assert(acc == total);
        assert(false);
    }
    0
}

/// Plays a stochastic continuation of up to `depth` plies and returns a
/// value in [0, UNIT] for the side to move at `pos`: the cached outcome
/// on a terminal position, the evaluator's estimate once the depth is
/// spent, and otherwise the flipped value of a sampled continuation.
pub fn rollout<P: GamePosition>(rng: &mut SearchRng, pos: &P, depth: u16, greed: u64) -> (v: u64)
    requires
        rng_wf(*old(rng)),
        greed <= GREED_MAX,
    ensures
        rng_wf(*final(rng)),
        v <= UNIT,
        pos.spec_terminal() matches Some(outcome) ==> v == outcome && *final(rng) == *old(rng),
        (pos.spec_terminal() is None && depth == 0) ==> v == pos.spec_value() && *final(rng)
            == *old(rng),
    decreases depth,
{
    match pos.terminal_value() {
        Some(outcome) => {
            return outcome;
        },
        None => {},
    }
    if depth == 0 {
        return pos.static_value();
    }
    let moves = pos.moves_with_priors();
    let j = sample_index(rng, &moves, greed);
    let next = pos.apply_move(moves[j].0);
    let v = rollout(rng, &next, depth - 1, greed);
    UNIT - v
}

} // verus!
