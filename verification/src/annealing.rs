//! Simulated annealing over random transpositions.
//!
//! The temperature is an integer, decremented by one per outer round; each
//! round runs a fixed number of trials.  A trial swaps two random positions,
//! recomputes the cost from scratch, accepts strict improvements outright and
//! worse candidates with probability `exp((current - candidate) /
//! temperature)`.  The run returns the final state, not the best state ever
//! seen, as the reference behaviour demands; callers wanting the best-ever
//! tour track it outside.
//!
//! The acceptance coin is drawn by an integer-only Bernoulli sampler for
//! `exp(-num/den)` (a forward von Neumann scheme over 64-bit uniforms), so
//! the engine needs no floating point.

use vstd::prelude::*;

use crate::matrix::{DistanceMatrix, tour_cost, permutation_weight};
use crate::rng::{rand_u64, sample_indices};
use crate::tour::{clone_tour, seed_tour, swap_positions, swapped, lemma_swap_valid, valid_tour};

verus! {

/// Upper bound on the draws of one fractional Bernoulli round; the scheme
/// continues past `k` draws only with probability below `1/k!`, so the cutoff
/// is unreachable in practice and merely bounds the loop.
const EXP_TRIAL_CAP: u64 = 64;

/// One Bernoulli trial with success probability `exp(-num/den)` for
/// `num <= den`: draw 64-bit uniforms as long as the `k`-th one falls below
/// `num / (den * k)`; succeed exactly when the count of draws taken is odd.
/// The alternating-series argument gives the exponential success
/// probability; nothing about the outcome is needed by the callers.
fn bernoulli_exp_frac(rng: &mut rand_pcg::Pcg64, num: u64, den: u64) -> (r: bool)
    requires
        1 <= den,
        num <= den,
{
    let mut k: u64 = 1;
    while k <= EXP_TRIAL_CAP
        invariant
            1 <= k,
            1 <= den,
        decreases EXP_TRIAL_CAP + 1 - k,
    {
        let draw = rand_u64(rng);
        proof {
            assert((k as u128) * (den as u128) >= 1) by (nonlinear_arith)
                requires k >= 1, den >= 1;
            assert((k as u128) * (den as u128) <= u128::MAX) by (nonlinear_arith)
                requires k <= u64::MAX, den <= u64::MAX;
        }
        let threshold: u128 = (num as u128) * 0x1_0000_0000_0000_0000u128 / ((k as u128) * (
        den as u128));
        if (draw as u128) >= threshold {
            return k % 2 == 1;
        }
        k = k + 1;
    }
    // Past the cutoff; the next failing draw would make the count even.
    false
}

/// One Bernoulli trial with success probability `exp(-num/den)` for any
/// `num`: the whole part is a product of `exp(-1)` factors, the remainder one
/// fractional trial.
fn bernoulli_exp(rng: &mut rand_pcg::Pcg64, num: u64, den: u64) -> (r: bool)
    requires
        1 <= den,
{
    let whole = num / den;
    let rem = num % den;
    let mut i: u64 = 0;
    while i < whole
        invariant
            1 <= den,
        decreases whole - i,
    {
        if !bernoulli_exp_frac(rng, den, den) {
            return false;
        }
        i = i + 1;
    }
    bernoulli_exp_frac(rng, rem, den)
}

/// One annealing trial: the transposition of positions `a` and `b` is
/// evaluated from scratch; a strict improvement is always accepted, a
/// non-improving candidate only when the Metropolis coin with probability
/// `exp((current - candidate) / temperature)` accepts it.  The returned cost
/// is always the exact cost of the resulting tour; an improving candidate is
/// guaranteed to be taken, and the tour never changes to anything but the
/// candidate.
pub fn annealing_trial(
    solution: &mut Vec<usize>,
    current_weight: u64,
    a: usize,
    b: usize,
    temperature: u64,
    rng: &mut rand_pcg::Pcg64,
    adj_matrix: &DistanceMatrix,
) -> (r: u64)
    requires
        adj_matrix.wf(),
        valid_tour(old(solution)@, adj_matrix.n()),
        current_weight == tour_cost(*adj_matrix, old(solution)@),
        a < old(solution)@.len(),
        b < old(solution)@.len(),
        temperature >= 1,
    ensures
        valid_tour(final(solution)@, adj_matrix.n()),
        r == tour_cost(*adj_matrix, final(solution)@),
        ({
            let cand = swapped(old(solution)@, a as int, b as int);
            &&& (tour_cost(*adj_matrix, cand) < current_weight ==> final(solution)@ == cand)
            &&& (final(solution)@ == cand || (final(solution)@ == old(solution)@ && r
                == current_weight))
        }),
{
    let ghost m = *adj_matrix;
    let mut potential_solution = clone_tour(solution);
    proof {
        lemma_swap_valid(solution@, a as int, b as int, m.n());
    }
    swap_positions(&mut potential_solution, a, b);
    let potential_weight = permutation_weight(&potential_solution, adj_matrix);
    let accept = if potential_weight < current_weight {
        true
    } else {
        bernoulli_exp(rng, potential_weight - current_weight, temperature)
    };
    if accept {
        *solution = potential_solution;
        potential_weight
    } else {
        current_weight
    }
}

/// Simulated annealing started from a given tour.
///
/// The result is a permutation of the start tour and its cost is the
/// recomputed cost of the returned tour.  A zero temperature or a degenerate
/// instance (`n <= 1`) performs no trial and returns the start tour.
pub fn simulated_annealing_from(
    start: Vec<usize>,
    adj_matrix: &DistanceMatrix,
    temperature: usize,
    epoch_count: usize,
    rng: &mut rand_pcg::Pcg64,
) -> (r: (Vec<usize>, u64))
    requires
        adj_matrix.wf(),
        valid_tour(start@, adj_matrix.n()),
    ensures
        valid_tour(r.0@, adj_matrix.n()),
        r.0@.to_multiset() == start@.to_multiset(),
        r.1 == tour_cost(*adj_matrix, r.0@),
        temperature == 0 || adj_matrix.n() <= 1 ==> r.0@ == start@,
{
    let ghost m = *adj_matrix;
    let ghost t0 = start@;
    let n = start.len();
    let mut solution = start;
    let mut current_weight = permutation_weight(&solution, adj_matrix);
    if n < 2 || temperature == 0 {
        return (solution, current_weight);
    }
    let mut temperature = temperature;
    while temperature != 0
        invariant
            adj_matrix.wf(),
            m == *adj_matrix,
            valid_tour(solution@, m.n()),
            solution@.to_multiset() == t0.to_multiset(),
            solution@.len() == n >= 2,
            current_weight == tour_cost(m, solution@),
        decreases temperature,
    {
        let mut epoch: usize = 0;
        while epoch < epoch_count
            invariant
                adj_matrix.wf(),
                m == *adj_matrix,
                valid_tour(solution@, m.n()),
                solution@.to_multiset() == t0.to_multiset(),
                solution@.len() == n >= 2,
                current_weight == tour_cost(m, solution@),
                epoch <= epoch_count,
                temperature >= 1,
            decreases epoch_count - epoch,
        {
            let picks = sample_indices(rng, n, 2);
            let a = picks[0];
            let b = picks[1];
            proof {
                lemma_swap_valid(solution@, a as int, b as int, m.n());
            }
            current_weight = annealing_trial(
                &mut solution,
                current_weight,
                a,
                b,
                temperature as u64,
                rng,
                adj_matrix,
            );
            epoch = epoch + 1;
        }
        temperature = temperature - 1;
    }
    (solution, current_weight)
}

/// Simulated annealing that tracks and returns the best state ever
/// accepted instead of the final one: the exploratory twin of
/// `simulated_annealing_from`, for callers that want the cheapest tour seen.
/// Its cost therefore never exceeds the start tour's.
pub fn simulated_annealing_best_from(
    start: Vec<usize>,
    adj_matrix: &DistanceMatrix,
    temperature: usize,
    epoch_count: usize,
    rng: &mut rand_pcg::Pcg64,
) -> (r: (Vec<usize>, u64))
    requires
        adj_matrix.wf(),
        valid_tour(start@, adj_matrix.n()),
    ensures
        valid_tour(r.0@, adj_matrix.n()),
        r.0@.to_multiset() == start@.to_multiset(),
        r.1 == tour_cost(*adj_matrix, r.0@),
        r.1 <= tour_cost(*adj_matrix, start@),
{
    let ghost m = *adj_matrix;
    let ghost t0 = start@;
    let n = start.len();
    let mut solution = start;
    let mut current_weight = permutation_weight(&solution, adj_matrix);
    let mut best = clone_tour(&solution);
    let mut best_weight = current_weight;
    if n < 2 || temperature == 0 {
        return (best, best_weight);
    }
    let mut temperature = temperature;
    while temperature != 0
        invariant
            adj_matrix.wf(),
            m == *adj_matrix,
            valid_tour(solution@, m.n()),
            solution@.to_multiset() == t0.to_multiset(),
            solution@.len() == n >= 2,
            current_weight == tour_cost(m, solution@),
            valid_tour(best@, m.n()),
            best@.to_multiset() == t0.to_multiset(),
            best_weight == tour_cost(m, best@),
            best_weight <= tour_cost(m, t0),
        decreases temperature,
    {
        let mut epoch: usize = 0;
        while epoch < epoch_count
            invariant
                adj_matrix.wf(),
                m == *adj_matrix,
                valid_tour(solution@, m.n()),
                solution@.to_multiset() == t0.to_multiset(),
                solution@.len() == n >= 2,
                current_weight == tour_cost(m, solution@),
                valid_tour(best@, m.n()),
                best@.to_multiset() == t0.to_multiset(),
                best_weight == tour_cost(m, best@),
                best_weight <= tour_cost(m, t0),
                epoch <= epoch_count,
                temperature >= 1,
            decreases epoch_count - epoch,
        {
            let picks = sample_indices(rng, n, 2);
            let a = picks[0];
            let b = picks[1];
            proof {
                lemma_swap_valid(solution@, a as int, b as int, m.n());
            }
            current_weight = annealing_trial(
                &mut solution,
                current_weight,
                a,
                b,
                temperature as u64,
                rng,
                adj_matrix,
            );
            if current_weight < best_weight {
                best = clone_tour(&solution);
                best_weight = current_weight;
            }
            epoch = epoch + 1;
        }
        temperature = temperature - 1;
    }
    (best, best_weight)
}

/// Simulated annealing from a uniformly random start tour; the generator is
/// threaded explicitly so runs are reproducible under a fixed seed.
pub fn simulated_annealing(
    adj_matrix: &DistanceMatrix,
    temperature: usize,
    epoch_count: usize,
    rng: &mut rand_pcg::Pcg64,
) -> (r: (Vec<usize>, u64))
    requires
        adj_matrix.wf(),
    ensures
        valid_tour(r.0@, adj_matrix.n()),
        r.1 == tour_cost(*adj_matrix, r.0@),
{
    let n = adj_matrix.len();
    let start = seed_tour(n, rng);
    simulated_annealing_from(start, adj_matrix, temperature, epoch_count, rng)
}

} // verus!
