//! 2-opt hill-climbing to a local optimum.
//!
//! Each step generates a neighborhood, selects the candidate with minimum
//! resulting cost, and accepts it only if it is strictly better than the
//! current cost.  The cost sequence is therefore non-increasing overall and
//! strictly decreasing at every accepted step, and the search terminates
//! because costs are non-negative integers.

use vstd::prelude::*;

use crate::matrix::{DistanceMatrix, MAX_DISTANCE, MAX_POINTS, in_bounds, tour_cost,
    lemma_tour_cost_bounds, permutation_weight};
use crate::moves::{Candidate, candidate_ok, emitted_move, get_neighborhood,
    get_faster_neighborhood, lemma_reversed_valid, reverse_segment, reversed};
use crate::tour::valid_tour;

verus! {

/// No emitted 2-opt move strictly improves the tour: `t` is a local optimum
/// of the full neighborhood.
pub open spec fn is_local_opt(m: DistanceMatrix, t: Seq<usize>) -> bool {
    forall|a: int, b: int|
        emitted_move(a, b, t.len() as int) ==> tour_cost(m, #[trigger] reversed(t, a, b))
            >= tour_cost(m, t)
}

/// Index of a minimum-weight candidate (the first one among equals).
fn min_candidate(neigh: &Vec<Candidate>) -> (r: usize)
    requires
        neigh@.len() >= 1,
    ensures
        r < neigh@.len(),
        forall|k: int| 0 <= k < neigh@.len() ==> neigh@[r as int].weight <= (#[trigger] neigh@[k]).weight,
{
    let mut best: usize = 0;
    let mut k: usize = 1;
    while k < neigh.len()
        invariant
            best < k <= neigh@.len(),
            forall|p: int| 0 <= p < k ==> neigh@[best as int].weight <= (#[trigger] neigh@[p]).weight,
        decreases neigh@.len() - k,
    {
        if neigh[k].weight < neigh[best].weight {
            best = k;
        }
        k = k + 1;
    }
    best
}

/// One best-improvement step.  Applies the minimum-cost emitted move when it
/// strictly improves the current cost and returns the new cost; returns
/// `None`, leaving the tour untouched, exactly when the tour is already a
/// local optimum.
pub fn local_search_step(curr: &mut Vec<usize>, adj_matrix: &DistanceMatrix, weight: u64) -> (r:
    Option<u64>)
    requires
        adj_matrix.wf(),
        valid_tour(old(curr)@, adj_matrix.n()),
        weight == tour_cost(*adj_matrix, old(curr)@),
    ensures
        match r {
            None => final(curr)@ == old(curr)@ && is_local_opt(*adj_matrix, old(curr)@),
            Some(w2) => {
                &&& valid_tour(final(curr)@, adj_matrix.n())
                &&& w2 == tour_cost(*adj_matrix, final(curr)@)
                &&& w2 < weight
                &&& final(curr)@.to_multiset() == old(curr)@.to_multiset()
                &&& !is_local_opt(*adj_matrix, old(curr)@)
                &&& exists|a: int, b: int|
                    emitted_move(a, b, old(curr)@.len() as int) && final(curr)@ == reversed(
                        old(curr)@,
                        a,
                        b,
                    )
                &&& forall|a: int, b: int|
                    emitted_move(a, b, old(curr)@.len() as int) ==> w2 <= tour_cost(
                        *adj_matrix,
                        #[trigger] reversed(old(curr)@, a, b),
                    )
            },
        },
{
    let ghost m = *adj_matrix;
    let ghost t = curr@;
    let n = curr.len();
    if n < 2 {
        return None;
    }
    let neigh = get_neighborhood(curr, adj_matrix, weight);
    if neigh.len() == 0 {
        proof {
            assert forall|a: int, b: int| emitted_move(a, b, t.len() as int) implies tour_cost(
                m,
                #[trigger] reversed(t, a, b),
            ) >= tour_cost(m, t) by {
                let k = choose|k: int|
                    0 <= k < neigh@.len() && (#[trigger] neigh@[k]).i == a && neigh@[k].j == b;
            }
        }
        return None;
    }
    let best = min_candidate(&neigh);
    let c = neigh[best];
    if c.weight >= weight {
        proof {
            assert forall|a: int, b: int| emitted_move(a, b, t.len() as int) implies tour_cost(
                m,
                #[trigger] reversed(t, a, b),
            ) >= tour_cost(m, t) by {
                let k = choose|k: int|
                    0 <= k < neigh@.len() && (#[trigger] neigh@[k]).i == a && neigh@[k].j == b;
                assert(candidate_ok(m, t, neigh@[k]));
                assert(neigh@[k].weight == tour_cost(m, reversed(t, a, b)));
            }
        }
        return None;
    }
    proof {
        assert(candidate_ok(m, t, c));
        lemma_reversed_valid(t, c.i as int, c.j as int, m.n());
    }
    reverse_segment(curr, c.i, c.j);
    proof {
        // The accepted move strictly improves, so the tour was no optimum,
        // and it was selected as a minimum over the complete neighborhood.
        assert(tour_cost(m, reversed(t, c.i as int, c.j as int)) < tour_cost(m, t));
        assert(emitted_move(c.i as int, c.j as int, t.len() as int) && curr@ == reversed(
            t,
            c.i as int,
            c.j as int,
        ));
        assert forall|a: int, b: int| emitted_move(a, b, t.len() as int) implies c.weight
            <= tour_cost(m, #[trigger] reversed(t, a, b)) by {
            let k = choose|k: int|
                0 <= k < neigh@.len() && (#[trigger] neigh@[k]).i == a && neigh@[k].j == b;
            assert(candidate_ok(m, t, neigh@[k]));
            assert(neigh@[k].weight == tour_cost(m, reversed(t, a, b)));
        }
    }
    Some(c.weight)
}

/// Exhaustive 2-opt local search: repeat best-improvement steps until no
/// emitted move improves the tour.  Returns the refined tour, the number of
/// neighborhood generations, and the final cost.
///
/// The contract carries the guarantees the search is used for: the result is
/// a permutation of the seed with consistent cost, it is a local optimum, the
/// cost never increased, it strictly decreased unless the seed was already
/// optimal, and a seed that is already a local optimum is returned unchanged
/// after a single generation: running the search on its own output is the
/// identity.
pub fn local_search(permutation: Vec<usize>, adj_matrix: &DistanceMatrix) -> (r: (
    Vec<usize>,
    u64,
    u64,
))
    requires
        adj_matrix.wf(),
        valid_tour(permutation@, adj_matrix.n()),
    ensures
        valid_tour(r.0@, adj_matrix.n()),
        r.0@.to_multiset() == permutation@.to_multiset(),
        r.2 == tour_cost(*adj_matrix, r.0@),
        is_local_opt(*adj_matrix, r.0@),
        r.2 <= tour_cost(*adj_matrix, permutation@),
        is_local_opt(*adj_matrix, permutation@) ==> r.0@ == permutation@ && r.1 == 1,
        !is_local_opt(*adj_matrix, permutation@) ==> r.2 < tour_cost(*adj_matrix, permutation@),
        r.1 >= 1,
{
    let ghost m = *adj_matrix;
    let ghost t0 = permutation@;
    let mut curr = permutation;
    let mut curr_weight = permutation_weight(&curr, adj_matrix);
    let ghost w0 = curr_weight;
    let mut counter: u64 = 0;
    proof {
        lemma_tour_cost_bounds(m, t0);
    }
    loop
        invariant_except_break
            adj_matrix.wf(),
            m == *adj_matrix,
            valid_tour(curr@, m.n()),
            curr@.to_multiset() == t0.to_multiset(),
            curr_weight == tour_cost(m, curr@),
            curr_weight <= w0,
            w0 == tour_cost(m, t0),
            w0 <= MAX_POINTS * MAX_DISTANCE,
            curr@ == t0 || curr_weight < w0,
            counter <= 1 + w0 - curr_weight,
            is_local_opt(m, t0) ==> curr@ == t0 && counter == 0,
        ensures
            adj_matrix.wf(),
            m == *adj_matrix,
            valid_tour(curr@, m.n()),
            curr@.to_multiset() == t0.to_multiset(),
            curr_weight == tour_cost(m, curr@),
            curr_weight <= w0,
            is_local_opt(m, curr@),
            curr@ == t0 || curr_weight < w0,
            is_local_opt(m, t0) ==> curr@ == t0 && counter == 1,
            counter >= 1,
        decreases curr_weight,
    {
        counter = counter + 1;
        let ghost before = curr@;
        match local_search_step(&mut curr, adj_matrix, curr_weight) {
            None => {
                break ;
            },
            Some(w2) => {
                proof {
                    if is_local_opt(m, t0) {
                        assert(before == t0);
                        assert(false);
                    }
                }
                curr_weight = w2;
            },
        }
    }
    (curr, counter, curr_weight)
}

/// Sampled 2-opt local search: like `local_search`, but each iteration draws
/// a uniform random subset of the candidate moves, trading solution quality
/// for speed at large `n`.  The result is a permutation of the seed with
/// consistent, never increased cost; being a random subset, no local-optimum
/// claim holds for it.
pub fn faster_local_search(
    permutation: Vec<usize>,
    adj_matrix: &DistanceMatrix,
    rng: &mut rand_pcg::Pcg64,
) -> (r: (Vec<usize>, u64, u64))
    requires
        adj_matrix.wf(),
        valid_tour(permutation@, adj_matrix.n()),
    ensures
        valid_tour(r.0@, adj_matrix.n()),
        r.0@.to_multiset() == permutation@.to_multiset(),
        r.2 == tour_cost(*adj_matrix, r.0@),
        r.2 <= tour_cost(*adj_matrix, permutation@),
        r.1 >= 1,
{
    let ghost m = *adj_matrix;
    let ghost t0 = permutation@;
    let mut curr = permutation;
    let mut curr_weight = permutation_weight(&curr, adj_matrix);
    let ghost w0 = curr_weight;
    let mut counter: u64 = 0;
    proof {
        lemma_tour_cost_bounds(m, t0);
    }
    let n = curr.len();
    if n < 2 {
        return (curr, 1, curr_weight);
    }
    loop
        invariant_except_break
            adj_matrix.wf(),
            m == *adj_matrix,
            valid_tour(curr@, m.n()),
            curr@.to_multiset() == t0.to_multiset(),
            curr@.len() == n >= 2,
            curr_weight == tour_cost(m, curr@),
            curr_weight <= w0,
            w0 <= MAX_POINTS * MAX_DISTANCE,
            counter <= 1 + w0 - curr_weight,
        ensures
            adj_matrix.wf(),
            m == *adj_matrix,
            valid_tour(curr@, m.n()),
            curr@.to_multiset() == t0.to_multiset(),
            curr_weight == tour_cost(m, curr@),
            curr_weight <= w0,
            counter >= 1,
        decreases curr_weight,
    {
        counter = counter + 1;
        let neigh = get_faster_neighborhood(&curr, adj_matrix, rng);
        if neigh.len() == 0 {
            break ;
        }
        let best = min_candidate(&neigh);
        let c = neigh[best];
        if c.weight >= curr_weight {
            break ;
        }
        proof {
            assert(candidate_ok(m, curr@, c));
            lemma_reversed_valid(curr@, c.i as int, c.j as int, m.n());
        }
        reverse_segment(&mut curr, c.i, c.j);
        curr_weight = c.weight;
    }
    (curr, counter, curr_weight)
}

} // verus!
