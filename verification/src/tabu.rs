//! Tabu search over the full 2-opt neighborhood.
//!
//! The search keeps an exact set of already visited tours.  Each iteration
//! accepts the cheapest neighborhood candidate whose tour is not in the set
//! (there is no aspiration override), inserts it, and moves on; it stops
//! when the set reaches its configured capacity, so the capacity acts as an
//! iteration budget.  When a neighborhood offers no non-tabu candidate at
//! all, the search ends early and reports the best tour seen: an explicit
//! fallback in place of the otherwise undefined behaviour of this corner.

use vstd::prelude::*;

use crate::matrix::{DistanceMatrix, in_bounds, tour_cost, permutation_weight};
use crate::moves::{candidate_ok, emitted_move, reverse_segment, reversed, get_neighborhood,
    lemma_reversed_valid};
use crate::tour::{clone_tour, seed_tour, valid_tour};

verus! {

/// Exact element-wise tour equality.
fn tours_equal(a: &Vec<usize>, b: &Vec<usize>) -> (r: bool)
    ensures
        r <==> a@ == b@,
{
    if a.len() != b.len() {
        return false;
    }
    let mut k: usize = 0;
    while k < a.len()
        invariant
            a@.len() == b@.len(),
            k <= a@.len(),
            forall|p: int| 0 <= p < k ==> a@[p] == b@[p],
        decreases a@.len() - k,
    {
        if a[k] != b[k] {
            return false;
        }
        k = k + 1;
    }
    proof {
        assert(a@ =~= b@);
    }
    true
}

/// The tabu set holds `t`: exact membership, identical permutations only.
pub open spec fn spec_tabu_contains(list: Seq<Vec<usize>>, t: Seq<usize>) -> bool {
    exists|l: int| 0 <= l < list.len() && (#[trigger] list[l])@ == t
}

/// No single 2-opt move on `start` that changes it beats cost `w`: the first
/// accepted move of a tabu run is the cheapest the neighborhood offers.
pub open spec fn first_move_bound(m: DistanceMatrix, start: Seq<usize>, w: int) -> bool {
    forall|a: int, b: int|
        emitted_move(a, b, start.len() as int) && reversed(start, a, b) != start ==> w <= tour_cost(
            m,
            #[trigger] reversed(start, a, b),
        )
}

fn tabu_contains(list: &Vec<Vec<usize>>, t: &Vec<usize>) -> (r: bool)
    ensures
        r <==> spec_tabu_contains(list@, t@),
{
    let mut l: usize = 0;
    while l < list.len()
        invariant
            l <= list@.len(),
            forall|p: int| 0 <= p < l ==> (#[trigger] list@[p])@ != t@,
        decreases list@.len() - l,
    {
        if tours_equal(&list[l], t) {
            return true;
        }
        l = l + 1;
    }
    false
}

/// One tabu iteration on the current tour: the full 2-opt neighborhood is
/// scanned in emission order and the cheapest candidate whose tour is not in
/// the tabu set is returned with its exact cost.  `None` is returned exactly
/// when every emitted candidate's tour is already tabu (on fewer than four
/// points no move is emitted at all).
pub fn tabu_step(
    curr: &Vec<usize>,
    curr_weight: u64,
    tabu_list: &Vec<Vec<usize>>,
    adj_matrix: &DistanceMatrix,
) -> (r: Option<(Vec<usize>, u64)>)
    requires
        adj_matrix.wf(),
        valid_tour(curr@, adj_matrix.n()),
        adj_matrix.n() >= 2,
        curr_weight == tour_cost(*adj_matrix, curr@),
    ensures
        match r {
            None => forall|a: int, b: int|
                emitted_move(a, b, curr@.len() as int) ==> spec_tabu_contains(
                    tabu_list@,
                    #[trigger] reversed(curr@, a, b),
                ),
            Some(c) => {
                &&& valid_tour(c.0@, adj_matrix.n())
                &&& c.0@.to_multiset() == curr@.to_multiset()
                &&& c.1 == tour_cost(*adj_matrix, c.0@)
                &&& !spec_tabu_contains(tabu_list@, c.0@)
                &&& exists|a: int, b: int|
                    emitted_move(a, b, curr@.len() as int) && c.0@ == #[trigger] reversed(
                        curr@,
                        a,
                        b,
                    )
                &&& forall|a: int, b: int|
                    emitted_move(a, b, curr@.len() as int) && !spec_tabu_contains(
                        tabu_list@,
                        #[trigger] reversed(curr@, a, b),
                    ) ==> c.1 <= tour_cost(*adj_matrix, reversed(curr@, a, b))
            },
        },
{
    let ghost m = *adj_matrix;
    let neigh = get_neighborhood(curr, adj_matrix, curr_weight);
    let mut found = false;
    let mut cand_tour: Vec<usize> = Vec::new();
    let mut cand_weight: u64 = 0;
    let ghost mut cand_move: (int, int) = (0, 0);
    let mut k: usize = 0;
    while k < neigh.len()
        invariant
            adj_matrix.wf(),
            m == *adj_matrix,
            valid_tour(curr@, m.n()),
            curr_weight == tour_cost(m, curr@),
            k <= neigh@.len(),
            forall|p: int| 0 <= p < neigh@.len() ==> candidate_ok(m, curr@, #[trigger] neigh@[p]),
            found ==> {
                &&& valid_tour(cand_tour@, m.n())
                &&& cand_tour@.to_multiset() == curr@.to_multiset()
                &&& cand_weight == tour_cost(m, cand_tour@)
                &&& !spec_tabu_contains(tabu_list@, cand_tour@)
                &&& emitted_move(cand_move.0, cand_move.1, curr@.len() as int)
                &&& cand_tour@ == reversed(curr@, cand_move.0, cand_move.1)
            },
            !found ==> forall|p: int|
                0 <= p < k ==> spec_tabu_contains(
                    tabu_list@,
                    reversed(curr@, (#[trigger] neigh@[p]).i as int, neigh@[p].j as int),
                ),
            forall|p: int|
                0 <= p < k && !spec_tabu_contains(
                    tabu_list@,
                    reversed(curr@, (#[trigger] neigh@[p]).i as int, neigh@[p].j as int),
                ) ==> found && cand_weight <= neigh@[p].weight,
        decreases neigh@.len() - k,
    {
        let c = neigh[k];
        if !found || c.weight < cand_weight {
            let mut rep = clone_tour(curr);
            proof {
                assert(candidate_ok(m, curr@, c));
                lemma_reversed_valid(curr@, c.i as int, c.j as int, m.n());
            }
            reverse_segment(&mut rep, c.i, c.j);
            if !tabu_contains(tabu_list, &rep) {
                found = true;
                cand_tour = rep;
                cand_weight = c.weight;
                proof {
                    cand_move = (c.i as int, c.j as int);
                }
            }
        }
        k = k + 1;
    }
    if !found {
        proof {
            assert forall|a: int, b: int|
                emitted_move(a, b, curr@.len() as int) implies spec_tabu_contains(
                tabu_list@,
                #[trigger] reversed(curr@, a, b),
            ) by {
                let p = choose|p: int|
                    0 <= p < neigh@.len() && (#[trigger] neigh@[p]).i == a && neigh@[p].j == b;
            }
        }
        None
    } else {
        proof {
            assert forall|a: int, b: int|
                emitted_move(a, b, curr@.len() as int) && !spec_tabu_contains(
                    tabu_list@,
                    #[trigger] reversed(curr@, a, b),
                ) implies cand_weight <= tour_cost(m, reversed(curr@, a, b)) by {
                let p = choose|p: int|
                    0 <= p < neigh@.len() && (#[trigger] neigh@[p]).i == a && neigh@[p].j == b;
                assert(candidate_ok(m, curr@, neigh@[p]));
                assert(neigh@[p].weight == tour_cost(m, reversed(curr@, a, b)));
            }
            assert(emitted_move(cand_move.0, cand_move.1, curr@.len() as int) && cand_tour@
                == reversed(curr@, cand_move.0, cand_move.1));
        }
        Some((cand_tour, cand_weight))
    }
}

/// Tabu search started from a given tour.
///
/// Guarantees: the result is a permutation of the start tour, its cost is the
/// recomputed cost of the returned tour, and it never exceeds the start
/// tour's cost.  With a capacity of one (or zero) the set is already full
/// after the start tour is inserted, so no move is attempted and the start
/// tour itself is returned.  With capacity for at least one move, each
/// iteration accepts the cheapest non-tabu candidate (`tabu_step`), so in
/// particular the result beats every single 2-opt move on the start tour.
pub fn tabu_search_from(start: Vec<usize>, adj_matrix: &DistanceMatrix, tabu_capacity: usize) -> (r:
    (Vec<usize>, u64))
    requires
        adj_matrix.wf(),
        valid_tour(start@, adj_matrix.n()),
    ensures
        valid_tour(r.0@, adj_matrix.n()),
        r.0@.to_multiset() == start@.to_multiset(),
        r.1 == tour_cost(*adj_matrix, r.0@),
        r.1 <= tour_cost(*adj_matrix, start@),
        tabu_capacity <= 1 ==> r.0@ == start@,
        tabu_capacity >= 2 ==> first_move_bound(*adj_matrix, start@, r.1 as int),
{
    let ghost m = *adj_matrix;
    let ghost t0 = start@;
    let n = start.len();
    let mut curr = start;
    let mut curr_weight = permutation_weight(&curr, adj_matrix);
    let mut best = clone_tour(&curr);
    let mut best_weight = curr_weight;
    let mut tabu_list: Vec<Vec<usize>> = Vec::new();
    tabu_list.push(clone_tour(&curr));
    if n < 2 {
        // No move is emitted on fewer than two points, so the bound over
        // single moves holds vacuously.
        return (best, best_weight);
    }
    while tabu_list.len() < tabu_capacity
        invariant_except_break
            adj_matrix.wf(),
            m == *adj_matrix,
            m.n() >= 2,
            valid_tour(curr@, m.n()),
            curr@.to_multiset() == t0.to_multiset(),
            curr_weight == tour_cost(m, curr@),
            valid_tour(best@, m.n()),
            best@.to_multiset() == t0.to_multiset(),
            best_weight == tour_cost(m, best@),
            best_weight <= tour_cost(m, t0),
            1 <= tabu_list@.len(),
            tabu_capacity <= 1 ==> best@ == t0,
            (tabu_list@.len() == 1 && curr@ == t0 && tabu_list@[0]@ == t0) || first_move_bound(
                m,
                t0,
                best_weight as int,
            ),
        ensures
            adj_matrix.wf(),
            m == *adj_matrix,
            valid_tour(best@, m.n()),
            best@.to_multiset() == t0.to_multiset(),
            best_weight == tour_cost(m, best@),
            best_weight <= tour_cost(m, t0),
            tabu_capacity <= 1 ==> best@ == t0,
            tabu_capacity >= 2 ==> first_move_bound(m, t0, best_weight as int),
        decreases tabu_capacity - tabu_list@.len(),
    {
        let ghost first_pending = tabu_list@.len() == 1 && curr@ == t0 && tabu_list@[0]@ == t0;
        let step = tabu_step(&curr, curr_weight, &tabu_list, adj_matrix);
        proof {
            // On the first iteration the set holds only the start tour, so
            // every single move that changes the start tour is non-tabu.
            if first_pending {
                assert forall|a: int, b: int|
                    emitted_move(a, b, t0.len() as int) && reversed(t0, a, b)
                        != t0 implies !spec_tabu_contains(
                    tabu_list@,
                    #[trigger] reversed(t0, a, b),
                ) by {
                    if spec_tabu_contains(tabu_list@, reversed(t0, a, b)) {
                        let l = choose|l: int|
                            0 <= l < tabu_list@.len() && (#[trigger] tabu_list@[l])@ == reversed(
                                t0,
                                a,
                                b,
                            );
                        assert(l == 0);
                        assert(false);
                    }
                }
            }
        }
        match step {
            None => {
                proof {
                    // Every candidate is tabu; on the first iteration that
                    // means every single move returns the start tour, so the
                    // bound holds vacuously.
                    if first_pending {
                        assert forall|a: int, b: int|
                            emitted_move(a, b, t0.len() as int) && reversed(t0, a, b)
                                != t0 implies best_weight as int <= tour_cost(
                            m,
                            #[trigger] reversed(t0, a, b),
                        ) by {
                            assert(spec_tabu_contains(tabu_list@, reversed(t0, a, b)));
                            assert(false);
                        }
                    }
                }
                break ;
            },
            Some(cand) => {
                let cand_tour = cand.0;
                let cand_weight = cand.1;
                proof {
                    if first_pending {
                        assert forall|a: int, b: int|
                            emitted_move(a, b, t0.len() as int) && reversed(t0, a, b)
                                != t0 implies cand_weight as int <= tour_cost(
                            m,
                            #[trigger] reversed(t0, a, b),
                        ) by {
                            assert(!spec_tabu_contains(tabu_list@, reversed(t0, a, b)));
                        }
                    }
                }
                if best_weight > cand_weight {
                    best = clone_tour(&cand_tour);
                    best_weight = cand_weight;
                }
                tabu_list.push(clone_tour(&cand_tour));
                curr = cand_tour;
                curr_weight = cand_weight;
            },
        }
    }
    (best, best_weight)
}


/// Tabu search from a uniformly random start tour, as the engine's callers
/// use it: the generator is threaded explicitly so runs are reproducible
/// under a fixed seed.
pub fn tabu_search(
    adj_matrix: &DistanceMatrix,
    tabu_capacity: usize,
    rng: &mut rand_pcg::Pcg64,
) -> (r: (Vec<usize>, u64))
    requires
        adj_matrix.wf(),
    ensures
        valid_tour(r.0@, adj_matrix.n()),
        r.1 == tour_cost(*adj_matrix, r.0@),
{
    let n = adj_matrix.len();
    let start = seed_tour(n, rng);
    tabu_search_from(start, adj_matrix, tabu_capacity)
}

} // verus!
