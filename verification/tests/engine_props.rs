//! Behavioural checks of the engine: the incremental delta against full
//! recomputation (wrap-around included), local-search monotonicity and
//! idempotence, and the small fixed scenarios for exhaustive search, tabu
//! capacity one, and a single annealing trial.

use rand::prelude::SliceRandom;
use rand::Rng;
use rand::SeedableRng;
use rand_pcg::Pcg64;

use tsp_engine::annealing::{simulated_annealing_best_from, simulated_annealing_from};
use tsp_engine::matrix::{permutation_weight, DistanceMatrix};
use tsp_engine::moves::{invert_weight, reverse_segment};
use tsp_engine::mst::mst_seed_tour;
use tsp_engine::search::local_search;
use tsp_engine::tabu::{tabu_search_from, tabu_step};
use tsp_engine::tour::is_permutation;

/// A 5-point Euclidean instance whose every 2-opt local optimum is the
/// global optimum of cost 80.
fn five_point_matrix() -> DistanceMatrix {
    let d: Vec<Vec<u64>> = vec![
        vec![0, 36, 33, 23, 4],
        vec![36, 0, 4, 13, 40],
        vec![33, 4, 0, 10, 36],
        vec![23, 13, 10, 0, 26],
        vec![4, 40, 36, 26, 0],
    ];
    DistanceMatrix::new(d).unwrap()
}

fn random_matrix(rng: &mut Pcg64, n: usize) -> DistanceMatrix {
    let mut d = vec![vec![0u64; n]; n];
    for i in 0..n {
        for j in (i + 1)..n {
            let v = rng.gen_range(0..1000u64);
            d[i][j] = v;
            d[j][i] = v;
        }
    }
    DistanceMatrix::new(d).unwrap()
}

fn reversed_copy(t: &[usize], i: usize, j: usize) -> Vec<usize> {
    let mut r = t.to_vec();
    reverse_segment(&mut r, i, j);
    r
}

#[test]
fn delta_matches_recomputation_randomized() {
    let mut rng = Pcg64::seed_from_u64(21);
    let mut checked = 0u32;
    for n in 4..=50usize {
        let m = random_matrix(&mut rng, n);
        let mut tour: Vec<usize> = (0..n).collect();
        for _ in 0..25 {
            tour.shuffle(&mut rng);
            let w = permutation_weight(&tour, &m);
            let i = rng.gen_range(0..n - 1);
            let j = rng.gen_range(i + 1..n);
            if i == 0 && j == n - 1 {
                continue;
            }
            let fast = invert_weight(&tour, &m, i, j, w);
            let slow = permutation_weight(&reversed_copy(&tour, i, j), &m);
            assert_eq!(fast, slow);
            checked += 1;
        }
    }
    assert!(checked >= 1000);
}

#[test]
fn delta_wrap_around_edges() {
    let m = five_point_matrix();
    let tour: Vec<usize> = vec![0, 1, 2, 3, 4];
    let w = permutation_weight(&tour, &m);
    assert_eq!(w, 80);
    // Moves touching position 0 wrap the removed edge to the closing edge.
    for j in 1..4usize {
        let fast = invert_weight(&tour, &m, 0, j, w);
        let slow = permutation_weight(&reversed_copy(&tour, 0, j), &m);
        assert_eq!(fast, slow);
    }
    // Moves ending at the last position wrap the other removed edge.
    for i in 1..4usize {
        let fast = invert_weight(&tour, &m, i, 4, w);
        let slow = permutation_weight(&reversed_copy(&tour, i, 4), &m);
        assert_eq!(fast, slow);
    }
    // One exact value: reversing positions 1..=3 yields 0,3,2,1,4.
    assert_eq!(invert_weight(&tour, &m, 1, 3, w), 81);
    // And a wrap-around value: reversing 0..=2 yields 2,1,0,3,4.
    assert_eq!(invert_weight(&tour, &m, 0, 2, w), 125);
}

#[test]
fn local_search_monotone_and_idempotent() {
    let mut rng = Pcg64::seed_from_u64(22);
    for n in [4usize, 7, 12, 20] {
        let m = random_matrix(&mut rng, n);
        let mut tour: Vec<usize> = (0..n).collect();
        for _ in 0..10 {
            tour.shuffle(&mut rng);
            let w0 = permutation_weight(&tour, &m);
            let (t1, steps1, w1) = local_search(tour.clone(), &m);
            assert!(is_permutation(&t1, n));
            assert!(w1 <= w0);
            assert!(steps1 >= 1);
            assert_eq!(w1, permutation_weight(&t1, &m));
            // Running the search again on its own output changes nothing.
            let (t2, steps2, w2) = local_search(t1.clone(), &m);
            assert_eq!(t2, t1);
            assert_eq!(w2, w1);
            assert_eq!(steps2, 1);
        }
    }
}

#[test]
fn exhaustive_search_from_every_start_reaches_optimum() {
    let m = five_point_matrix();
    let optimal = 80u64;
    let mst_seed = mst_seed_tour(&m);
    let mst_cost = permutation_weight(&mst_seed, &m);
    assert!(optimal <= mst_cost);
    // All 120 permutations of five points.
    let mut count = 0u32;
    for a in 0..5usize {
        for b in 0..5usize {
            for c in 0..5usize {
                for d in 0..5usize {
                    for e in 0..5usize {
                        let tour = vec![a, b, c, d, e];
                        if !is_permutation(&tour, 5) {
                            continue;
                        }
                        count += 1;
                        let (t, _, w) = local_search(tour, &m);
                        assert!(is_permutation(&t, 5));
                        assert!(w <= mst_cost);
                        assert_eq!(w, optimal);
                    }
                }
            }
        }
    }
    assert_eq!(count, 120);
}

#[test]
fn tabu_capacity_one_returns_start() {
    let m = five_point_matrix();
    let start = vec![2usize, 0, 4, 1, 3];
    let start_cost = permutation_weight(&start, &m);
    // The set is full after the start tour is inserted: no move happens.
    let (best, best_cost) = tabu_search_from(start.clone(), &m, 1);
    assert_eq!(best, start);
    assert_eq!(best_cost, start_cost);
    // Capacity zero behaves the same way.
    let (best0, best_cost0) = tabu_search_from(start.clone(), &m, 0);
    assert_eq!(best0, start);
    assert_eq!(best_cost0, start_cost);
    // With room for one more tour, exactly the cheapest non-tabu move is
    // taken, so the result beats every single 2-opt move on the start tour.
    let (best2, best_cost2) = tabu_search_from(start.clone(), &m, 2);
    assert!(is_permutation(&best2, 5));
    assert_eq!(best_cost2, permutation_weight(&best2, &m));
    assert!(best_cost2 <= start_cost);
    for diff in 1..2usize {
        for j in diff..5usize {
            let moved = reversed_copy(&start, j - diff, j);
            if moved != start {
                assert!(best_cost2 <= permutation_weight(&moved, &m));
            }
        }
    }
}

#[test]
fn tabu_step_takes_cheapest_non_tabu() {
    let m = five_point_matrix();
    let curr = vec![0usize, 1, 2, 3, 4];
    let w = permutation_weight(&curr, &m);
    // With an empty tabu set the cheapest of the four emitted moves wins:
    // reversing positions 1..=2 keeps the cost at 80.
    let empty: Vec<Vec<usize>> = Vec::new();
    match tabu_step(&curr, w, &empty, &m) {
        Some((tour, weight)) => {
            assert_eq!(tour, vec![0, 2, 1, 3, 4]);
            assert_eq!(weight, 80);
            assert_eq!(weight, permutation_weight(&tour, &m));
        },
        None => panic!("a non-tabu candidate exists"),
    }
    // Once every candidate tour is tabu, no move is accepted.
    let mut all_moves: Vec<Vec<usize>> = Vec::new();
    for j in 1..5usize {
        all_moves.push(reversed_copy(&curr, j - 1, j));
    }
    match tabu_step(&curr, w, &all_moves, &m) {
        Some(_) => panic!("every candidate is tabu"),
        None => {},
    }
}

#[test]
fn annealing_single_trial_keeps_validity() {
    let m = five_point_matrix();
    for seed in 0..20u64 {
        let mut rng = Pcg64::seed_from_u64(seed);
        let start = vec![3usize, 1, 4, 0, 2];
        let (tour, cost) = simulated_annealing_from(start, &m, 1, 1, &mut rng);
        assert!(is_permutation(&tour, 5));
        assert_eq!(cost, permutation_weight(&tour, &m));
    }
}

#[test]
fn annealing_best_never_exceeds_start() {
    let m = five_point_matrix();
    for seed in 0..10u64 {
        let mut rng = Pcg64::seed_from_u64(seed);
        let start = vec![1usize, 3, 0, 4, 2];
        let start_cost = permutation_weight(&start, &m);
        let (tour, cost) = simulated_annealing_best_from(start, &m, 3, 50, &mut rng);
        assert!(is_permutation(&tour, 5));
        assert_eq!(cost, permutation_weight(&tour, &m));
        assert!(cost <= start_cost);
    }
}

#[test]
fn annealing_zero_temperature_returns_start() {
    let m = five_point_matrix();
    let mut rng = Pcg64::seed_from_u64(23);
    let start = vec![3usize, 1, 4, 0, 2];
    let start_cost = permutation_weight(&start, &m);
    let (tour, cost) = simulated_annealing_from(start.clone(), &m, 0, 100, &mut rng);
    assert_eq!(tour, start);
    assert_eq!(cost, start_cost);
}
