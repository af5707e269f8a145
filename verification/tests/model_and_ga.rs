//! The data model (matrix validation, tours, MST seeding) and the
//! island-model genetic algorithm end to end.

use rand::SeedableRng;
use rand_pcg::Pcg64;

use tsp_engine::evolution::{CrossoverKind, Evolution, EvolutionError};
use tsp_engine::matrix::{permutation_weight, DistanceMatrix, MatrixError};
use tsp_engine::mst::{dfs, mst_seed_tour, mst_weight, parent_to_adj_list, prim, weight_traversal};
use tsp_engine::tour::{identity_tour, is_permutation, seed_tour};

fn five_point_matrix() -> DistanceMatrix {
    let d: Vec<Vec<u64>> = vec![
        vec![0, 36, 33, 23, 4],
        vec![36, 0, 4, 13, 40],
        vec![33, 4, 0, 10, 36],
        vec![23, 13, 10, 0, 26],
        vec![4, 40, 36, 26, 0],
    ];
    DistanceMatrix::new(d).unwrap()
}

#[test]
fn matrix_accepts_well_formed() {
    let m = five_point_matrix();
    assert_eq!(m.len(), 5);
}

#[test]
fn matrix_rejects_non_square() {
    let d = vec![vec![0u64, 1], vec![1u64, 0], vec![1u64, 1]];
    match DistanceMatrix::new(d) {
        Err(e) => assert_eq!(e, MatrixError::NotSquare),
        Ok(_) => panic!("the table must be rejected"),
    }
}

#[test]
fn matrix_rejects_asymmetric() {
    let d = vec![vec![0u64, 1], vec![2u64, 0]];
    match DistanceMatrix::new(d) {
        Err(e) => assert_eq!(e, MatrixError::NotSymmetric),
        Ok(_) => panic!("the table must be rejected"),
    }
}

#[test]
fn matrix_rejects_non_zero_diagonal() {
    let d = vec![vec![3u64, 1], vec![1u64, 0]];
    match DistanceMatrix::new(d) {
        Err(e) => assert_eq!(e, MatrixError::NonZeroDiagonal),
        Ok(_) => panic!("the table must be rejected"),
    }
}

#[test]
fn matrix_rejects_oversized_entry() {
    let big = 0x1_0000_0000u64;
    let d = vec![vec![0u64, big], vec![big, 0]];
    match DistanceMatrix::new(d) {
        Err(e) => assert_eq!(e, MatrixError::TooLarge),
        Ok(_) => panic!("the table must be rejected"),
    }
}

#[test]
fn permutation_weight_exact() {
    let m = five_point_matrix();
    // 36 + 4 + 10 + 26 plus the closing edge 4.
    assert_eq!(permutation_weight(&vec![0, 1, 2, 3, 4], &m), 80);
    // Degenerate instances cost nothing.
    let single = DistanceMatrix::new(vec![vec![0u64]]).unwrap();
    assert_eq!(permutation_weight(&vec![0], &single), 0);
}

#[test]
fn weight_traversal_exact() {
    let m = five_point_matrix();
    // The open path leaves out the closing edge.
    assert_eq!(weight_traversal(&vec![0, 1, 2, 3, 4], &m), 76);
}

#[test]
fn permutation_test_is_exact() {
    assert!(is_permutation(&vec![2usize, 0, 1], 3));
    assert!(!is_permutation(&vec![2usize, 0], 3));
    assert!(!is_permutation(&vec![2usize, 0, 2], 3));
    assert!(!is_permutation(&vec![3usize, 0, 1], 3));
    assert!(is_permutation(&Vec::new(), 0));
    let id = identity_tour(6);
    assert_eq!(id, vec![0, 1, 2, 3, 4, 5]);
    assert!(is_permutation(&id, 6));
}

#[test]
fn seed_tours_are_permutations() {
    let mut rng = Pcg64::seed_from_u64(41);
    for n in 0..=12usize {
        let t = seed_tour(n, &mut rng);
        assert!(is_permutation(&t, n));
    }
}

#[test]
fn mst_seeding_pipeline() {
    let m = five_point_matrix();
    let parent = prim(&m, 5);
    assert_eq!(parent.len(), 5);
    for v in 1..5usize {
        assert!(parent[v] < 5);
        assert!(parent[v] != v);
    }
    let tree_weight = mst_weight(&parent, &m);
    let adj = parent_to_adj_list(&parent);
    let traversal = dfs(&adj);
    assert!(is_permutation(&traversal, 5));
    let seed = mst_seed_tour(&m);
    assert!(is_permutation(&seed, 5));
    assert_eq!(tree_weight, 41);
    assert!(weight_traversal(&traversal, &m) >= tree_weight);
}

#[test]
fn evolution_rejects_bad_parameters() {
    let m = five_point_matrix();
    let rng = Pcg64::seed_from_u64(42);
    match Evolution::new(0, 5, m, rng) {
        Err(EvolutionError::NoIslands) => {},
        _ => panic!("zero islands must be rejected"),
    }
    let m = five_point_matrix();
    let rng = Pcg64::seed_from_u64(42);
    match Evolution::new(2, 0, m, rng) {
        Err(EvolutionError::EmptyInstance) => {},
        _ => panic!("an empty instance must be rejected"),
    }
    let m = five_point_matrix();
    let rng = Pcg64::seed_from_u64(42);
    match Evolution::new(2, 4, m, rng) {
        Err(EvolutionError::SizeMismatch) => {},
        _ => panic!("a mismatched point count must be rejected"),
    }
}

#[test]
fn evolution_run_pmx() {
    let m = five_point_matrix();
    let check = five_point_matrix();
    let rng = Pcg64::seed_from_u64(43);
    let mut engine = Evolution::new(2, 5, m, rng).unwrap();
    engine.run(CrossoverKind::Pmx);
    let (best, fitness) = engine.extract_best();
    assert!(is_permutation(&best, 5));
    assert_eq!(fitness, permutation_weight(&best, &check));
    // The optimum of this instance is 80 and the search never reports less.
    assert!(fitness >= 80);
}

#[test]
fn evolution_run_cx() {
    let m = five_point_matrix();
    let check = five_point_matrix();
    let rng = Pcg64::seed_from_u64(44);
    let mut engine = Evolution::new(2, 5, m, rng).unwrap();
    engine.run(CrossoverKind::Cx);
    let (best, fitness) = engine.extract_best();
    assert!(is_permutation(&best, 5));
    assert_eq!(fitness, permutation_weight(&best, &check));
    assert!(fitness >= 80);
}

#[test]
fn evolution_seeds_first_slot() {
    let m = five_point_matrix();
    let check = five_point_matrix();
    let rng = Pcg64::seed_from_u64(46);
    let seed = vec![2usize, 0, 3, 1, 4];
    let seed_cost = permutation_weight(&seed, &check);
    let engine = Evolution::new_with_seed(seed.clone(), 3, 5, m, rng).unwrap();
    for island in &engine.islands {
        assert_eq!(island[0].chromosome, seed);
        assert_eq!(island[0].fitness, seed_cost);
    }
    // The default construction seeds every island with the same MST-derived
    // tour.
    let m = five_point_matrix();
    let rng = Pcg64::seed_from_u64(46);
    let engine = Evolution::new(3, 5, m, rng).unwrap();
    let first = engine.islands[0][0].chromosome.clone();
    assert!(is_permutation(&first, 5));
    for island in &engine.islands {
        assert_eq!(island[0].chromosome, first);
    }
}

#[test]
fn extract_best_is_minimal() {
    let m = five_point_matrix();
    let rng = Pcg64::seed_from_u64(45);
    let engine = Evolution::new(3, 5, m, rng).unwrap();
    let (_, fitness) = engine.extract_best();
    for island in &engine.islands {
        for ind in island {
            assert!(fitness <= ind.fitness);
        }
    }
}
