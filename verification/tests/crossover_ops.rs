//! The genetic operators: both crossovers always produce valid permutations,
//! with exact expected children on fixed inputs, and mutation preserves the
//! permutation.

use rand::SeedableRng;
use rand_pcg::Pcg64;

use tsp_engine::crossover::{cx_crossover, mutation, pmx_child, pmx_crossover};
use tsp_engine::tour::{is_permutation, seed_tour};

#[test]
fn pmx_child_exact() {
    let base = vec![0usize, 1, 2, 3, 4];
    let seg = vec![4usize, 3, 2, 1, 0];
    // Transplanting seg's positions 1..3 (values 3, 2) into the base.
    let child = pmx_child(&base, &seg, 1, 3);
    assert_eq!(child, vec![0, 3, 2, 1, 4]);
    // An empty segment leaves the base untouched.
    let same = pmx_child(&base, &seg, 2, 2);
    assert_eq!(same, base);
}

#[test]
fn pmx_children_are_permutations() {
    let mut rng = Pcg64::seed_from_u64(31);
    for n in 2..=12usize {
        for _ in 0..20 {
            let p1 = seed_tour(n, &mut rng);
            let p2 = seed_tour(n, &mut rng);
            let (c1, c2) = pmx_crossover(&mut rng, &p1, &p2);
            assert!(is_permutation(&c1, n));
            assert!(is_permutation(&c2, n));
        }
    }
}

#[test]
fn cx_exact_two_cycles() {
    let p1 = vec![0usize, 1, 2, 3];
    let p2 = vec![1usize, 0, 3, 2];
    // Cycles {0, 1} and {2, 3}: the first child keeps parent1 on the first
    // cycle and takes parent2 on the second.
    let (c1, c2) = cx_crossover(&p1, &p2);
    assert_eq!(c1, vec![0, 1, 3, 2]);
    assert_eq!(c2, vec![1, 0, 2, 3]);
}

#[test]
fn cx_single_cycle_copies_parents() {
    let p1 = vec![0usize, 1, 2, 3, 4];
    let p2 = vec![1usize, 2, 3, 4, 0];
    // A single cycle covers every position, so the children equal the
    // parents.
    let (c1, c2) = cx_crossover(&p1, &p2);
    assert_eq!(c1, p1);
    assert_eq!(c2, p2);
}

#[test]
fn cx_children_are_permutations() {
    let mut rng = Pcg64::seed_from_u64(32);
    for n in 2..=12usize {
        for _ in 0..20 {
            let p1 = seed_tour(n, &mut rng);
            let p2 = seed_tour(n, &mut rng);
            let (c1, c2) = cx_crossover(&p1, &p2);
            assert!(is_permutation(&c1, n));
            assert!(is_permutation(&c2, n));
            for t in 0..n {
                assert!(
                    (c1[t] == p1[t] && c2[t] == p2[t]) || (c1[t] == p2[t] && c2[t] == p1[t])
                );
            }
        }
    }
}

#[test]
fn mutation_preserves_permutation() {
    let mut rng = Pcg64::seed_from_u64(33);
    for n in 2..=15usize {
        let mut child = seed_tour(n, &mut rng);
        for _ in 0..10 {
            mutation(&mut rng, &mut child);
            assert!(is_permutation(&child, n));
        }
    }
}
