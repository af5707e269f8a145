//! The benchmark-style runs of the original drivers, on in-memory instances:
//! MST-seeded and random-seeded local search, the sampled variant, and the
//! simulated-annealing and tabu-search entry points.

use rand::prelude::SliceRandom;
use rand::Rng;
use rand::SeedableRng;
use rand_pcg::Pcg64;

use tsp_engine::matrix::{permutation_weight, DistanceMatrix};
use tsp_engine::mst::{dfs_from_point, parent_to_adj_list, prim};
use tsp_engine::search::{faster_local_search, local_search};
use tsp_engine::tabu::tabu_search;
use tsp_engine::annealing::simulated_annealing;
use tsp_engine::tour::is_permutation;

type Point = (f32, f32);

fn instances() -> Vec<Vec<Point>> {
    vec![
        vec![(0.0, 0.0), (10.0, 2.0), (7.0, 9.0), (2.0, 11.0), (14.0, 8.0), (5.0, 4.0)],
        vec![
            (1.0, 1.0),
            (20.0, 3.0),
            (14.0, 17.0),
            (3.0, 12.0),
            (9.0, 9.0),
            (18.0, 12.0),
            (6.0, 20.0),
            (12.0, 1.0),
        ],
        vec![
            (2.0, 2.0),
            (30.0, 4.0),
            (25.0, 21.0),
            (4.0, 18.0),
            (16.0, 11.0),
            (27.0, 16.0),
            (8.0, 28.0),
            (19.0, 2.0),
            (11.0, 24.0),
            (23.0, 9.0),
        ],
    ]
}

fn points_to_matrix(points: &[Point]) -> DistanceMatrix {
    let n = points.len();
    let mut d = vec![vec![0u64; n]; n];
    for i in 0..n {
        for j in i..n {
            if j != i {
                let p1 = points[i];
                let p2 = points[j];
                let dist =
                    (((p1.0 - p2.0).powi(2) + (p1.1 - p2.1).powi(2)).sqrt()).round() as u64;
                d[i][j] = dist;
                d[j][i] = dist;
            }
        }
    }
    DistanceMatrix::new(d).unwrap()
}

#[test]
fn first_task_test() {
    let mut rng = Pcg64::seed_from_u64(11);
    for points in instances() {
        let point_count = points.len();
        let adj_matrix = points_to_matrix(&points);
        let parent = prim(&adj_matrix, point_count);
        let mst = parent_to_adj_list(&parent);
        let mut dfs_min = u64::MAX;
        let mut dfs_mean = 0u64;
        let mut dfs_steps = 0u64;
        for _ in 0..((point_count as f32).sqrt() as usize) {
            let start = rng.gen_range(0..point_count);
            let permutation = dfs_from_point(&mst, start);
            assert!(is_permutation(&permutation, point_count));
            assert_eq!(permutation[0], start);
            let (p, counter, w) = local_search(permutation, &adj_matrix);
            assert!(is_permutation(&p, point_count));
            assert_eq!(w, permutation_weight(&p, &adj_matrix));
            dfs_mean += w;
            dfs_steps += counter;
            if dfs_min > w {
                dfs_min = w;
            }
        }
        let dfs_mean = dfs_mean as f64 / (point_count as f64).sqrt();
        let dfs_steps = dfs_steps as f64 / (point_count as f64).sqrt();
        println!("{dfs_min}, {dfs_mean}, {dfs_steps}");
    }
}

#[test]
fn second_task_test() {
    let mut rng = Pcg64::seed_from_u64(12);
    for points in instances() {
        let point_count = points.len();
        let adj_matrix = points_to_matrix(&points);
        let mut random_min = u64::MAX;
        let mut random_mean = 0u64;
        let mut permutation: Vec<usize> = (0..point_count).collect();
        let mut random_steps = 0u64;
        for _ in 0..point_count {
            permutation.shuffle(&mut rng);
            let (p, counter, w) = local_search(permutation.clone(), &adj_matrix);
            assert!(is_permutation(&p, point_count));
            assert_eq!(w, permutation_weight(&p, &adj_matrix));
            random_steps += counter;
            random_mean += w;
            if random_min > w {
                random_min = w;
            }
        }
        let random_mean = random_mean as f64 / point_count as f64;
        let random_steps = random_steps as f64 / point_count as f64;
        println!("{random_min}, {random_mean}, {random_steps}");
    }
}

#[test]
fn third_task_test() {
    let mut rng = Pcg64::seed_from_u64(13);
    for points in instances() {
        let point_count = points.len();
        let adj_matrix = points_to_matrix(&points);
        let mut random_min = u64::MAX;
        let mut random_mean = 0u64;
        let mut permutation: Vec<usize> = (0..point_count).collect();
        let mut random_steps = 0u64;
        for _ in 0..point_count {
            permutation.shuffle(&mut rng);
            let (p, counter, w) = faster_local_search(permutation.clone(), &adj_matrix, &mut rng);
            assert!(is_permutation(&p, point_count));
            assert_eq!(w, permutation_weight(&p, &adj_matrix));
            random_steps += counter;
            random_mean += w;
            if random_min > w {
                random_min = w;
            }
        }
        let random_mean = random_mean as f64 / point_count as f64;
        let random_steps = random_steps as f64 / point_count as f64;
        println!("{random_min}, {random_mean}, {random_steps}");
    }
}

#[test]
fn lib_sa_test() {
    let mut rng = Pcg64::seed_from_u64(14);
    for points in instances() {
        let point_count = points.len();
        let adj_matrix = points_to_matrix(&points);
        let sa = simulated_annealing(&adj_matrix, point_count, 1000, &mut rng);
        assert!(is_permutation(&sa.0, point_count));
        assert_eq!(sa.1, permutation_weight(&sa.0, &adj_matrix));
    }
}

#[test]
fn lib_ts_test() {
    let mut rng = Pcg64::seed_from_u64(15);
    for points in instances() {
        let l = points.len();
        let adj_matrix = points_to_matrix(&points);
        let x = tabu_search(&adj_matrix, l, &mut rng);
        assert!(is_permutation(&x.0, l));
        assert_eq!(x.1, permutation_weight(&x.0, &adj_matrix));
    }
}

#[test]
fn main_sa_test() {
    let mut rng = Pcg64::seed_from_u64(16);
    for points in instances() {
        let point_count = points.len();
        let adj_matrix = points_to_matrix(&points);
        let sa = simulated_annealing(&adj_matrix, point_count, 10000, &mut rng);
        assert!(is_permutation(&sa.0, point_count));
        assert_eq!(sa.1, permutation_weight(&sa.0, &adj_matrix));
        println!("SA: {:?}", sa.1);
    }
}

#[test]
fn main_ts_test() {
    let mut rng = Pcg64::seed_from_u64(17);
    for points in instances() {
        let point_count = points.len();
        let adj_matrix = points_to_matrix(&points);
        let ts = tabu_search(&adj_matrix, point_count, &mut rng);
        assert!(is_permutation(&ts.0, point_count));
        assert_eq!(ts.1, permutation_weight(&ts.0, &adj_matrix));
    }
}
