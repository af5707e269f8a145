//! A tour optimization engine for the symmetric travelling salesman problem.
//!
//! The engine works on a square matrix of non-negative integer distances and
//! on tours, permutations of `0..n` understood as closed cycles.  It offers
//! 2-opt local search (exhaustive and sampled), simulated annealing, tabu
//! search and an island-model genetic algorithm, together with the shared
//! move-delta evaluator they are built on.

pub mod annealing;
pub mod crossover;
pub mod evolution;
pub mod matrix;
pub mod moves;
pub mod mst;
pub mod rng;
pub mod search;
pub mod tabu;
pub mod tour;
