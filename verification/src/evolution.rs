//! Island-model genetic algorithm.
//!
//! A fixed number of islands evolves independently: tournament selection,
//! then reproduction by PMX or CX crossover with occasional segment-reversal
//! mutation.  Selection and reproduction read only the shared distance matrix
//! and replace one island's population, so the islands are handed to parallel
//! workers with one independently seeded generator each; migration, which
//! moves an individual between two islands, runs single-threaded in between.
//! Every individual always carries the exact recomputed cost of its tour.

use vstd::prelude::*;

use vstd::multiset::Multiset;

use rayon::iter::IndexedParallelIterator;
use rayon::iter::IntoParallelRefMutIterator;
use rayon::iter::ParallelIterator;

use crate::crossover::{cx_crossover, mutation, pmx_crossover};
use crate::matrix::{DistanceMatrix, permutation_weight, tour_cost};
use crate::mst::mst_seed_tour;
use crate::rng::{rand_below, rand_ratio, rand_u64, rng_from_seed};
use crate::tour::{clone_tour, seed_tour, valid_tour};

verus! {

/// Individuals per island.
pub const POPULATION_SIZE: usize = 100;

/// Participants of one selection tournament.
pub const TOURNAMENT_SIZE: usize = 5;

/// Generations between two migration steps.
pub const MIGRATION_INTERVAL: u64 = 100;

/// Hard bound on the number of generations.
pub const MAX_GENERATIONS: u64 = 10000;

/// Generations without improvement after which a run stops.
pub const PATIENCE: u64 = 250;

/// The crossover operator, chosen once per run.
#[derive(Clone, Copy, Debug, PartialEq, Eq, Structural)]
pub enum CrossoverKind {
    /// Partially matched crossover.
    Pmx,
    /// Cycle crossover.
    Cx,
}

/// A tour together with its cost (lower is better).
pub struct Individual {
    pub chromosome: Vec<usize>,
    pub fitness: u64,
}

/// The individual's tour is a permutation and its fitness is the tour's
/// exact cost.
pub open spec fn ind_wf(ind: Individual, m: DistanceMatrix) -> bool {
    &&& valid_tour(ind.chromosome@, m.n())
    &&& ind.fitness == tour_cost(m, ind.chromosome@)
}

/// Every member of the island is well-formed.
pub open spec fn island_wf(isl: Seq<Individual>, m: DistanceMatrix) -> bool {
    forall|k: int| 0 <= k < isl.len() ==> ind_wf(#[trigger] isl[k], m)
}

/// `ind` carries the same tour and fitness as some member of `isl`.
pub open spec fn ind_in(ind: Individual, isl: Seq<Individual>) -> bool {
    exists|p: int|
        0 <= p < isl.len() && (#[trigger] isl[p]).chromosome@ == ind.chromosome@ && isl[p].fitness
            == ind.fitness
}

/// Total number of individuals over all islands.
pub open spec fn total_individuals(islands: Seq<Vec<Individual>>) -> int
    decreases islands.len(),
{
    if islands.len() == 0 {
        0
    } else {
        total_individuals(islands.drop_last()) + islands.last()@.len()
    }
}

/// Removing one island takes exactly its members out of the total.
proof fn lemma_total_remove(islands: Seq<Vec<Individual>>, i: int)
    requires
        0 <= i < islands.len(),
    ensures
        total_individuals(islands.remove(i)) == total_individuals(islands) - islands[i]@.len(),
    decreases islands.len(),
{
    if i == islands.len() - 1 {
        assert(islands.remove(i) =~= islands.drop_last());
    } else {
        assert(islands.remove(i).drop_last() =~= islands.drop_last().remove(i));
        assert(islands.remove(i).last() == islands.last());
        lemma_total_remove(islands.drop_last(), i);
    }
}

/// Inserting one island adds exactly its members to the total.
proof fn lemma_total_insert(islands: Seq<Vec<Individual>>, i: int, island: Vec<Individual>)
    requires
        0 <= i <= islands.len(),
    ensures
        total_individuals(islands.insert(i, island)) == total_individuals(islands)
            + island@.len(),
    decreases islands.len(),
{
    if i == islands.len() {
        assert(islands.insert(i, island).drop_last() =~= islands);
        assert(islands.insert(i, island).last() == island);
    } else {
        assert(islands.insert(i, island).drop_last() =~= islands.drop_last().insert(i, island));
        assert(islands.insert(i, island).last() == islands.last());
        lemma_total_insert(islands.drop_last(), i, island);
    }
}

/// The multiset of all individuals over all islands.
pub open spec fn individuals_multiset(islands: Seq<Vec<Individual>>) -> Multiset<Individual>
    decreases islands.len(),
{
    if islands.len() == 0 {
        Multiset::empty()
    } else {
        individuals_multiset(islands.drop_last()).add(islands.last()@.to_multiset())
    }
}

/// Removing one island takes exactly its members out of the multiset.
proof fn lemma_individuals_remove(islands: Seq<Vec<Individual>>, i: int)
    requires
        0 <= i < islands.len(),
    ensures
        individuals_multiset(islands) == individuals_multiset(islands.remove(i)).add(
            islands[i]@.to_multiset(),
        ),
    decreases islands.len(),
{
    broadcast use vstd::multiset::group_multiset_axioms;

    if i == islands.len() - 1 {
        assert(islands.remove(i) =~= islands.drop_last());
    } else {
        assert(islands.remove(i).drop_last() =~= islands.drop_last().remove(i));
        assert(islands.remove(i).last() == islands.last());
        lemma_individuals_remove(islands.drop_last(), i);
        assert(individuals_multiset(islands) =~= individuals_multiset(islands.remove(i)).add(
            islands[i]@.to_multiset(),
        ));
    }
}

/// Inserting one island adds exactly its members to the multiset.
proof fn lemma_individuals_insert(islands: Seq<Vec<Individual>>, i: int, island: Vec<Individual>)
    requires
        0 <= i <= islands.len(),
    ensures
        individuals_multiset(islands.insert(i, island)) == individuals_multiset(islands).add(
            island@.to_multiset(),
        ),
    decreases islands.len(),
{
    broadcast use vstd::multiset::group_multiset_axioms;

    if i == islands.len() {
        assert(islands.insert(i, island).drop_last() =~= islands);
        assert(islands.insert(i, island).last() == island);
    } else {
        assert(islands.insert(i, island).drop_last() =~= islands.drop_last().insert(i, island));
        assert(islands.insert(i, island).last() == islands.last());
        lemma_individuals_insert(islands.drop_last(), i, island);
        assert(individuals_multiset(islands.insert(i, island)) =~= individuals_multiset(
            islands,
        ).add(island@.to_multiset()));
    }
}

/// Rejected inputs of `Evolution::new`.
#[derive(Clone, Copy, Debug, PartialEq, Eq, Structural)]
pub enum EvolutionError {
    /// No island was asked for.
    NoIslands,
    /// The instance has no points.
    EmptyInstance,
    /// The point count does not match the matrix.
    SizeMismatch,
}

/// One selection or reproduction pass over a single island.
#[derive(Clone, Copy)]
pub enum Phase {
    /// Tournament selection.
    Select,
    /// Crossover and mutation with the given operator.
    Reproduce(CrossoverKind),
}

fn clone_individual(ind: &Individual) -> (r: Individual)
    ensures
        r.chromosome@ == ind.chromosome@,
        r.fitness == ind.fitness,
{
    Individual { chromosome: clone_tour(&ind.chromosome), fitness: ind.fitness }
}

/// Tournament selection: the island is replaced by the winners of
/// `POPULATION_SIZE` independent tournaments of `TOURNAMENT_SIZE` uniformly
/// drawn members (with replacement), each won by its cheapest participant.
/// Every selected individual is a member of the old island.
fn select_island(
    island: &Vec<Individual>,
    rng: &mut rand_pcg::Pcg64,
    adj_matrix: &DistanceMatrix,
) -> (r: Vec<Individual>)
    requires
        adj_matrix.wf(),
        island_wf(island@, *adj_matrix),
        island@.len() >= 1,
    ensures
        r@.len() == POPULATION_SIZE,
        island_wf(r@, *adj_matrix),
        forall|k: int| 0 <= k < r@.len() ==> ind_in(#[trigger] r@[k], island@),
{
    let ghost m = *adj_matrix;
    let mut new_population: Vec<Individual> = Vec::new();
    let mut round: usize = 0;
    while round < POPULATION_SIZE
        invariant
            adj_matrix.wf(),
            m == *adj_matrix,
            island_wf(island@, m),
            island@.len() >= 1,
            round <= POPULATION_SIZE,
            new_population@.len() == round,
            island_wf(new_population@, m),
            forall|k: int|
                0 <= k < new_population@.len() ==> ind_in(#[trigger] new_population@[k], island@),
        decreases POPULATION_SIZE - round,
    {
        let mut best = rand_below(rng, island.len());
        let mut trial: usize = 1;
        while trial < TOURNAMENT_SIZE
            invariant
                island@.len() >= 1,
                best < island@.len(),
            decreases TOURNAMENT_SIZE - trial,
        {
            let challenger = rand_below(rng, island.len());
            if island[challenger].fitness < island[best].fitness {
                best = challenger;
            }
            trial = trial + 1;
        }
        let winner = clone_individual(&island[best]);
        proof {
            assert(island@[best as int].chromosome@ == winner.chromosome@ && island@[
            best as int].fitness == winner.fitness);
            assert(ind_in(winner, island@));
        }
        new_population.push(winner);
        round = round + 1;
    }
    new_population
}

/// Reproduction: `POPULATION_SIZE` children bred from uniformly drawn parent
/// pairs (with replacement) by the chosen crossover, each child mutated with
/// probability one in ten, and each carrying its freshly recomputed cost.
fn reproduce_island(
    island: &Vec<Individual>,
    rng: &mut rand_pcg::Pcg64,
    adj_matrix: &DistanceMatrix,
    kind: CrossoverKind,
) -> (r: Vec<Individual>)
    requires
        adj_matrix.wf(),
        island_wf(island@, *adj_matrix),
        island@.len() >= 1,
    ensures
        r@.len() == POPULATION_SIZE,
        island_wf(r@, *adj_matrix),
{
    let ghost m = *adj_matrix;
    let mut new_population: Vec<Individual> = Vec::new();
    while new_population.len() < POPULATION_SIZE
        invariant
            adj_matrix.wf(),
            m == *adj_matrix,
            island_wf(island@, m),
            island@.len() >= 1,
            new_population@.len() <= POPULATION_SIZE,
            island_wf(new_population@, m),
        decreases POPULATION_SIZE - new_population@.len(),
    {
        let p1 = rand_below(rng, island.len());
        let p2 = rand_below(rng, island.len());
        let parent1 = &island[p1].chromosome;
        let parent2 = &island[p2].chromosome;
        let (mut child1, mut child2) = if parent1.len() < 2 {
            (clone_tour(parent1), clone_tour(parent2))
        } else {
            match kind {
                CrossoverKind::Pmx => pmx_crossover(rng, parent1, parent2),
                CrossoverKind::Cx => cx_crossover(parent1, parent2),
            }
        };
        if rand_ratio(rng, 1, 10) {
            let ghost c0 = child1@;
            mutation(rng, &mut child1);
            proof {
                crate::tour::lemma_same_multiset_valid(c0, child1@, m.n());
            }
        }
        if rand_ratio(rng, 1, 10) {
            let ghost c0 = child2@;
            mutation(rng, &mut child2);
            proof {
                crate::tour::lemma_same_multiset_valid(c0, child2@, m.n());
            }
        }
        let fitness1 = permutation_weight(&child1, adj_matrix);
        let ind1 = Individual { chromosome: child1, fitness: fitness1 };
        new_population.push(ind1);
        if new_population.len() < POPULATION_SIZE {
            let fitness2 = permutation_weight(&child2, adj_matrix);
            let ind2 = Individual { chromosome: child2, fitness: fitness2 };
            new_population.push(ind2);
        }
    }
    new_population
}

/// One phase on one island, as a parallel worker runs it.
fn apply_phase(
    island: &mut Vec<Individual>,
    rng: &mut rand_pcg::Pcg64,
    adj_matrix: &DistanceMatrix,
    phase: Phase,
)
    requires
        adj_matrix.wf(),
        island_wf(old(island)@, *adj_matrix),
        old(island)@.len() >= 1,
    ensures
        final(island)@.len() == POPULATION_SIZE,
        island_wf(final(island)@, *adj_matrix),
{
    match phase {
        Phase::Select => {
            *island = select_island(island, rng, adj_matrix);
        },
        Phase::Reproduce(kind) => {
            *island = reproduce_island(island, rng, adj_matrix, kind);
        },
    }
}

/// Relies on rayon's par_iter_mut / zip / for_each: the verified
/// `apply_phase` is applied to each island with its own generator, the
/// islands being mutated element-wise and independently, with the distance
/// matrix shared read-only.
#[verifier::external_body]
fn par_apply_phase(
    islands: &mut Vec<Vec<Individual>>,
    rngs: &mut Vec<rand_pcg::Pcg64>,
    adj_matrix: &DistanceMatrix,
    phase: Phase,
)
    requires
        adj_matrix.wf(),
        old(islands)@.len() == old(rngs)@.len(),
        forall|i: int|
            0 <= i < old(islands)@.len() ==> island_wf((#[trigger] old(islands)@[i])@, *adj_matrix)
                && old(islands)@[i]@.len() >= 1,
    ensures
        final(islands)@.len() == old(islands)@.len(),
        forall|i: int|
            0 <= i < final(islands)@.len() ==> island_wf((#[trigger] final(islands)@[i])@, *adj_matrix)
                && final(islands)@[i]@.len() == POPULATION_SIZE,
{
    islands.par_iter_mut().zip(rngs.par_iter_mut()).for_each(
        |(island, rng)| apply_phase(island, rng, adj_matrix, phase),
    );
}

/// The island-model engine: the islands, the shared matrix, and the master
/// generator that seeds each worker.
pub struct Evolution {
    pub islands: Vec<Vec<Individual>>,
    pub adj_matrix: DistanceMatrix,
    pub rng: rand_pcg::Pcg64,
}

impl Evolution {
    /// The matrix is well-formed and every island is a non-empty population
    /// of well-formed individuals.
    pub open spec fn wf(self) -> bool {
        &&& self.adj_matrix.wf()
        &&& self.islands@.len() >= 1
        &&& forall|i: int|
            0 <= i < self.islands@.len() ==> island_wf((#[trigger] self.islands@[i])@,
            self.adj_matrix) && self.islands@[i]@.len() >= 1
    }

    /// Builds the initial islands from a given seed tour: each island holds
    /// the seed as its first individual and `POPULATION_SIZE - 1` random
    /// permutations, all fitness-evaluated.  Zero islands, an empty instance,
    /// and a point count that contradicts the matrix are rejected.
    pub fn new_with_seed(
        seed: Vec<usize>,
        island_count: usize,
        point_count: usize,
        adj_matrix: DistanceMatrix,
        rng: rand_pcg::Pcg64,
    ) -> (r: Result<Evolution, EvolutionError>)
        requires
            adj_matrix.wf(),
            valid_tour(seed@, adj_matrix.n()),
        ensures
            r is Ok <==> island_count >= 1 && point_count >= 1 && point_count == adj_matrix.n(),
            r matches Ok(e) ==> e.wf() && e.islands@.len() == island_count && e.adj_matrix
                == adj_matrix && (forall|i: int|
                0 <= i < island_count ==> (#[trigger] e.islands@[i])@.len() == POPULATION_SIZE)
                && (forall|i: int|
                0 <= i < island_count ==> (#[trigger] e.islands@[i])@[0].chromosome@ == seed@
                    && e.islands@[i]@[0].fitness == tour_cost(adj_matrix, seed@)),
    {
        let ghost m = adj_matrix;
        if island_count == 0 {
            return Err(EvolutionError::NoIslands);
        }
        if point_count == 0 {
            return Err(EvolutionError::EmptyInstance);
        }
        if point_count != adj_matrix.len() {
            return Err(EvolutionError::SizeMismatch);
        }
        let mut rng = rng;
        let fitness_seed = permutation_weight(&seed, &adj_matrix);
        let seed_individual = Individual { chromosome: seed, fitness: fitness_seed };
        let mut islands: Vec<Vec<Individual>> = Vec::new();
        let mut i: usize = 0;
        while i < island_count
            invariant
                adj_matrix.wf(),
                m == adj_matrix,
                point_count == m.n(),
                point_count >= 1,
                ind_wf(seed_individual, m),
                i <= island_count,
                islands@.len() == i,
                forall|p: int|
                    0 <= p < i ==> island_wf((#[trigger] islands@[p])@, m) && islands@[p]@.len()
                        == POPULATION_SIZE,
                forall|p: int|
                    0 <= p < i ==> (#[trigger] islands@[p])@[0].chromosome@
                        == seed_individual.chromosome@ && islands@[p]@[0].fitness
                        == seed_individual.fitness,
            decreases island_count - i,
        {
            let mut island: Vec<Individual> = Vec::new();
            island.push(clone_individual(&seed_individual));
            let mut k: usize = 1;
            while k < POPULATION_SIZE
                invariant
                    adj_matrix.wf(),
                    m == adj_matrix,
                    point_count == m.n(),
                    island@.len() == k,
                    1 <= k <= POPULATION_SIZE,
                    island_wf(island@, m),
                    island@[0].chromosome@ == seed_individual.chromosome@,
                    island@[0].fitness == seed_individual.fitness,
                decreases POPULATION_SIZE - k,
            {
                let chromosome = seed_tour(point_count, &mut rng);
                let fitness = permutation_weight(&chromosome, &adj_matrix);
                island.push(Individual { chromosome, fitness });
                k = k + 1;
            }
            islands.push(island);
            i = i + 1;
        }
        Ok(Evolution { islands, adj_matrix, rng })
    }

    /// Builds the initial islands with the MST-derived tour as every
    /// island's first individual (see `new_with_seed`, which pins the seed's
    /// slot) and `POPULATION_SIZE - 1` random permutations.
    pub fn new(
        island_count: usize,
        point_count: usize,
        adj_matrix: DistanceMatrix,
        rng: rand_pcg::Pcg64,
    ) -> (r: Result<Evolution, EvolutionError>)
        requires
            adj_matrix.wf(),
        ensures
            r is Ok <==> island_count >= 1 && point_count >= 1 && point_count == adj_matrix.n(),
            r matches Ok(e) ==> e.wf() && e.islands@.len() == island_count && e.adj_matrix
                == adj_matrix && (forall|i: int|
                0 <= i < island_count ==> (#[trigger] e.islands@[i])@.len() == POPULATION_SIZE)
                && (forall|i: int|
                0 <= i < island_count ==> (#[trigger] e.islands@[i])@[0].chromosome@
                    == e.islands@[0]@[0].chromosome@ && e.islands@[i]@[0].fitness == tour_cost(
                    adj_matrix,
                    e.islands@[i]@[0].chromosome@,
                )),
    {
        if island_count == 0 {
            return Err(EvolutionError::NoIslands);
        }
        if point_count == 0 {
            return Err(EvolutionError::EmptyInstance);
        }
        if point_count != adj_matrix.len() {
            return Err(EvolutionError::SizeMismatch);
        }
        let seed = mst_seed_tour(&adj_matrix);
        Self::new_with_seed(seed, island_count, point_count, adj_matrix, rng)
    }

    /// The cheapest individual over all islands: the returned pair is the
    /// tour and fitness of a member of some island, its cost is the exact
    /// tour cost, and no individual of any island is cheaper -- together,
    /// the returned cost is the minimum fitness over all individuals.
    pub fn extract_best(&self) -> (r: (Vec<usize>, u64))
        requires
            self.wf(),
        ensures
            valid_tour(r.0@, self.adj_matrix.n()),
            r.1 == tour_cost(self.adj_matrix, r.0@),
            forall|i: int, k: int|
                0 <= i < self.islands@.len() && 0 <= k < (#[trigger] self.islands@[i])@.len()
                    ==> r.1 <= (#[trigger] self.islands@[i]@[k]).fitness,
            exists|i: int, k: int|
                0 <= i < self.islands@.len() && 0 <= k < self.islands@[i]@.len() && (
                #[trigger] self.islands@[i]@[k]).chromosome@ == r.0@ && self.islands@[i]@[k].fitness
                    == r.1,
    {
        let ghost m = self.adj_matrix;
        let mut best_i: usize = 0;
        let mut best_k: usize = 0;
        let mut i: usize = 0;
        while i < self.islands.len()
            invariant
                self.wf(),
                m == self.adj_matrix,
                i <= self.islands@.len(),
                best_i < self.islands@.len(),
                best_k < self.islands@[best_i as int]@.len(),
                forall|p: int, k: int|
                    0 <= p < i && 0 <= k < (#[trigger] self.islands@[p])@.len() ==> self.islands@[
                    best_i as int]@[best_k as int].fitness <= (#[trigger] self.islands@[p]@[k]).fitness,
            decreases self.islands@.len() - i,
        {
            let mut k: usize = 0;
            while k < self.islands[i].len()
                invariant
                    self.wf(),
                    m == self.adj_matrix,
                    i < self.islands@.len(),
                    k <= self.islands@[i as int]@.len(),
                    best_i < self.islands@.len(),
                    best_k < self.islands@[best_i as int]@.len(),
                    forall|p: int, q: int|
                        0 <= p < i && 0 <= q < (#[trigger] self.islands@[p])@.len() ==> self.islands@[
                        best_i as int]@[best_k as int].fitness <= (#[trigger] self.islands@[p]@[q]).fitness,
                    forall|q: int|
                        0 <= q < k ==> self.islands@[best_i as int]@[best_k as int].fitness <= (
                        #[trigger] self.islands@[i as int]@[q]).fitness,
                decreases self.islands@[i as int]@.len() - k,
            {
                if self.islands[i][k].fitness < self.islands[best_i][best_k].fitness {
                    best_i = i;
                    best_k = k;
                }
                k = k + 1;
            }
            i = i + 1;
        }
        let best = &self.islands[best_i][best_k];
        proof {
            assert(self.islands@[best_i as int]@[best_k as int].chromosome@ == best.chromosome@
                && self.islands@[best_i as int]@[best_k as int].fitness == best.fitness);
        }
        (clone_tour(&best.chromosome), best.fitness)
    }

    /// One migration sweep: for each island in turn, a random source and
    /// target island are drawn; when they differ and the source can spare an
    /// individual, a random individual moves from source to target.  Island
    /// count and the multiset of all individuals are preserved (individuals
    /// only move) and no island is emptied; sizes may become unequal until
    /// selection and reproduction normalize them again.
    pub fn migration(&mut self)
        requires
            old(self).wf(),
        ensures
            final(self).wf(),
            final(self).islands@.len() == old(self).islands@.len(),
            final(self).adj_matrix == old(self).adj_matrix,
            total_individuals(final(self).islands@) == total_individuals(old(self).islands@),
            individuals_multiset(final(self).islands@) == individuals_multiset(
                old(self).islands@,
            ),
    {
        let ghost m = self.adj_matrix;
        let island_count = self.islands.len();
        let mut round: usize = 0;
        while round < island_count
            invariant
                self.wf(),
                m == self.adj_matrix,
                self.islands@.len() == island_count,
                round <= island_count,
                total_individuals(self.islands@) == total_individuals(old(self).islands@),
                individuals_multiset(self.islands@) == individuals_multiset(old(self).islands@),
            decreases island_count - round,
        {
            let source = rand_below(&mut self.rng, island_count);
            let target = rand_below(&mut self.rng, island_count);
            if source != target && self.islands[source].len() >= 2 {
                let idx = rand_below(&mut self.rng, self.islands[source].len());
                let ghost isl0 = self.islands@;
                let ghost src0 = self.islands@[source as int];
                let mut src_island = self.islands.remove(source);
                proof {
                    lemma_total_remove(isl0, source as int);
                    lemma_individuals_remove(isl0, source as int);
                }
                let individual = src_island.remove(idx);
                proof {
                    assert(ind_wf(individual, m));
                    broadcast use vstd::seq_lib::group_to_multiset_ensures;
                    broadcast use vstd::multiset::group_multiset_axioms;

                    assert(src_island@.to_multiset() == src0@.to_multiset().remove(individual));
                    assert(src0@.to_multiset().count(individual) > 0) by {
                        assert(src0@.contains(individual));
                    }
                }
                self.islands.insert(source, src_island);
                proof {
                    lemma_total_insert(isl0.remove(source as int), source as int, src_island);
                    lemma_individuals_insert(isl0.remove(source as int), source as int, src_island);
                }
                let ghost isl1 = self.islands@;
                let ghost tgt0 = self.islands@[target as int];
                let mut tgt_island = self.islands.remove(target);
                proof {
                    lemma_total_remove(isl1, target as int);
                    lemma_individuals_remove(isl1, target as int);
                }
                tgt_island.push(individual);
                self.islands.insert(target, tgt_island);
                proof {
                    lemma_total_insert(isl1.remove(target as int), target as int, tgt_island);
                    lemma_individuals_insert(isl1.remove(target as int), target as int, tgt_island);
                    broadcast use vstd::seq_lib::group_to_multiset_ensures;
                    broadcast use vstd::multiset::group_multiset_axioms;

                    assert(tgt_island@.to_multiset() == tgt0@.to_multiset().insert(individual));
                    // The moved individual leaves the source's multiset and
                    // enters the target's, so the union is unchanged.
                    assert forall|y: Individual|
                        individuals_multiset(self.islands@).count(y) == individuals_multiset(
                        isl0,
                    ).count(y) by {
                        assert(individuals_multiset(self.islands@).count(y)
                            == individuals_multiset(isl1.remove(target as int)).count(y)
                            + tgt0@.to_multiset().insert(individual).count(y));
                        assert(individuals_multiset(isl1).count(y) == individuals_multiset(
                            isl1.remove(target as int),
                        ).count(y) + tgt0@.to_multiset().count(y));
                        assert(individuals_multiset(isl1).count(y) == individuals_multiset(
                            isl0.remove(source as int),
                        ).count(y) + src0@.to_multiset().remove(individual).count(y));
                        assert(individuals_multiset(isl0).count(y) == individuals_multiset(
                            isl0.remove(source as int),
                        ).count(y) + src0@.to_multiset().count(y));
                    }
                    assert(individuals_multiset(self.islands@) =~= individuals_multiset(isl0));
                }
            }
            round = round + 1;
        }
    }

    /// The generational loop: selection, migration every
    /// `MIGRATION_INTERVAL` generations, reproduction, and best tracking;
    /// it stops after `MAX_GENERATIONS` generations or once `PATIENCE`
    /// generations in a row brought no improvement.  Selection and
    /// reproduction run island-parallel with per-worker generators seeded
    /// from the master generator.
    pub fn run(&mut self, kind: CrossoverKind)
        requires
            old(self).wf(),
        ensures
            final(self).wf(),
            final(self).islands@.len() == old(self).islands@.len(),
            final(self).adj_matrix == old(self).adj_matrix,
            forall|i: int|
                0 <= i < final(self).islands@.len() ==> (#[trigger] final(self).islands@[i])@.len()
                    == POPULATION_SIZE,
    {
        let ghost m = self.adj_matrix;
        let ghost island_count = self.islands@.len();
        let mut generation: u64 = 0;
        let mut no_improvement: u64 = 0;
        let mut curr_best = self.extract_best().1;
        loop
            invariant_except_break
                self.wf(),
                m == self.adj_matrix,
                self.islands@.len() == island_count,
                generation < MAX_GENERATIONS,
                no_improvement < PATIENCE,
            ensures
                self.wf(),
                m == self.adj_matrix,
                self.islands@.len() == island_count,
                forall|i: int|
                    0 <= i < self.islands@.len() ==> (#[trigger] self.islands@[i])@.len()
                        == POPULATION_SIZE,
            decreases MAX_GENERATIONS - generation,
        {
            self.run_phase(Phase::Select);
            if generation % MIGRATION_INTERVAL == 0 {
                self.migration();
            }
            self.run_phase(Phase::Reproduce(kind));
            generation = generation + 1;
            let new_best = self.extract_best().1;
            if new_best < curr_best {
                curr_best = new_best;
                no_improvement = 0;
            } else {
                no_improvement = no_improvement + 1;
            }
            if generation == MAX_GENERATIONS || no_improvement == PATIENCE {
                break ;
            }
        }
    }

    /// Runs one phase over all islands in parallel, with one freshly seeded
    /// generator per island.
    fn run_phase(&mut self, phase: Phase)
        requires
            old(self).wf(),
        ensures
            final(self).wf(),
            final(self).islands@.len() == old(self).islands@.len(),
            final(self).adj_matrix == old(self).adj_matrix,
            forall|i: int|
                0 <= i < final(self).islands@.len() ==> (#[trigger] final(self).islands@[i])@.len()
                    == POPULATION_SIZE,
    {
        let island_count = self.islands.len();
        let mut rngs: Vec<rand_pcg::Pcg64> = Vec::new();
        let mut i: usize = 0;
        while i < island_count
            invariant
                self.wf(),
                self.islands@ == old(self).islands@,
                self.adj_matrix == old(self).adj_matrix,
                island_count == self.islands@.len(),
                rngs@.len() == i,
                i <= island_count,
            decreases island_count - i,
        {
            let seed = rand_u64(&mut self.rng);
            rngs.push(rng_from_seed(seed));
            i = i + 1;
        }
        let adj_matrix = &self.adj_matrix;
        par_apply_phase(&mut self.islands, &mut rngs, adj_matrix, phase);
    }
}

} // verus!
