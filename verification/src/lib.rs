//! A NEAT-style neuroevolution core: genomes as node/connection graphs with
//! historical innovation ids, mutation and crossover operators, speciation by
//! a compatibility distance, fitness sharing, and a population controller that
//! advances one generation at a time.
//!
//! All quantities are integers. Connection weights are fixed-point values
//! scaled by `WEIGHT_ONE`; fitness values are non-negative integers capped at
//! `FITNESS_LIMIT`. Randomness comes from a seeded deterministic generator,
//! so a run is reproducible from its seed.
#![verifier::loop_isolation(false)]
use vstd::prelude::*;

pub mod config;
pub mod rng;
pub mod innovation;
pub mod genome;
pub mod species;
pub mod population;

verus! {

/// Fixed-point scale: a connection weight of `WEIGHT_ONE` stands for 1.0.
pub const WEIGHT_ONE: i64 = 1000;

/// Largest magnitude a connection weight may take.
pub const WEIGHT_LIMIT: i64 = 1_000_000;

/// Largest fitness value a genome may carry; evaluations are clamped to it.
pub const FITNESS_LIMIT: u64 = 1_000_000_000;

/// Largest population size the controller accepts.
pub const MAX_POPULATION: usize = 1_000_000;

/// Probabilities are expressed per mille: a value in `0 ..= PROB_ONE`.
pub const PROB_ONE: u64 = 1000;

} // verus!
