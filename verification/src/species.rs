//! Species: clusters of compatible genomes. A species owns none of its
//! members; the controller keeps the membership map (genome index to
//! species index) for the current generation, so replacing the population
//! can never leave dangling membership.
use vstd::prelude::*;
use crate::genome::Genome;

verus! {

/// One species of the registry.
#[derive(Clone, Debug)]
pub struct Species {
    /// The genome new candidates are compared against.
    pub representative: Genome,
    /// Best raw fitness any member ever reached.
    pub best_ever: u64,
    /// Generations since `best_ever` improved.
    pub stale: u32,
    /// Generations this species has existed.
    pub age: u32,
}

} // verus!
