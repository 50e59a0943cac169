//! Run-level configuration: mutation rates, compatibility-distance weights,
//! elitism and stagnation settings, selection policy and the random seed.
use vstd::prelude::*;
use crate::{FITNESS_LIMIT, PROB_ONE};

verus! {

/// Largest value the compatibility coefficients `c1`, `c2`, `c3` may take.
pub const COEFF_LIMIT: u64 = 1_000_000;

/// Largest number of input or output nodes an initial genome may have.
pub const MAX_IO_NODES: usize = 10_000;

/// How parents are picked inside a species.
#[derive(Clone, Copy, PartialEq, Eq, Structural, Debug)]
pub enum SelectionPolicy {
    FitnessProportionate,
    Tournament,
}

/// Why a configuration was rejected at construction.
#[derive(Clone, Copy, PartialEq, Eq, Structural, Debug)]
pub enum ConfigError {
    /// The population size was zero or above `MAX_POPULATION`.
    BadPopulationSize,
    /// A per-mille probability was above `PROB_ONE`.
    BadProbability,
    /// A compatibility coefficient was above `COEFF_LIMIT`.
    BadCoefficient,
    /// Zero inputs or outputs, or more than `MAX_IO_NODES` of either.
    BadNodeCounts,
    /// The floor fitness for failed evaluations was above `FITNESS_LIMIT`.
    BadFitnessFloor,
}

/// Every tunable of a run. Probabilities are per mille (`0 ..= PROB_ONE`);
/// the compatibility coefficients and threshold use the same fixed-point
/// scale as connection weights.
#[derive(Clone, Copy, PartialEq, Eq, Structural, Debug)]
pub struct Config {
    /// Number of input nodes in an initial genome.
    pub num_inputs: usize,
    /// Number of output nodes in an initial genome.
    pub num_outputs: usize,
    /// Weight of the excess-gene term of the compatibility distance.
    pub c1: u64,
    /// Weight of the disjoint-gene term of the compatibility distance.
    pub c2: u64,
    /// Weight of the average-weight-difference term.
    pub c3: u64,
    /// Two genomes within this distance fall into the same species.
    pub compatibility_threshold: u64,
    /// Chance that an existing weight is nudged during weight mutation.
    pub p_perturb: u64,
    /// Chance that a weight is replaced outright when it was not nudged.
    pub p_replace: u64,
    /// Chance that an offspring gains a new connection.
    pub p_add_connection: u64,
    /// Chance that an offspring gains a new node.
    pub p_add_node: u64,
    /// Chance that a gene disabled in either parent stays disabled.
    pub p_inherit_disabled: u64,
    /// Whether a species' single best member is copied over unchanged:
    /// any value of one or more copies exactly one elite per species.
    pub elitism: usize,
    /// Generations without improvement before a species is purged.
    pub stagnation_limit: u32,
    /// Whether connections that close a cycle may be added.
    pub allow_recurrent: bool,
    /// How parents are picked inside a species.
    pub selection: SelectionPolicy,
    /// Fitness given to a genome whose evaluation failed.
    pub fitness_floor: u64,
    /// Seed of the deterministic random generator.
    pub seed: u64,
}

impl Config {
    /// All bounds that the rest of the library relies on.
    pub open spec fn valid(self) -> bool {
        &&& 1 <= self.num_inputs <= MAX_IO_NODES
        &&& 1 <= self.num_outputs <= MAX_IO_NODES
        &&& self.c1 <= COEFF_LIMIT
        &&& self.c2 <= COEFF_LIMIT
        &&& self.c3 <= COEFF_LIMIT
        &&& self.p_perturb <= PROB_ONE
        &&& self.p_replace <= PROB_ONE
        &&& self.p_add_connection <= PROB_ONE
        &&& self.p_add_node <= PROB_ONE
        &&& self.p_inherit_disabled <= PROB_ONE
        &&& self.fitness_floor <= FITNESS_LIMIT
    }

    /// Conventional defaults; the caller overrides fields as needed.
    pub fn default_for(num_inputs: usize, num_outputs: usize, seed: u64) -> (r: Config)
        ensures
            r.num_inputs == num_inputs,
            r.num_outputs == num_outputs,
            r.seed == seed,
            (1 <= num_inputs <= MAX_IO_NODES && 1 <= num_outputs <= MAX_IO_NODES)
                ==> r.valid(),
    {
        Config {
            num_inputs,
            num_outputs,
            c1: 1000,
            c2: 1000,
            c3: 1,
            compatibility_threshold: 3000,
            p_perturb: 800,
            p_replace: 100,
            p_add_connection: 50,
            p_add_node: 30,
            p_inherit_disabled: 750,
            elitism: 1,
            stagnation_limit: 15,
            allow_recurrent: false,
            selection: SelectionPolicy::Tournament,
            fitness_floor: 0,
            seed,
        }
    }

    /// Turns an evaluator's outcome into the fitness the controller
    /// stores: a failed evaluation gets the configured floor, a reported
    /// value is clamped to `FITNESS_LIMIT`, exactly.
    pub fn settle_fitness(&self, outcome: Option<u64>) -> (r: u64)
        requires
            self.valid(),
        ensures
            r <= FITNESS_LIMIT,
            (match outcome {
                None => r == self.fitness_floor,
                Some(v) => r == if v > FITNESS_LIMIT { FITNESS_LIMIT } else { v },
            }),
    {
        match outcome {
            None => self.fitness_floor,
            Some(v) => if v > FITNESS_LIMIT {
                FITNESS_LIMIT
            } else {
                v
            },
        }
    }

    /// Rejects a configuration exactly when one of its bounds is broken.
    pub fn check(&self) -> (r: Result<(), ConfigError>)
        ensures
            r is Ok <==> self.valid(),
    {
        if self.num_inputs < 1 || self.num_inputs > MAX_IO_NODES
            || self.num_outputs < 1 || self.num_outputs > MAX_IO_NODES {
            return Err(ConfigError::BadNodeCounts);
        }
        if self.c1 > COEFF_LIMIT || self.c2 > COEFF_LIMIT || self.c3 > COEFF_LIMIT {
            return Err(ConfigError::BadCoefficient);
        }
        if self.p_perturb > PROB_ONE || self.p_replace > PROB_ONE
            || self.p_add_connection > PROB_ONE || self.p_add_node > PROB_ONE
            || self.p_inherit_disabled > PROB_ONE {
            return Err(ConfigError::BadProbability);
        }
        if self.fitness_floor > FITNESS_LIMIT {
            return Err(ConfigError::BadFitnessFloor);
        }
        Ok(())
    }
}

} // verus!
