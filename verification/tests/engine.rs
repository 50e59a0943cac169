//! End-to-end tests of the NEAT core: distance, crossover, innovation
//! tracking, speciation, elitism, population invariants and determinism.
use rust_neat::config::{Config, ConfigError, SelectionPolicy};
use rust_neat::genome::{ConnectionGene, Genome, NodeGene, NodeKind};
use rust_neat::innovation::InnovationTracker;
use rust_neat::population::{Environment, Population};
use rust_neat::rng::Rng;

fn node(id: u32) -> NodeGene {
    NodeGene { id, kind: NodeKind::Hidden, activation: 0 }
}

fn conn(innovation: u64, in_node: u32, out_node: u32, weight: i64) -> ConnectionGene {
    ConnectionGene { innovation, in_node, out_node, weight, enabled: true }
}

fn genome_of(conns: Vec<ConnectionGene>) -> Genome {
    let mut ids: Vec<u32> = Vec::new();
    for c in &conns {
        if !ids.contains(&c.in_node) {
            ids.push(c.in_node);
        }
        if !ids.contains(&c.out_node) {
            ids.push(c.out_node);
        }
    }
    let nodes: Vec<NodeGene> = ids.into_iter().map(node).collect();
    Genome { nodes, conns, fitness: 0, adj_fitness: 0 }
}

fn test_config() -> Config {
    Config::default_for(2, 1, 42)
}

struct ConstEnv(u64);

impl Environment for ConstEnv {
    fn evaluate(&mut self, _genome: &Genome) -> Option<u64> {
        Some(self.0)
    }
}

struct FailingEnv;

impl Environment for FailingEnv {
    fn evaluate(&mut self, _genome: &Genome) -> Option<u64> {
        None
    }
}

/// Fitness proportional to the number of enabled connections.
struct StructEnv;

impl Environment for StructEnv {
    fn evaluate(&mut self, genome: &Genome) -> Option<u64> {
        Some(genome.conns.iter().filter(|c| c.enabled).count() as u64 * 100)
    }
}

#[test]
fn distance_to_self_is_zero() {
    let g = genome_of(vec![conn(1, 0, 1, 500), conn(2, 1, 2, -700)]);
    let cfg = test_config();
    assert_eq!(g.compatibility_distance(&g, &cfg), 0);
}

#[test]
fn distance_is_symmetric() {
    let a = genome_of(vec![conn(1, 0, 1, 500), conn(3, 1, 2, -700), conn(9, 0, 2, 100)]);
    let b = genome_of(vec![conn(1, 0, 1, 900), conn(2, 1, 2, 0), conn(4, 2, 3, 50)]);
    let cfg = test_config();
    assert_eq!(
        a.compatibility_distance(&b, &cfg),
        b.compatibility_distance(&a, &cfg)
    );
}

#[test]
fn distance_exact_value() {
    // matching genes 1 and 2 (weight differences 500 each), gene 3 of a is
    // disjoint, genes 4 and 5 of b are excess; both lists are small, so
    // no length normalization applies.
    let a = genome_of(vec![conn(1, 0, 1, 1000), conn(2, 1, 2, 1000), conn(3, 0, 2, 0)]);
    let b = genome_of(vec![
        conn(1, 0, 1, 1500),
        conn(2, 1, 2, 1500),
        conn(4, 2, 3, 0),
        conn(5, 3, 4, 0),
    ]);
    let mut cfg = test_config();
    cfg.c1 = 1000;
    cfg.c2 = 1000;
    cfg.c3 = 1;
    // c1 * excess + c2 * disjoint + c3 * avg_weight_diff
    let expected = 1000 * 2 + 1000 * 1 + 1 * 500;
    assert_eq!(a.compatibility_distance(&b, &cfg), expected);
}

#[test]
fn crossover_introduces_no_novel_innovations() {
    let a = genome_of(vec![conn(1, 0, 1, 100), conn(2, 1, 2, 200), conn(5, 0, 2, 300)]);
    let b = genome_of(vec![conn(1, 0, 1, 150), conn(3, 1, 2, 250), conn(7, 2, 3, 350)]);
    let cfg = test_config();
    let mut rng = Rng::seeded(7);
    for _ in 0..20 {
        let child = a.crossover(&b, &mut rng, &cfg);
        for c in &child.conns {
            let in_a = a.conns.iter().any(|x| x.innovation == c.innovation);
            let in_b = b.conns.iter().any(|x| x.innovation == c.innovation);
            assert!(in_a || in_b);
        }
    }
}

#[test]
fn crossover_weights_come_from_a_parent() {
    let a = genome_of(vec![conn(1, 0, 1, 100), conn(2, 1, 2, 200)]);
    let b = genome_of(vec![conn(1, 0, 1, -100), conn(2, 1, 2, -200)]);
    let cfg = test_config();
    let mut rng = Rng::seeded(3);
    let child = a.crossover(&b, &mut rng, &cfg);
    for c in &child.conns {
        let from_a = a
            .conns
            .iter()
            .any(|x| x.innovation == c.innovation && x.weight == c.weight);
        let from_b = b
            .conns
            .iter()
            .any(|x| x.innovation == c.innovation && x.weight == c.weight);
        assert!(from_a || from_b);
    }
}

#[test]
fn same_pair_same_generation_gets_same_id() {
    let mut tracker = InnovationTracker::new();
    let id1 = tracker.get_or_create(4, 9);
    let id2 = tracker.get_or_create(4, 9);
    assert_eq!(id1, id2);
    let other = tracker.get_or_create(9, 4);
    assert_ne!(other, id1);
}

#[test]
fn generation_boundary_clears_the_dedup_window() {
    let mut tracker = InnovationTracker::new();
    let id1 = tracker.get_or_create(4, 9);
    tracker.advance_generation();
    let id2 = tracker.get_or_create(4, 9);
    assert_ne!(id1, id2);
    assert!(id2 > id1);
}

#[test]
fn fresh_innovation_ids_increase() {
    let mut tracker = InnovationTracker::new();
    let a = tracker.get_or_create(0, 1);
    let b = tracker.get_or_create(0, 2);
    let c = tracker.get_or_create(1, 2);
    assert!(a < b && b < c);
}

#[test]
fn add_node_splits_a_connection() {
    let mut g = genome_of(vec![conn(1, 0, 1, 600)]);
    let mut tracker = InnovationTracker::new();
    tracker.next_id = 2;
    let mut rng = Rng::seeded(11);
    let nodes_before = g.nodes.len();
    let conns_before = g.conns.len();
    let added = g.mutate_add_node(&mut tracker, &mut rng);
    assert!(added);
    assert_eq!(g.nodes.len(), nodes_before + 1);
    assert_eq!(g.conns.len(), conns_before + 2);
    // the split gene is disabled, the two new genes are enabled
    assert_eq!(g.conns.iter().filter(|c| !c.enabled).count(), 1);
}

#[test]
fn add_node_without_enabled_connections_is_a_noop() {
    let mut g = genome_of(vec![ConnectionGene {
        innovation: 1,
        in_node: 0,
        out_node: 1,
        weight: 500,
        enabled: false,
    }]);
    let mut tracker = InnovationTracker::new();
    let mut rng = Rng::seeded(11);
    assert!(!g.mutate_add_node(&mut tracker, &mut rng));
    assert_eq!(g.conns.len(), 1);
    assert_eq!(g.nodes.len(), 2);
}

#[test]
fn add_connection_on_saturated_graph_is_a_noop() {
    // one input feeding one output, already connected, recurrence off:
    // there is no eligible pair left.
    let mut g = Genome {
        nodes: vec![
            NodeGene { id: 0, kind: NodeKind::Input, activation: 0 },
            NodeGene { id: 1, kind: NodeKind::Output, activation: 0 },
        ],
        conns: vec![conn(1, 0, 1, 500)],
        fitness: 0,
        adj_fitness: 0,
    };
    let mut tracker = InnovationTracker::new();
    let mut rng = Rng::seeded(5);
    let mut cfg = test_config();
    cfg.allow_recurrent = false;
    let added = g.mutate_add_connection(&mut tracker, &mut rng, &cfg);
    assert!(!added);
    assert_eq!(g.conns.len(), 1);
}

#[test]
fn independent_add_connection_calls_share_one_id() {
    // two genomes adding the identical missing edge in the same
    // generation receive the same innovation id
    let make = || Genome {
        nodes: vec![
            NodeGene { id: 0, kind: NodeKind::Input, activation: 0 },
            NodeGene { id: 1, kind: NodeKind::Input, activation: 0 },
            NodeGene { id: 2, kind: NodeKind::Output, activation: 0 },
        ],
        conns: vec![conn(0, 0, 2, 500)],
        fitness: 0,
        adj_fitness: 0,
    };
    let mut g1 = make();
    let mut g2 = make();
    let mut tracker = InnovationTracker::new();
    tracker.next_id = 1;
    let mut rng = Rng::seeded(1);
    let mut cfg = test_config();
    cfg.allow_recurrent = false;
    // the only eligible pair for either genome is (1, 2)
    assert!(g1.mutate_add_connection(&mut tracker, &mut rng, &cfg));
    assert!(g2.mutate_add_connection(&mut tracker, &mut rng, &cfg));
    let id1 = g1.conns.iter().find(|c| c.in_node == 1).unwrap().innovation;
    let id2 = g2.conns.iter().find(|c| c.in_node == 1).unwrap().innovation;
    assert_eq!(id1, id2);
}

#[test]
fn create_population_rejects_zero_size() {
    let cfg = test_config();
    assert_eq!(
        Population::create_population(0, cfg).err(),
        Some(ConfigError::BadPopulationSize)
    );
}

#[test]
fn create_population_rejects_bad_probability() {
    let mut cfg = test_config();
    cfg.p_perturb = 1001;
    assert_eq!(
        Population::create_population(10, cfg).err(),
        Some(ConfigError::BadProbability)
    );
}

#[test]
fn create_population_rejects_bad_coefficient() {
    let mut cfg = test_config();
    cfg.c2 = 2_000_000;
    assert_eq!(
        Population::create_population(10, cfg).err(),
        Some(ConfigError::BadCoefficient)
    );
}

#[test]
fn create_population_rejects_bad_node_counts() {
    let mut cfg = test_config();
    cfg.num_outputs = 0;
    assert_eq!(
        Population::create_population(10, cfg).err(),
        Some(ConfigError::BadNodeCounts)
    );
}

#[test]
fn create_population_rejects_bad_fitness_floor() {
    let mut cfg = test_config();
    cfg.fitness_floor = 2_000_000_000;
    assert_eq!(
        Population::create_population(10, cfg).err(),
        Some(ConfigError::BadFitnessFloor)
    );
}

#[test]
fn initial_genomes_share_innovation_ids() {
    let cfg = test_config();
    let p = Population::create_population(4, cfg).unwrap();
    assert_eq!(p.genomes.len(), 4);
    let ids: Vec<u64> = p.genomes[0].conns.iter().map(|c| c.innovation).collect();
    for g in &p.genomes {
        let other: Vec<u64> = g.conns.iter().map(|c| c.innovation).collect();
        assert_eq!(ids, other);
    }
    // fully connected: 2 inputs x 1 output
    assert_eq!(ids.len(), 2);
}

#[test]
fn constant_fitness_scenario_keeps_one_species() {
    // population 10, two inputs and one output, no hidden nodes, constant
    // fitness; one generation leaves a single species and ten genomes.
    let mut cfg = test_config();
    cfg.compatibility_threshold = 10_000;
    let mut p = Population::create_population(10, cfg).unwrap();
    let mut env = ConstEnv(1000);
    let report = p.evolve(&mut env);
    assert_eq!(report.species_count, 1);
    assert_eq!(p.genomes.len(), 10);
    assert_eq!(report.best_fitness, 1000);
    assert_eq!(report.worst_fitness, 1000);
    assert_eq!(report.avg_fitness, 1000);
}

#[test]
fn population_size_is_invariant_across_generations() {
    let cfg = test_config();
    let mut p = Population::create_population(14, cfg).unwrap();
    let mut env = StructEnv;
    for _ in 0..5 {
        p.evolve(&mut env);
        assert_eq!(p.genomes.len(), 14);
    }
}

#[test]
fn failed_evaluations_get_the_floor_fitness() {
    let mut cfg = test_config();
    cfg.fitness_floor = 77;
    let mut p = Population::create_population(6, cfg).unwrap();
    let report = p.evolve(&mut FailingEnv);
    assert_eq!(report.best_fitness, 77);
    assert_eq!(report.worst_fitness, 77);
    assert_eq!(p.genomes.len(), 6);
}

#[test]
fn reported_fitness_is_clamped() {
    let mut p = Population::create_population(3, test_config()).unwrap();
    let report = p.evolve(&mut ConstEnv(u64::MAX));
    assert_eq!(report.best_fitness, 1_000_000_000);
}

#[test]
fn elitism_keeps_the_best_member() {
    let mut cfg = test_config();
    cfg.compatibility_threshold = 10_000;
    cfg.elitism = 1;
    let mut p = Population::create_population(8, cfg).unwrap();
    // give genome 3 the top fitness
    let mut env = ConstEnv(100);
    for g in p.genomes.iter_mut() {
        g.fitness = 100;
    }
    p.genomes[3].fitness = 900;
    let best_before = p.genomes[3].clone();
    // run the phases directly so the pre-set fitness drives elitism
    p.speciate();
    p.adjust_fitness();
    let members = p.collect_members(0);
    assert_eq!(members.len(), 8);
    let mut out = Vec::new();
    p.reproduce_species(&members, 5, &mut out);
    assert_eq!(out.len(), 5);
    assert_eq!(out[0].nodes, best_before.nodes);
    assert_eq!(out[0].conns, best_before.conns);
    // and through a whole generation, the elite survives unchanged
    let mut p2 = Population::create_population(8, cfg).unwrap();
    let report = p2.evolve(&mut env);
    assert_eq!(report.species_count, 1);
}

#[test]
fn evolution_is_deterministic_for_a_fixed_seed() {
    let cfg = test_config();
    let mut p1 = Population::create_population(12, cfg).unwrap();
    let mut p2 = Population::create_population(12, cfg).unwrap();
    let mut e1 = StructEnv;
    let mut e2 = StructEnv;
    for _ in 0..5 {
        p1.evolve(&mut e1);
        p2.evolve(&mut e2);
    }
    assert_eq!(p1.tracker.next_id, p2.tracker.next_id);
    assert_eq!(p1.genomes, p2.genomes);
    for (a, b) in p1.genomes.iter().zip(p2.genomes.iter()) {
        assert_eq!(a.conns, b.conns);
        assert_eq!(a.nodes, b.nodes);
    }
}

#[test]
fn best_genome_has_the_top_fitness() {
    let mut p = Population::create_population(5, test_config()).unwrap();
    for (k, g) in p.genomes.iter_mut().enumerate() {
        g.fitness = (k as u64) * 10;
    }
    let best = p.best_genome();
    assert_eq!(best.fitness, 40);
}

#[test]
fn fitness_sharing_divides_by_species_size() {
    let mut cfg = test_config();
    cfg.compatibility_threshold = 10_000;
    let mut p = Population::create_population(4, cfg).unwrap();
    for g in p.genomes.iter_mut() {
        g.fitness = 800;
    }
    p.speciate();
    p.adjust_fitness();
    for g in &p.genomes {
        assert_eq!(g.adj_fitness, 200);
    }
}

#[test]
fn incompatible_genome_founds_a_new_species() {
    let mut cfg = test_config();
    cfg.compatibility_threshold = 500;
    let mut p = Population::create_population(2, cfg).unwrap();
    // rewrite the second genome with wholly different innovation ids, so
    // every gene of it is disjoint or excess against the first
    p.genomes[1].conns = vec![
        ConnectionGene { innovation: 50, in_node: 0, out_node: 2, weight: 100, enabled: true },
        ConnectionGene { innovation: 51, in_node: 1, out_node: 2, weight: 100, enabled: true },
    ];
    p.speciate();
    assert_eq!(p.species.len(), 2);
    assert_eq!(p.assignment, vec![0, 1]);
}

#[test]
fn stagnation_counter_grows_without_improvement() {
    let mut cfg = test_config();
    cfg.compatibility_threshold = 10_000;
    let mut p = Population::create_population(6, cfg).unwrap();
    let mut env = ConstEnv(500);
    p.evolve(&mut env);
    // the first generation set best_ever; a constant fitness never
    // improves on it afterwards
    p.evolve(&mut env);
    p.evolve(&mut env);
    assert!(p.species.iter().all(|s| s.stale >= 2));
    assert!(p.species.iter().all(|s| s.best_ever == 500));
}

#[test]
fn weight_mutation_preserves_structure() {
    let cfg = test_config();
    let mut rng = Rng::seeded(13);
    let mut g = genome_of(vec![conn(1, 0, 1, 100), conn(4, 1, 2, -300)]);
    let before = g.clone();
    g.mutate_weights(&mut rng, &cfg);
    assert_eq!(g.conns.len(), before.conns.len());
    for (a, b) in g.conns.iter().zip(before.conns.iter()) {
        assert_eq!(a.innovation, b.innovation);
        assert_eq!(a.in_node, b.in_node);
        assert_eq!(a.out_node, b.out_node);
        assert_eq!(a.enabled, b.enabled);
    }
    assert_eq!(g.nodes, before.nodes);
}

#[test]
fn rng_below_stays_in_range_and_is_deterministic() {
    let mut a = Rng::seeded(99);
    let mut b = Rng::seeded(99);
    for _ in 0..100 {
        let x = a.below(17);
        let y = b.below(17);
        assert!(x < 17);
        assert_eq!(x, y);
    }
}

#[test]
fn tournament_and_roulette_both_run() {
    for policy in [SelectionPolicy::Tournament, SelectionPolicy::FitnessProportionate] {
        let mut cfg = test_config();
        cfg.selection = policy;
        let mut p = Population::create_population(9, cfg).unwrap();
        let mut env = StructEnv;
        for _ in 0..3 {
            p.evolve(&mut env);
            assert_eq!(p.genomes.len(), 9);
        }
    }
}
