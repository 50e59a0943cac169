//! The population controller: owns the genomes, the species registry, the
//! innovation tracker and the random generator, and advances one generation
//! per call.
use vstd::prelude::*;
use crate::{FITNESS_LIMIT, MAX_POPULATION, PROB_ONE};
use crate::config::{Config, ConfigError};
use crate::genome::{ConnectionGene, Genome, NodeGene, NodeKind, randomize_weights};
use crate::innovation::{
    InnovationTracker, InnovationRecord, entries_extended, entry_with_id,
    lemma_entries_extended_trans, lemma_entry_with_id_extended,
};
use crate::rng::Rng;
use crate::species::Species;

verus! {

/// The caller-supplied fitness evaluator. `None` reports a failed
/// evaluation; the controller substitutes the configured floor fitness and
/// clamps any reported value to `FITNESS_LIMIT`.
pub trait Environment {
    fn evaluate(&mut self, genome: &Genome) -> Option<u64>;
}

/// Counts reported after one generation.
#[derive(Clone, Copy, PartialEq, Eq, Structural, Debug)]
pub struct GenerationReport {
    /// Number of the generation that was just completed.
    pub generation: u64,
    /// Species in the registry after this generation.
    pub species_count: usize,
    /// Highest raw fitness seen during this generation's evaluation.
    pub best_fitness: u64,
    /// Mean raw fitness (integer division) of this generation.
    pub avg_fitness: u64,
    /// Lowest raw fitness seen during this generation's evaluation.
    pub worst_fitness: u64,
    /// Species whose stagnation counter reached the configured limit.
    pub stagnant_species: usize,
}

/// Two genomes with the same gene set: same nodes, same connections with
/// the same weights and flags.
pub open spec fn same_structure(a: Genome, b: Genome) -> bool {
    a.nodes@ == b.nodes@ && a.conns@ == b.conns@
}

/// `b` points at a member of `members` whose shared fitness no other
/// member exceeds.
pub open spec fn is_best_member(members: Seq<usize>, genomes: Seq<Genome>, b: int) -> bool {
    &&& 0 <= b < members.len()
    &&& forall|t: int| 0 <= t < members.len()
        ==> genomes[(#[trigger] members[t]) as int].adj_fitness
            <= genomes[members[b] as int].adj_fitness
}

/// How many genomes the assignment map places in species `s`.
pub open spec fn count_assigned(a: Seq<usize>, s: int) -> int
    decreases a.len(),
{
    if a.len() == 0 {
        0
    } else {
        (if a[0] as int == s { 1int } else { 0int }) + count_assigned(a.skip(1), s)
    }
}

/// Appending one entry raises exactly that species' count by one.
proof fn lemma_count_assigned_push(a: Seq<usize>, v: usize, s: int)
    ensures
        count_assigned(a.push(v), s)
            == count_assigned(a, s) + (if v as int == s { 1int } else { 0int }),
    decreases a.len(),
{
    if a.len() == 0 {
        assert(a.push(v)[0] == v);
        assert(a.push(v).skip(1) =~= Seq::<usize>::empty());
        assert(count_assigned(Seq::<usize>::empty(), s) == 0);
    } else {
        assert(a.push(v)[0] == a[0]);
        assert(a.push(v).skip(1) =~= a.skip(1).push(v));
        lemma_count_assigned_push(a.skip(1), v, s);
    }
}

/// A count is never negative and never exceeds the map's length.
proof fn lemma_count_assigned_bounds(a: Seq<usize>, s: int)
    ensures
        0 <= count_assigned(a, s) <= a.len(),
    decreases a.len(),
{
    if a.len() > 0 {
        lemma_count_assigned_bounds(a.skip(1), s);
    }
}

/// Each assigned genome contributes to its own species' count.
proof fn lemma_count_assigned_member(a: Seq<usize>, i: int)
    requires
        0 <= i < a.len(),
    ensures
        count_assigned(a, a[i] as int) >= 1,
    decreases a.len(),
{
    lemma_count_assigned_bounds(a.skip(1), a[i] as int);
    if i > 0 {
        assert(a.skip(1)[i - 1] == a[i]);
        lemma_count_assigned_member(a.skip(1), i - 1);
    }
}

/// Total offspring slots of an allocation.
pub open spec fn sum_alloc(a: Seq<usize>) -> int
    decreases a.len(),
{
    if a.len() == 0 {
        0
    } else {
        a[0] + sum_alloc(a.skip(1))
    }
}

/// Appending a slot count adds it to the total.
proof fn lemma_sum_alloc_push(a: Seq<usize>, v: usize)
    ensures
        sum_alloc(a.push(v)) == sum_alloc(a) + v,
    decreases a.len(),
{
    if a.len() == 0 {
        assert(a.push(v)[0] == v);
        assert(a.push(v).skip(1) =~= Seq::<usize>::empty());
        assert(sum_alloc(Seq::<usize>::empty()) == 0);
    } else {
        assert(a.push(v)[0] == a[0]);
        assert(a.push(v).skip(1) =~= a.skip(1).push(v));
        lemma_sum_alloc_push(a.skip(1), v);
    }
}

/// Replacing one slot count moves the total by the difference.
proof fn lemma_sum_alloc_update(a: Seq<usize>, k: int, v: usize)
    requires
        0 <= k < a.len(),
    ensures
        sum_alloc(a.update(k, v)) == sum_alloc(a) - a[k] + v,
    decreases a.len(),
{
    if k == 0 {
        assert(a.update(0, v)[0] == v);
        assert(a.update(0, v).skip(1) =~= a.skip(1));
    } else {
        assert(a.update(k, v)[0] == a[0]);
        assert(a.update(k, v).skip(1) =~= a.skip(1).update(k - 1, v));
        lemma_sum_alloc_update(a.skip(1), k - 1, v);
    }
}

/// Every slot count is at most the total.
proof fn lemma_sum_alloc_element(a: Seq<usize>, k: int)
    requires
        0 <= k < a.len(),
    ensures
        a[k] <= sum_alloc(a),
        sum_alloc(a) >= 0,
    decreases a.len(),
{
    lemma_sum_alloc_nonneg(a.skip(1));
    if k > 0 {
        assert(a.skip(1)[k - 1] == a[k]);
        lemma_sum_alloc_element(a.skip(1), k - 1);
    }
}

/// Slot counts are never negative, so neither is the total.
proof fn lemma_sum_alloc_nonneg(a: Seq<usize>)
    ensures
        sum_alloc(a) >= 0,
    decreases a.len(),
{
    if a.len() > 0 {
        lemma_sum_alloc_nonneg(a.skip(1));
    }
}

/// A prefix and the matching suffix account for the whole total.
proof fn lemma_sum_alloc_split(a: Seq<usize>, k: int)
    requires
        0 <= k <= a.len(),
    ensures
        sum_alloc(a) == sum_alloc(a.take(k)) + sum_alloc(a.skip(k)),
    decreases k,
{
    if k == 0 {
        assert(a.take(0) =~= Seq::<usize>::empty());
        assert(a.skip(0) =~= a);
        assert(sum_alloc(Seq::<usize>::empty()) == 0);
    } else {
        lemma_sum_alloc_split(a, k - 1);
        assert(a.take(k) =~= a.take(k - 1).push(a[k - 1]));
        lemma_sum_alloc_push(a.take(k - 1), a[k - 1]);
        assert(a.skip(k - 1)[0] == a[k - 1]);
        assert(a.skip(k - 1).skip(1) =~= a.skip(k));
        assert(sum_alloc(a.skip(k - 1)) == a[k - 1] + sum_alloc(a.skip(k)));
    }
}

/// An all-zero allocation has total zero.
proof fn lemma_sum_alloc_zero(a: Seq<usize>)
    requires
        forall|t: int| 0 <= t < a.len() ==> (#[trigger] a[t]) == 0,
    ensures
        sum_alloc(a) == 0,
    decreases a.len(),
{
    if a.len() > 0 {
        assert(a[0] == 0);
        assert(forall|t: int| 0 <= t < a.skip(1).len() ==> (#[trigger] a.skip(1)[t]) == a[t + 1]);
        lemma_sum_alloc_zero(a.skip(1));
    }
}

/// Some genome of the population carries a gene with this innovation id.
pub open spec fn id_in_pop(pop: Seq<Genome>, id: u64) -> bool {
    exists|j: int| 0 <= j < pop.len() && (#[trigger] pop[j]).spec_has_innovation(id)
}

/// Every gene of the genome is inherited from the population or was issued
/// inside the tracker's current generation window.
pub open spec fn genes_known(g: Genome, pop: Seq<Genome>, entries: Seq<InnovationRecord>) -> bool {
    forall|k: int| 0 <= k < g.conns@.len()
        ==> id_in_pop(pop, (#[trigger] g.conns@[k]).innovation)
            || entry_with_id(entries, g.conns@[k].innovation)
}

/// Gene provenance survives the tracker's growth within one window.
proof fn lemma_genes_known_extended(
    g: Genome,
    pop: Seq<Genome>,
    pre: InnovationTracker,
    post: InnovationTracker,
)
    requires
        genes_known(g, pop, pre.entries@),
        entries_extended(pre, post),
    ensures
        genes_known(g, pop, post.entries@),
{
    assert forall|k: int| 0 <= k < g.conns@.len()
        implies id_in_pop(pop, (#[trigger] g.conns@[k]).innovation)
            || entry_with_id(post.entries@, g.conns@[k].innovation) by {
        if !id_in_pop(pop, g.conns@[k].innovation) {
            lemma_entry_with_id_extended(pre, post, g.conns@[k].innovation);
        }
    }
}

/// A mutation step preserves gene provenance: each resulting gene either
/// keeps an id the genome already had, or carries one recorded in the
/// (possibly grown) window.
proof fn lemma_genes_known_step(
    pre_g: Genome,
    post_g: Genome,
    pop: Seq<Genome>,
    pre_t: InnovationTracker,
    post_t: InnovationTracker,
)
    requires
        genes_known(pre_g, pop, pre_t.entries@),
        entries_extended(pre_t, post_t),
        forall|k: int| 0 <= k < post_g.conns@.len()
            ==> pre_g.spec_has_innovation((#[trigger] post_g.conns@[k]).innovation)
                || entry_with_id(post_t.entries@, post_g.conns@[k].innovation),
    ensures
        genes_known(post_g, pop, post_t.entries@),
{
    assert forall|k: int| 0 <= k < post_g.conns@.len()
        implies id_in_pop(pop, (#[trigger] post_g.conns@[k]).innovation)
            || entry_with_id(post_t.entries@, post_g.conns@[k].innovation) by {
        let id = post_g.conns@[k].innovation;
        if !entry_with_id(post_t.entries@, id) {
            assert(pre_g.spec_has_innovation(id));
            let m = choose|m: int| 0 <= m < pre_g.conns@.len()
                && (#[trigger] pre_g.conns@[m]).innovation == id;
            assert(id_in_pop(pop, pre_g.conns@[m].innovation)
                || entry_with_id(pre_t.entries@, pre_g.conns@[m].innovation));
            if !id_in_pop(pop, id) {
                lemma_entry_with_id_extended(pre_t, post_t, id);
            }
        }
    }
}

/// Total shared fitness of the first `t` members.
pub open spec fn adj_prefix(members: Seq<usize>, genomes: Seq<Genome>, t: int) -> int
    decreases t,
{
    if t <= 0 {
        0
    } else {
        adj_prefix(members, genomes, t - 1) + genomes[members[t - 1] as int].adj_fitness
    }
}

/// The full state of one run.
#[derive(Clone, Debug)]
pub struct Population {
    /// The current generation's genomes.
    pub genomes: Vec<Genome>,
    /// The species registry carried across generations.
    pub species: Vec<Species>,
    /// For each genome index, the species it was assigned to in the last
    /// speciation pass.
    pub assignment: Vec<usize>,
    pub cfg: Config,
    pub tracker: InnovationTracker,
    pub rng: Rng,
    /// Completed generations.
    pub generation: u64,
}

impl Population {
    /// Everything later phases rely on.
    pub open spec fn wf(self) -> bool {
        &&& self.cfg.valid()
        &&& 1 <= self.genomes@.len() <= MAX_POPULATION
        &&& forall|i: int| 0 <= i < self.genomes@.len() ==> (#[trigger] self.genomes@[i]).wf()
        &&& self.tracker.wf()
        &&& forall|s: int| 0 <= s < self.species@.len()
                ==> (#[trigger] self.species@[s]).representative.wf()
    }

    /// Builds `size` minimal genomes — the configured input and output
    /// nodes, fully connected input to output with random weights — all
    /// sharing the same innovation ids for the same edges. Rejects a zero
    /// or oversized population and any broken configuration bound, and
    /// nothing else.
    pub fn create_population(size: usize, cfg: Config) -> (r: Result<Population, ConfigError>)
        ensures
            r is Ok <==> (1 <= size <= MAX_POPULATION && cfg.valid()),
            (size == 0 || size > MAX_POPULATION) ==> r == Err::<Population, ConfigError>(
                ConfigError::BadPopulationSize,
            ),
            match r {
                Ok(p) => p.wf() && p.genomes@.len() == size && p.generation == 0
                    && p.cfg == cfg && p.species@.len() == 0
                    && p.tracker.entries@.len() == 0
                    && p.tracker.next_id == cfg.num_inputs * cfg.num_outputs
                    && (forall|i: int| 0 <= i < size
                        ==> (#[trigger] p.genomes@[i]).nodes@.len()
                                == cfg.num_inputs + cfg.num_outputs
                            && p.genomes@[i].conns@.len()
                                == cfg.num_inputs * cfg.num_outputs)
                    // the minimal wiring: node ids are their indices, inputs
                    // first, and gene t runs input t/outputs to output
                    // t%outputs, enabled, with a bounded random weight; the
                    // same edge carries the same innovation id in every
                    // genome
                    && (forall|i: int, k: int| 0 <= i < size
                        && 0 <= k < (#[trigger] p.genomes@[i]).nodes@.len()
                        ==> (#[trigger] p.genomes@[i].nodes@[k]).id == k
                            && (k < cfg.num_inputs
                                ==> p.genomes@[i].nodes@[k].kind == NodeKind::Input)
                            && (k >= cfg.num_inputs
                                ==> p.genomes@[i].nodes@[k].kind == NodeKind::Output))
                    && (forall|i: int, t: int| 0 <= i < size
                        && 0 <= t < (#[trigger] p.genomes@[i]).conns@.len()
                        ==> (#[trigger] p.genomes@[i].conns@[t]).innovation == t
                            && p.genomes@[i].conns@[t].in_node as int
                                == t / (cfg.num_outputs as int)
                            && p.genomes@[i].conns@[t].out_node as int
                                == cfg.num_inputs + t % (cfg.num_outputs as int)
                            && p.genomes@[i].conns@[t].enabled
                            && -crate::genome::WEIGHT_INIT_RANGE
                                <= p.genomes@[i].conns@[t].weight
                                <= crate::genome::WEIGHT_INIT_RANGE),
                Err(_) => true,
            },
    {
        if size == 0 || size > MAX_POPULATION {
            return Err(ConfigError::BadPopulationSize);
        }
        match cfg.check() {
            Err(e) => {
                return Err(e);
            },
            Ok(()) => {},
        }
        let mut rng = Rng::seeded(cfg.seed);
        let ni = cfg.num_inputs;
        let no = cfg.num_outputs;
        let mut nodes: Vec<NodeGene> = Vec::new();
        let mut k: usize = 0;
        while k < ni
            invariant
                k <= ni,
                ni <= 10_000,
                nodes@.len() == k,
                forall|j: int| 0 <= j < k ==> (#[trigger] nodes@[j]).id == j
                    && nodes@[j].kind == NodeKind::Input,
            decreases ni - k,
        {
            nodes.push(NodeGene { id: k as u32, kind: NodeKind::Input, activation: 0 });
            k = k + 1;
        }
        let mut k: usize = 0;
        while k < no
            invariant
                k <= no,
                ni <= 10_000,
                no <= 10_000,
                nodes@.len() == ni + k,
                forall|j: int| 0 <= j < ni + k ==> (#[trigger] nodes@[j]).id == j
                    && (j < ni ==> nodes@[j].kind == NodeKind::Input)
                    && (j >= ni ==> nodes@[j].kind == NodeKind::Output),
            decreases no - k,
        {
            nodes.push(NodeGene { id: (ni + k) as u32, kind: NodeKind::Output, activation: 0 });
            k = k + 1;
        }
        let mut conns: Vec<ConnectionGene> = Vec::new();
        let mut nextid: u64 = 0;
        let mut a: usize = 0;
        while a < ni
            invariant
                a <= ni,
                ni <= 10_000,
                no <= 10_000,
                nodes@.len() == ni + no,
                forall|j: int| 0 <= j < ni + no ==> (#[trigger] nodes@[j]).id == j
                    && (j < ni ==> nodes@[j].kind == NodeKind::Input)
                    && (j >= ni ==> nodes@[j].kind == NodeKind::Output),
                nextid as int == conns@.len(),
                conns@.len() == a * no,
                forall|t: int| 0 <= t < conns@.len()
                    ==> (#[trigger] conns@[t]).innovation == t
                        && conns@[t].in_node < ni
                        && ni <= conns@[t].out_node < ni + no
                        && conns@[t].in_node as int == t / (no as int)
                        && conns@[t].out_node as int == ni + t % (no as int)
                        && conns@[t].enabled
                        && conns@[t].weight == crate::WEIGHT_ONE,
            decreases ni - a,
        {
            proof {
                assert(a * no <= 10_000 * 10_000) by (nonlinear_arith)
                    requires 0 <= a <= 10_000, 0 <= no <= 10_000;
            }
            let mut b: usize = 0;
            while b < no
                invariant
                    b <= no,
                    a < ni,
                    ni <= 10_000,
                    no <= 10_000,
                    nextid as int == conns@.len(),
                    conns@.len() == a * no + b,
                    a * no <= 100_000_000,
                    forall|t: int| 0 <= t < conns@.len()
                        ==> (#[trigger] conns@[t]).innovation == t
                            && conns@[t].in_node < ni
                            && ni <= conns@[t].out_node < ni + no
                            && conns@[t].in_node as int == t / (no as int)
                            && conns@[t].out_node as int == ni + t % (no as int)
                            && conns@[t].enabled
                            && conns@[t].weight == crate::WEIGHT_ONE,
                decreases no - b,
            {
                conns.push(ConnectionGene {
                    innovation: nextid,
                    in_node: a as u32,
                    out_node: (ni + b) as u32,
                    weight: crate::WEIGHT_ONE,
                    enabled: true,
                });
                proof {
                    let t = conns@.len() - 1;
                    vstd::arithmetic::div_mod::lemma_fundamental_div_mod_converse(
                        t, no as int, a as int, b as int);
                    assert(conns@[t].in_node as int == t / (no as int));
                    assert(conns@[t].out_node as int == ni + t % (no as int));
                }
                nextid = nextid + 1;
                b = b + 1;
            }
            proof {
                assert((a + 1) * no == a * no + no) by (nonlinear_arith);
            }
            a = a + 1;
        }
        let mut genomes: Vec<Genome> = Vec::new();
        let mut g: usize = 0;
        while g < size
            invariant
                g <= size,
                genomes@.len() == g,
                nodes@.len() == ni + no,
                ni <= 10_000,
                no <= 10_000,
                forall|j: int| 0 <= j < ni + no ==> (#[trigger] nodes@[j]).id == j,
                forall|t: int| 0 <= t < conns@.len()
                    ==> (#[trigger] conns@[t]).innovation == t
                        && conns@[t].in_node < ni
                        && ni <= conns@[t].out_node < ni + no
                        && conns@[t].in_node as int == t / (no as int)
                        && conns@[t].out_node as int == ni + t % (no as int)
                        && conns@[t].enabled,
                forall|j: int| 0 <= j < ni + no ==> (#[trigger] nodes@[j]).id == j
                    && (j < ni ==> nodes@[j].kind == NodeKind::Input)
                    && (j >= ni ==> nodes@[j].kind == NodeKind::Output),
                forall|i: int| 0 <= i < g ==> (#[trigger] genomes@[i]).wf()
                    && genomes@[i].nodes@.len() == ni + no
                    && genomes@[i].conns@.len() == conns@.len(),
                forall|i: int, k: int| 0 <= i < g
                    && 0 <= k < (#[trigger] genomes@[i]).nodes@.len()
                    ==> (#[trigger] genomes@[i].nodes@[k]) == nodes@[k],
                forall|i: int, t: int| 0 <= i < g
                    && 0 <= t < (#[trigger] genomes@[i]).conns@.len()
                    ==> (#[trigger] genomes@[i].conns@[t]).innovation == conns@[t].innovation
                        && genomes@[i].conns@[t].in_node == conns@[t].in_node
                        && genomes@[i].conns@[t].out_node == conns@[t].out_node
                        && genomes@[i].conns@[t].enabled == conns@[t].enabled
                        && -crate::genome::WEIGHT_INIT_RANGE
                            <= genomes@[i].conns@[t].weight
                            <= crate::genome::WEIGHT_INIT_RANGE,
            decreases size - g,
        {
            let gn = nodes.clone();
            let mut gc = conns.clone();
            proof {
                assert(gn@ =~= nodes@);
                assert(gc@ =~= conns@);
            }
            randomize_weights(&mut gc, &mut rng);
            let genome = Genome { nodes: gn, conns: gc, fitness: 0, adj_fitness: 0 };
            proof {
                assert forall|t: int| 0 <= t < genome.conns@.len()
                    implies genome.spec_has_node((#[trigger] genome.conns@[t]).in_node)
                        && genome.spec_has_node(genome.conns@[t].out_node) by {
                    assert(genome.nodes@[genome.conns@[t].in_node as int].id
                        == genome.conns@[t].in_node);
                    assert(genome.nodes@[genome.conns@[t].out_node as int].id
                        == genome.conns@[t].out_node);
                }
                assert(genome.wf());
            }
            genomes.push(genome);
            g = g + 1;
        }
        let tracker = InnovationTracker { next_id: nextid, entries: Vec::new() };
        Ok(Population {
            genomes,
            species: Vec::new(),
            assignment: Vec::new(),
            cfg,
            tracker,
            rng,
            generation: 0,
        })
    }

    /// Re-assigns every genome to a species: the first species whose
    /// representative lies within the compatibility threshold takes it
    /// (first match, not best match); a genome no representative accepts
    /// founds a new species around a copy of itself. Representatives carry
    /// over from the previous generation.
    pub fn speciate(&mut self)
        requires
            old(self).wf(),
        ensures
            final(self).wf(),
            final(self).genomes@ == old(self).genomes@,
            final(self).cfg == old(self).cfg,
            final(self).tracker == old(self).tracker,
            final(self).rng == old(self).rng,
            final(self).generation == old(self).generation,
            final(self).assignment@.len() == final(self).genomes@.len(),
            forall|i: int| 0 <= i < final(self).assignment@.len()
                ==> (#[trigger] final(self).assignment@[i]) < final(self).species@.len(),
            forall|i: int, s: int| 0 <= i < final(self).assignment@.len()
                && 0 <= s < (#[trigger] final(self).assignment@[i]) as int
                ==> crate::genome::spec_distance(
                        (#[trigger] final(self).species@[s]).representative,
                        final(self).genomes@[i],
                        final(self).cfg.c1,
                        final(self).cfg.c2,
                        final(self).cfg.c3,
                    ) > final(self).cfg.compatibility_threshold,
            forall|i: int| 0 <= i < final(self).assignment@.len()
                ==> crate::genome::spec_distance(
                        final(self).species@[(#[trigger] final(self).assignment@[i]) as int]
                            .representative,
                        final(self).genomes@[i],
                        final(self).cfg.c1,
                        final(self).cfg.c2,
                        final(self).cfg.c3,
                    ) <= final(self).cfg.compatibility_threshold,
    {
        let sc = self.species.len();
        let mut fresh: Vec<Species> = Vec::new();
        let mut s: usize = 0;
        while s < sc
            invariant
                s <= sc,
                sc == self.species@.len(),
                self.wf(),
                fresh@.len() == s,
                forall|j: int| 0 <= j < s ==> (#[trigger] fresh@[j]).representative.wf(),
            decreases sc - s,
        {
            let rep = self.species[s].representative.duplicated();
            fresh.push(Species {
                representative: rep,
                best_ever: self.species[s].best_ever,
                stale: self.species[s].stale,
                age: self.species[s].age,
            });
            s = s + 1;
        }
        self.species = fresh;
        let n = self.genomes.len();
        let mut assignment: Vec<usize> = Vec::new();
        let mut i: usize = 0;
        while i < n
            invariant
                i <= n,
                n == self.genomes@.len(),
                self.wf(),
                self.genomes@ == old(self).genomes@,
                self.cfg == old(self).cfg,
                self.tracker == old(self).tracker,
                self.rng == old(self).rng,
                self.generation == old(self).generation,
                assignment@.len() == i,
                forall|x: int| 0 <= x < i
                    ==> (#[trigger] assignment@[x]) < self.species@.len(),
                forall|x: int, s: int| 0 <= x < i
                    && 0 <= s < (#[trigger] assignment@[x]) as int
                    ==> crate::genome::spec_distance(
                            (#[trigger] self.species@[s]).representative,
                            self.genomes@[x],
                            self.cfg.c1,
                            self.cfg.c2,
                            self.cfg.c3,
                        ) > self.cfg.compatibility_threshold,
                forall|x: int| 0 <= x < i
                    ==> crate::genome::spec_distance(
                            self.species@[(#[trigger] assignment@[x]) as int].representative,
                            self.genomes@[x],
                            self.cfg.c1,
                            self.cfg.c2,
                            self.cfg.c3,
                        ) <= self.cfg.compatibility_threshold,
            decreases n - i,
        {
            let sc2 = self.species.len();
            let mut s: usize = 0;
            let mut chosen: usize = sc2;
            while s < sc2 && chosen == sc2
                invariant
                    s <= sc2,
                    sc2 == self.species@.len(),
                    self.wf(),
                    n == self.genomes@.len(),
                    i < n,
                    chosen == sc2 || chosen < s,
                    chosen == sc2 ==> forall|t: int| 0 <= t < s
                        ==> crate::genome::spec_distance(
                                (#[trigger] self.species@[t]).representative,
                                self.genomes@[i as int],
                                self.cfg.c1,
                                self.cfg.c2,
                                self.cfg.c3,
                            ) > self.cfg.compatibility_threshold,
                    chosen < s ==> forall|t: int| 0 <= t < chosen
                        ==> crate::genome::spec_distance(
                                (#[trigger] self.species@[t]).representative,
                                self.genomes@[i as int],
                                self.cfg.c1,
                                self.cfg.c2,
                                self.cfg.c3,
                            ) > self.cfg.compatibility_threshold,
                    chosen < s ==> crate::genome::spec_distance(
                            self.species@[chosen as int].representative,
                            self.genomes@[i as int],
                            self.cfg.c1, self.cfg.c2, self.cfg.c3,
                        ) <= self.cfg.compatibility_threshold,
                decreases sc2 - s,
            {
                let d = self.species[s].representative.compatibility_distance(
                    &self.genomes[i],
                    &self.cfg,
                );
                if d <= self.cfg.compatibility_threshold {
                    chosen = s;
                    proof {
                        assert(crate::genome::spec_distance(
                            self.species@[s as int].representative,
                            self.genomes@[i as int],
                            self.cfg.c1, self.cfg.c2, self.cfg.c3,
                        ) <= self.cfg.compatibility_threshold);
                    }
                }
                s = s + 1;
            }
            if chosen == sc2 {
                let rep = self.genomes[i].duplicated();
                proof {
                    assert(rep.wf());
                    crate::genome::lemma_distance_zero_same_conns(
                        rep,
                        self.genomes@[i as int],
                        self.cfg.c1, self.cfg.c2, self.cfg.c3,
                    );
                }
                self.species.push(Species {
                    representative: rep,
                    best_ever: 0,
                    stale: 0,
                    age: 0,
                });
                proof {
                    assert(self.species@[chosen as int].representative == rep);
                }
            }
            assignment.push(chosen);
            i = i + 1;
        }
        self.assignment = assignment;
    }

    /// Explicit fitness sharing: every genome's shared fitness is its raw
    /// fitness divided by the size of its species. Downstream selection
    /// uses only the shared value, never raw fitness.
    pub fn adjust_fitness(&mut self)
        requires
            old(self).wf(),
            old(self).assignment@.len() == old(self).genomes@.len(),
            forall|i: int| 0 <= i < old(self).assignment@.len()
                ==> (#[trigger] old(self).assignment@[i]) < old(self).species@.len(),
        ensures
            final(self).wf(),
            final(self).genomes@.len() == old(self).genomes@.len(),
            final(self).species == old(self).species,
            final(self).assignment == old(self).assignment,
            final(self).cfg == old(self).cfg,
            final(self).tracker == old(self).tracker,
            final(self).rng == old(self).rng,
            final(self).generation == old(self).generation,
            forall|i: int| 0 <= i < final(self).genomes@.len()
                ==> (#[trigger] final(self).genomes@[i]).nodes@ == old(self).genomes@[i].nodes@
                    && final(self).genomes@[i].conns@ == old(self).genomes@[i].conns@
                    && final(self).genomes@[i].fitness == old(self).genomes@[i].fitness,
            forall|i: int| 0 <= i < final(self).genomes@.len()
                ==> (#[trigger] final(self).genomes@[i]).adj_fitness
                    == final(self).genomes@[i].fitness as int
                        / count_assigned(final(self).assignment@, final(self).assignment@[i] as int),
    {
        let n = self.genomes.len();
        let sc = self.species.len();
        let mut sizes: Vec<usize> = Vec::new();
        let mut s: usize = 0;
        while s < sc
            invariant
                s <= sc,
                sizes@.len() == s,
                forall|t: int| 0 <= t < s ==> (#[trigger] sizes@[t]) == 0,
            decreases sc - s,
        {
            sizes.push(0);
            s = s + 1;
        }
        let mut j: usize = 0;
        proof {
            assert(self.assignment@.take(0) =~= Seq::<usize>::empty());
            assert forall|t: int| 0 <= t < sc
                implies (#[trigger] sizes@[t]) == count_assigned(self.assignment@.take(0), t) by {
                assert(count_assigned(Seq::<usize>::empty(), t) == 0);
            }
        }
        while j < n
            invariant
                j <= n,
                n == self.genomes@.len(),
                n == self.assignment@.len(),
                sc == self.species@.len(),
                sizes@.len() == sc,
                forall|i: int| 0 <= i < n ==> (#[trigger] self.assignment@[i]) < sc,
                forall|t: int| 0 <= t < sc
                    ==> (#[trigger] sizes@[t]) == count_assigned(self.assignment@.take(j as int), t),
                forall|t: int| 0 <= t < sc ==> (#[trigger] sizes@[t]) <= j,
            decreases n - j,
        {
            let sp = self.assignment[j];
            let cur = sizes[sp];
            sizes[sp] = cur + 1;
            proof {
                assert(self.assignment@.take(j as int + 1)
                    =~= self.assignment@.take(j as int).push(self.assignment@[j as int]));
                assert forall|t: int| 0 <= t < sc
                    implies (#[trigger] sizes@[t])
                        == count_assigned(self.assignment@.take(j as int + 1), t) by {
                    lemma_count_assigned_push(
                        self.assignment@.take(j as int),
                        self.assignment@[j as int],
                        t,
                    );
                }
            }
            j = j + 1;
        }
        proof {
            assert(self.assignment@.take(n as int) =~= self.assignment@);
        }
        let mut i: usize = 0;
        while i < n
            invariant
                i <= n,
                n == self.genomes@.len(),
                n == self.assignment@.len(),
                sc == self.species@.len(),
                sizes@.len() == sc,
                self.species == old(self).species,
                self.assignment == old(self).assignment,
                self.cfg == old(self).cfg,
                self.tracker == old(self).tracker,
                self.rng == old(self).rng,
                self.generation == old(self).generation,
                self.wf(),
                forall|x: int| 0 <= x < n ==> (#[trigger] self.assignment@[x]) < sc,
                forall|t: int| 0 <= t < sc
                    ==> (#[trigger] sizes@[t]) == count_assigned(self.assignment@, t),
                forall|x: int| 0 <= x < n
                    ==> (#[trigger] self.genomes@[x]).nodes@ == old(self).genomes@[x].nodes@
                        && self.genomes@[x].conns@ == old(self).genomes@[x].conns@
                        && self.genomes@[x].fitness == old(self).genomes@[x].fitness,
                forall|x: int| 0 <= x < i
                    ==> (#[trigger] self.genomes@[x]).adj_fitness
                        == self.genomes@[x].fitness as int
                            / count_assigned(self.assignment@, self.assignment@[x] as int),
            decreases n - i,
        {
            let sp = self.assignment[i];
            let size = sizes[sp];
            proof {
                lemma_count_assigned_member(self.assignment@, i as int);
            }
            let mut g = self.genomes[i].duplicated();
            g.adj_fitness = g.fitness / (size as u64);
            proof {
                assert(g.fitness / (size as u64) <= g.fitness) by (nonlinear_arith)
                    requires size as u64 >= 1;
            }
            self.genomes[i] = g;
            i = i + 1;
        }
    }

    /// The genome indices assigned to species `s`, in ascending order.
    pub fn collect_members(&self, s: usize) -> (members: Vec<usize>)
        requires
            self.assignment@.len() == self.genomes@.len(),
        ensures
            forall|t: int| 0 <= t < members@.len()
                ==> (#[trigger] members@[t]) < self.genomes@.len()
                    && self.assignment@[members@[t] as int] == s,
            forall|i: int| 0 <= i < self.assignment@.len() && self.assignment@[i] == s
                ==> exists|t: int| 0 <= t < members@.len() && (#[trigger] members@[t]) == i,
            members@.len() <= self.genomes@.len(),
            forall|p: int, q: int| 0 <= p < q < members@.len()
                ==> (#[trigger] members@[p]) < (#[trigger] members@[q]),
    {
        let n = self.assignment.len();
        let mut members: Vec<usize> = Vec::new();
        let mut i: usize = 0;
        while i < n
            invariant
                i <= n,
                n == self.assignment@.len(),
                forall|t: int| 0 <= t < members@.len()
                    ==> (#[trigger] members@[t]) < i
                        && self.assignment@[members@[t] as int] == s,
                forall|x: int| 0 <= x < i && self.assignment@[x] == s
                    ==> exists|t: int| 0 <= t < members@.len() && (#[trigger] members@[t]) == x,
                forall|p: int, q: int| 0 <= p < q < members@.len()
                    ==> (#[trigger] members@[p]) < (#[trigger] members@[q]),
                members@.len() <= i,
            decreases n - i,
        {
            if self.assignment[i] == s {
                let ghost pre = members@;
                members.push(i);
                proof {
                    assert(members@[pre.len() as int] == i);
                    assert forall|x: int| 0 <= x < i + 1 && self.assignment@[x] == s
                        implies exists|t: int| 0 <= t < members@.len()
                            && (#[trigger] members@[t]) == x by {
                        if x == i {
                            assert(members@[pre.len() as int] == x);
                        } else {
                            let t0 = choose|t0: int| 0 <= t0 < pre.len()
                                && (#[trigger] pre[t0]) == x;
                            assert(members@[t0] == x);
                        }
                    }
                }
            }
            i = i + 1;
        }
        members
    }

    /// Picks a parent among the species' members under the configured
    /// selection policy (tournament of two, or fitness-proportionate over
    /// shared fitness). The result is always one of the members.
    fn select_member(&mut self, members: &Vec<usize>) -> (m: usize)
        requires
            old(self).wf(),
            members@.len() >= 1,
            members@.len() <= MAX_POPULATION,
            forall|t: int| 0 <= t < members@.len()
                ==> (#[trigger] members@[t]) < old(self).genomes@.len(),
        ensures
            (*final(self) == Population { rng: final(self).rng, ..*old(self) }),
            m < old(self).genomes@.len(),
            (exists|t: int| 0 <= t < members@.len() && (#[trigger] members@[t]) == m),
            old(self).cfg.selection == crate::config::SelectionPolicy::Tournament
                ==> (exists|t1: int, t2: int| #![auto]
                    0 <= t1 < members@.len() && 0 <= t2 < members@.len()
                    && (m == members@[t1] || m == members@[t2])
                    && old(self).genomes@[m as int].adj_fitness
                        >= old(self).genomes@[members@[t1] as int].adj_fitness
                    && old(self).genomes@[m as int].adj_fitness
                        >= old(self).genomes@[members@[t2] as int].adj_fitness),
            old(self).cfg.selection == crate::config::SelectionPolicy::FitnessProportionate
                ==> ((forall|t: int| 0 <= t < members@.len()
                        ==> old(self).genomes@[(#[trigger] members@[t]) as int].adj_fitness
                            == 0)
                    || old(self).genomes@[m as int].adj_fitness > 0),
    {
        let len = members.len();
        match self.cfg.selection {
            crate::config::SelectionPolicy::Tournament => {
                let t1 = self.rng.below(len as u64) as usize;
                let t2 = self.rng.below(len as u64) as usize;
                let m1 = members[t1];
                let m2 = members[t2];
                if self.genomes[m1].adj_fitness >= self.genomes[m2].adj_fitness {
                    m1
                } else {
                    m2
                }
            },
            crate::config::SelectionPolicy::FitnessProportionate => {
                let mut total: u64 = 0;
                let mut t: usize = 0;
                while t < len
                    invariant
                        t <= len,
                        len == members@.len(),
                        self.wf(),
                        forall|x: int| 0 <= x < len
                            ==> (#[trigger] members@[x]) < self.genomes@.len(),
                        len <= MAX_POPULATION,
                        total <= t * (FITNESS_LIMIT as int),
                        total as int == adj_prefix(members@, self.genomes@, t as int),
                        total == 0 ==> forall|x: int| 0 <= x < t
                            ==> self.genomes@[(#[trigger] members@[x]) as int].adj_fitness
                                == 0,
                    decreases len - t,
                {
                    total = total + self.genomes[members[t]].adj_fitness;
                    t = t + 1;
                }
                if total == 0 {
                    let t = self.rng.below(len as u64) as usize;
                    members[t]
                } else {
                    let draw = self.rng.below(total);
                    let mut acc: u64 = 0;
                    let mut t: usize = 0;
                    while t < len
                        invariant
                            t <= len,
                            len == members@.len(),
                            self.wf(),
                            forall|x: int| 0 <= x < len
                                ==> (#[trigger] members@[x]) < self.genomes@.len(),
                            len <= MAX_POPULATION,
                            acc <= (t * (FITNESS_LIMIT as int)) + FITNESS_LIMIT,
                            acc as int == adj_prefix(members@, self.genomes@, t as int),
                            total as int == adj_prefix(members@, self.genomes@, len as int),
                            draw < total,
                            draw >= acc,
                        decreases len - t,
                    {
                        let ghost acc0 = acc;
                        acc = acc + self.genomes[members[t]].adj_fitness;
                        if draw < acc {
                            proof {
                                assert(self.genomes@[members@[t as int] as int].adj_fitness
                                    > 0);
                            }
                            return members[t];
                        }
                        t = t + 1;
                    }
                    proof {
                        assert(acc as int == total as int);
                        assert(false);
                    }
                    members[len - 1]
                }
            },
        }
    }

    /// Produces `count` offspring of one species into `out`. When elitism
    /// is on and at least one slot exists, the first offspring is an
    /// unchanged copy — identical gene set and weights — of the species'
    /// best shared-fitness member; the rest come from crossover of two
    /// selected parents followed by mutation.
    #[verifier::rlimit(100)]
    pub fn reproduce_species(
        &mut self,
        members: &Vec<usize>,
        count: usize,
        out: &mut Vec<Genome>,
    )
        requires
            old(self).wf(),
            members@.len() >= 1,
            members@.len() <= MAX_POPULATION,
            forall|t: int| 0 <= t < members@.len()
                ==> (#[trigger] members@[t]) < old(self).genomes@.len(),
            old(self).tracker.next_id + 3 * count + 3 < u64::MAX,
            forall|k: int| 0 <= k < old(out)@.len() ==> (#[trigger] old(out)@[k]).wf(),
        ensures
            final(self).wf(),
            final(self).genomes == old(self).genomes,
            final(self).species == old(self).species,
            final(self).assignment == old(self).assignment,
            final(self).cfg == old(self).cfg,
            final(self).generation == old(self).generation,
            final(self).tracker.next_id <= old(self).tracker.next_id + 3 * count,
            entries_extended(old(self).tracker, final(self).tracker),
            final(out)@.len() == old(out)@.len() + count,
            forall|k: int| old(out)@.len() <= k < final(out)@.len()
                ==> genes_known(#[trigger] final(out)@[k], old(self).genomes@,
                        final(self).tracker.entries@),
            forall|k: int| 0 <= k < old(out)@.len()
                ==> (#[trigger] final(out)@[k]) == old(out)@[k],
            forall|k: int| 0 <= k < final(out)@.len() ==> (#[trigger] final(out)@[k]).wf(),
            (count >= 1 && old(self).cfg.elitism >= 1) ==> exists|b: int|
                is_best_member(members@, old(self).genomes@, b)
                    && same_structure(
                        final(out)@[old(out)@.len() as int],
                        old(self).genomes@[members@[b] as int],
                    ),
    {
        let len = members.len();
        let mut b: usize = 0;
        let mut t: usize = 1;
        while t < len
            invariant
                1 <= t <= len,
                len == members@.len(),
                b < t,
                self.wf(),
                forall|x: int| 0 <= x < len
                    ==> (#[trigger] members@[x]) < self.genomes@.len(),
                forall|x: int| 0 <= x < t
                    ==> self.genomes@[(#[trigger] members@[x]) as int].adj_fitness
                        <= self.genomes@[members@[b as int] as int].adj_fitness,
            decreases len - t,
        {
            if self.genomes[members[t]].adj_fitness > self.genomes[members[b]].adj_fitness {
                b = t;
            }
            t = t + 1;
        }
        proof {
            assert(is_best_member(members@, self.genomes@, b as int));
        }
        let ghost start_id = self.tracker.next_id;
        let mut r: usize = 0;
        while r < count
            invariant
                r <= count,
                self.wf(),
                self.genomes == old(self).genomes,
                self.species == old(self).species,
                self.assignment == old(self).assignment,
                self.cfg == old(self).cfg,
                self.generation == old(self).generation,
                len == members@.len(),
                1 <= len <= MAX_POPULATION,
                b < len,
                forall|x: int| 0 <= x < len
                    ==> (#[trigger] members@[x]) < self.genomes@.len(),
                is_best_member(members@, self.genomes@, b as int),
                start_id == old(self).tracker.next_id,
                self.tracker.next_id <= start_id + 3 * r,
                start_id + 3 * count + 3 < u64::MAX,
                entries_extended(old(self).tracker, self.tracker),
                out@.len() == old(out)@.len() + r,
                forall|k: int| old(out)@.len() <= k < out@.len()
                    ==> genes_known(#[trigger] out@[k], self.genomes@,
                            self.tracker.entries@),
                forall|k: int| 0 <= k < old(out)@.len()
                    ==> (#[trigger] out@[k]) == old(out)@[k],
                forall|k: int| 0 <= k < out@.len() ==> (#[trigger] out@[k]).wf(),
                (r >= 1 && self.cfg.elitism >= 1) ==> same_structure(
                    out@[old(out)@.len() as int],
                    self.genomes@[members@[b as int] as int],
                ),
            decreases count - r,
        {
            let ghost iter_t = self.tracker;
            if r == 0 && self.cfg.elitism >= 1 {
                let elite = self.genomes[members[b]].duplicated();
                proof {
                    assert(elite.wf());
                    assert(same_structure(elite, self.genomes@[members@[b as int] as int]));
                    assert(genes_known(elite, self.genomes@, self.tracker.entries@)) by {
                        assert forall|k: int| 0 <= k < elite.conns@.len()
                            implies id_in_pop(self.genomes@,
                                (#[trigger] elite.conns@[k]).innovation)
                                || entry_with_id(self.tracker.entries@,
                                    elite.conns@[k].innovation) by {
                            let src = self.genomes@[members@[b as int] as int];
                            assert(src.conns@[k].innovation == elite.conns@[k].innovation);
                            assert(src.spec_has_innovation(elite.conns@[k].innovation));
                        }
                    }
                }
                out.push(elite);
            } else {
                let p1 = self.select_member(members);
                let p2 = self.select_member(members);
                let mut child = if self.genomes[p1].fitness >= self.genomes[p2].fitness {
                    self.genomes[p1].crossover(&self.genomes[p2], &mut self.rng, &self.cfg)
                } else {
                    self.genomes[p2].crossover(&self.genomes[p1], &mut self.rng, &self.cfg)
                };
                proof {
                    assert(genes_known(child, self.genomes@, self.tracker.entries@)) by {
                        assert forall|k: int| 0 <= k < child.conns@.len()
                            implies id_in_pop(self.genomes@,
                                (#[trigger] child.conns@[k]).innovation)
                                || entry_with_id(self.tracker.entries@,
                                    child.conns@[k].innovation) by {
                            assert(self.genomes@[p1 as int].spec_has_innovation(
                                    child.conns@[k].innovation)
                                || self.genomes@[p2 as int].spec_has_innovation(
                                    child.conns@[k].innovation));
                        }
                    }
                }
                let ghost child0 = child;
                let ghost t0 = self.tracker;
                child.mutate_weights(&mut self.rng, &self.cfg);
                proof {
                    assert forall|k: int| 0 <= k < child.conns@.len()
                        implies child0.spec_has_innovation(
                            (#[trigger] child.conns@[k]).innovation)
                            || entry_with_id(t0.entries@, child.conns@[k].innovation) by {
                        assert(child.conns@[k].innovation == child0.conns@[k].innovation);
                    }
                    lemma_genes_known_step(child0, child, self.genomes@, t0, t0);
                }
                let ghost child1 = child;
                if self.rng.chance(self.cfg.p_add_connection, PROB_ONE) {
                    let added = child.mutate_add_connection(
                        &mut self.tracker,
                        &mut self.rng,
                        &self.cfg,
                    );
                    proof {
                        if added {
                            lemma_genes_known_step(child1, child, self.genomes@, t0, self.tracker);
                        } else {
                            lemma_genes_known_step(child1, child, self.genomes@, t0, self.tracker);
                        }
                    }
                }
                let ghost child2 = child;
                let ghost t2 = self.tracker;
                if self.rng.chance(self.cfg.p_add_node, PROB_ONE) {
                    let added = child.mutate_add_node(&mut self.tracker, &mut self.rng);
                    proof {
                        lemma_entries_extended_trans(t0, t2, self.tracker);
                        lemma_genes_known_step(child2, child, self.genomes@, t2, self.tracker);
                    }
                }
                proof {
                    lemma_entries_extended_trans(old(self).tracker, t0, self.tracker);
                    lemma_genes_known_extended(child, self.genomes@, self.tracker, self.tracker);
                }
                out.push(child);
            }
            proof {
                assert(entries_extended(iter_t, self.tracker));
                assert forall|k: int| old(out)@.len() <= k < out@.len()
                    implies genes_known(#[trigger] out@[k], self.genomes@,
                        self.tracker.entries@) by {
                    if k < out@.len() - 1 {
                        lemma_genes_known_extended(out@[k], self.genomes@, iter_t, self.tracker);
                    }
                }
            }
            r = r + 1;
        }
    }

    /// Splits the population's offspring slots among the species in
    /// proportion to their total shared fitness; remainder slots go to the
    /// best-performing species (the one holding the genome with the highest
    /// shared fitness), which always receives at least one slot. A species
    /// whose stagnation counter reached the limit gets no slots unless it
    /// is the best; one rounded down to zero slots is dropped for the
    /// generation. The slot total is exactly the population size.
    pub fn allocate_offspring(&self) -> (alloc: Vec<usize>)
        requires
            self.wf(),
            self.assignment@.len() == self.genomes@.len(),
            forall|i: int| 0 <= i < self.assignment@.len()
                ==> (#[trigger] self.assignment@[i]) < self.species@.len(),
        ensures
            alloc@.len() == self.species@.len(),
            sum_alloc(alloc@) == self.genomes@.len(),
            forall|s: int| 0 <= s < alloc@.len() && (#[trigger] alloc@[s]) >= 1
                ==> exists|i: int| 0 <= i < self.assignment@.len()
                    && (#[trigger] self.assignment@[i]) as int == s,
            (exists|b: int| 0 <= b < self.genomes@.len()
                && (forall|j: int| 0 <= j < self.genomes@.len()
                    ==> (#[trigger] self.genomes@[j]).adj_fitness
                        <= self.genomes@[b].adj_fitness)
                && alloc@[self.assignment@[b] as int] >= 1
                && (forall|s: int| 0 <= s < alloc@.len() && (#[trigger] alloc@[s]) >= 1
                    ==> self.species@[s].stale < self.cfg.stagnation_limit
                        || s == self.assignment@[b] as int)),
    {
        let n = self.genomes.len();
        let sc = self.species.len();
        let mut totals: Vec<u64> = Vec::new();
        let mut s: usize = 0;
        while s < sc
            invariant
                s <= sc,
                totals@.len() == s,
                forall|t: int| 0 <= t < s ==> (#[trigger] totals@[t]) == 0,
            decreases sc - s,
        {
            totals.push(0);
            s = s + 1;
        }
        let mut j: usize = 0;
        while j < n
            invariant
                j <= n,
                n == self.genomes@.len(),
                n == self.assignment@.len(),
                n <= MAX_POPULATION,
                sc == self.species@.len(),
                totals@.len() == sc,
                self.wf(),
                forall|i: int| 0 <= i < n ==> (#[trigger] self.assignment@[i]) < sc,
                forall|t: int| 0 <= t < sc ==> (#[trigger] totals@[t]) <= j * (FITNESS_LIMIT as int),
                forall|t: int| 0 <= t < sc && (#[trigger] totals@[t]) > 0
                    ==> exists|i: int| 0 <= i < n && (#[trigger] self.assignment@[i]) as int == t,
            decreases n - j,
        {
            let sp = self.assignment[j];
            let cur = totals[sp];
            totals[sp] = cur + self.genomes[j].adj_fitness;
            proof {
                if totals@[sp as int] > 0 {
                    assert(self.assignment@[j as int] == sp);
                }
            }
            j = j + 1;
        }
        // the species holding the best shared-fitness genome
        let mut bi: usize = 0;
        let mut i: usize = 1;
        while i < n
            invariant
                1 <= i <= n,
                n == self.genomes@.len(),
                bi < i,
                self.wf(),
                forall|j: int| 0 <= j < i
                    ==> (#[trigger] self.genomes@[j]).adj_fitness
                        <= self.genomes@[bi as int].adj_fitness,
            decreases n - i,
        {
            if self.genomes[i].adj_fitness > self.genomes[bi].adj_fitness {
                bi = i;
            }
            i = i + 1;
        }
        let best_s = self.assignment[bi];
        // total shared fitness of the surviving species
        let mut grand: u128 = 0;
        let mut s: usize = 0;
        while s < sc
            invariant
                s <= sc,
                sc == self.species@.len(),
                totals@.len() == sc,
                self.wf(),
                best_s < sc,
                grand <= s * 0xFFFF_FFFF_FFFF_FFFF,
            decreases sc - s,
        {
            if self.species[s].stale < self.cfg.stagnation_limit || s == best_s {
                grand = grand + (totals[s] as u128);
            }
            s = s + 1;
        }
        let mut alloc: Vec<usize> = Vec::new();
        let mut remaining: usize = n;
        let mut s: usize = 0;
        proof {
            assert(alloc@.take(0) =~= Seq::<usize>::empty());
            assert(sum_alloc(Seq::<usize>::empty()) == 0);
        }
        while s < sc
            invariant
                s <= sc,
                sc == self.species@.len(),
                totals@.len() == sc,
                n == self.genomes@.len(),
                n == self.assignment@.len(),
                self.wf(),
                best_s < sc,
                alloc@.len() == s,
                sum_alloc(alloc@) + remaining == n,
                forall|t: int| 0 <= t < s && (#[trigger] alloc@[t]) >= 1 ==> totals@[t] > 0,
                forall|t: int| 0 <= t < sc && (#[trigger] totals@[t]) > 0
                    ==> exists|i: int| 0 <= i < n && (#[trigger] self.assignment@[i]) as int == t,
                forall|t: int| 0 <= t < s && (#[trigger] alloc@[t]) >= 1
                    ==> self.species@[t].stale < self.cfg.stagnation_limit
                        || t == best_s as int,
            decreases sc - s,
        {
            let survivor = self.species[s].stale < self.cfg.stagnation_limit || s == best_s;
            let mut q: usize = 0;
            if survivor && grand > 0 && totals[s] > 0 {
                proof {
                    assert((n as u128) as int * (totals@[s as int] as u128) as int
                        <= 1_000_000 * 0xFFFF_FFFF_FFFF_FFFF) by (nonlinear_arith)
                        requires
                            (n as u128) as int <= 1_000_000,
                            (totals@[s as int] as u128) as int <= 0xFFFF_FFFF_FFFF_FFFF;
                }
                let q128: u128 = (n as u128) * (totals[s] as u128) / grand;
                if q128 >= remaining as u128 {
                    q = remaining;
                } else {
                    q = q128 as usize;
                }
            }
            let ghost pre = alloc@;
            alloc.push(q);
            remaining = remaining - q;
            proof {
                lemma_sum_alloc_push(pre, q);
            }
            s = s + 1;
        }
        // leftover slots go to the best species
        let la = alloc[best_s];
        proof {
            lemma_sum_alloc_element(alloc@, best_s as int);
        }
        let ghost pre = alloc@;
        alloc[best_s] = la + remaining;
        proof {
            lemma_sum_alloc_update(pre, best_s as int, (la + remaining) as usize);
            assert forall|t: int| 0 <= t < sc && (#[trigger] alloc@[t]) >= 1
                implies self.species@[t].stale < self.cfg.stagnation_limit
                    || t == best_s as int by {
                if t != best_s {
                    assert(alloc@[t] == pre[t]);
                }
            }
        }
        if alloc[best_s] == 0 {
            // the whole total sits elsewhere; move one slot over
            let mut t: usize = 0;
            let mut donor: usize = sc;
            while t < sc
                invariant
                    t <= sc,
                    sc == alloc@.len(),
                    donor == sc || (donor < sc && alloc@[donor as int] >= 1),
                    donor == sc ==> forall|x: int| 0 <= x < t ==> (#[trigger] alloc@[x]) == 0,
                decreases sc - t,
            {
                if donor == sc && alloc[t] >= 1 {
                    donor = t;
                }
                t = t + 1;
            }
            if donor == sc {
                proof {
                    lemma_sum_alloc_zero(alloc@);
                    assert(false);
                }
            } else {
                let dv = alloc[donor];
                let ghost pre1 = alloc@;
                alloc[donor] = dv - 1;
                proof {
                    lemma_sum_alloc_update(pre1, donor as int, (dv - 1) as usize);
                    assert forall|t: int| 0 <= t < sc && (#[trigger] alloc@[t]) >= 1
                        implies self.species@[t].stale < self.cfg.stagnation_limit
                            || t == best_s as int by {
                        if t != donor {
                            assert(alloc@[t] == pre1[t]);
                        } else {
                            assert(pre1[t] >= 1);
                        }
                    }
                }
                let bv = alloc[best_s];
                let ghost pre2 = alloc@;
                alloc[best_s] = bv + 1;
                proof {
                    lemma_sum_alloc_update(pre2, best_s as int, (bv + 1) as usize);
                    assert forall|t: int| 0 <= t < sc && (#[trigger] alloc@[t]) >= 1
                        implies self.species@[t].stale < self.cfg.stagnation_limit
                            || t == best_s as int by {
                        if t != best_s {
                            assert(alloc@[t] == pre2[t]);
                        }
                    }
                }
            }
        }
        proof {
            assert(self.assignment@[bi as int] == best_s);
            assert(alloc@[best_s as int] >= 1);
            assert(forall|j: int| 0 <= j < self.genomes@.len()
                ==> (#[trigger] self.genomes@[j]).adj_fitness
                    <= self.genomes@[bi as int].adj_fitness);
        }
        alloc
    }

    /// Advances exactly one generation: evaluates every genome through the
    /// caller's environment (a failed evaluation gets the configured floor
    /// fitness, never aborting the generation), re-speciates, shares
    /// fitness, books stagnation, splits the offspring slots, reproduces
    /// each surviving species — elitism first, then crossover plus
    /// mutation — and atomically replaces the population. The population
    /// size never changes; every gene of the new population is inherited
    /// from the old one or carries an innovation id issued during this
    /// call. The tracker's dedup window spans exactly this call: it is
    /// cleared at both generation boundaries.
    #[verifier::rlimit(100)]
    pub fn evolve<E: Environment>(&mut self, env: &mut E) -> (report: GenerationReport)
        requires
            old(self).wf(),
            old(self).tracker.next_id < u64::MAX - 4_000_000,
            old(self).generation < u64::MAX,
        ensures
            final(self).wf(),
            final(self).genomes@.len() == old(self).genomes@.len(),
            final(self).cfg == old(self).cfg,
            final(self).generation == old(self).generation + 1,
            final(self).tracker.entries@.len() == 0,
            final(self).tracker.next_id >= old(self).tracker.next_id,
            final(self).tracker.next_id
                <= old(self).tracker.next_id + 3 * old(self).genomes@.len(),
            forall|j: int, k: int| 0 <= j < final(self).genomes@.len()
                && 0 <= k < (#[trigger] final(self).genomes@[j]).conns@.len()
                ==> id_in_pop(old(self).genomes@,
                        (#[trigger] final(self).genomes@[j].conns@[k]).innovation)
                    || (old(self).tracker.next_id
                            <= final(self).genomes@[j].conns@[k].innovation
                        < final(self).tracker.next_id),
            old(self).cfg.elitism >= 1 ==> (exists|j: int, g: int| #![auto]
                0 <= j < final(self).genomes@.len()
                && 0 <= g < old(self).genomes@.len()
                && same_structure(final(self).genomes@[j], old(self).genomes@[g])),
            forall|s1: int, s2: int| 0 <= s1 < s2 < final(self).species@.len()
                && (#[trigger] final(self).species@[s1]).stale >= old(self).cfg.stagnation_limit
                ==> (#[trigger] final(self).species@[s2]).stale < old(self).cfg.stagnation_limit,
            final(self).species@.len() >= 1,
            report.generation == final(self).generation,
            report.species_count == final(self).species@.len(),
            report.best_fitness <= FITNESS_LIMIT,
            report.worst_fitness <= report.avg_fitness,
            report.avg_fitness <= report.best_fitness,
    {
        self.tracker.advance_generation();
        let ghost id0 = self.tracker.next_id;
        let n = self.genomes.len();
        // Evaluating
        let mut best: u64 = 0;
        let mut worst: u64 = FITNESS_LIMIT;
        let mut sum: u64 = 0;
        let mut i: usize = 0;
        while i < n
            invariant
                i <= n,
                n == self.genomes@.len(),
                n <= MAX_POPULATION,
                self.wf(),
                self.cfg == old(self).cfg,
                self.generation == old(self).generation,
                sum <= i * (FITNESS_LIMIT as int),
                best <= FITNESS_LIMIT,
                worst <= FITNESS_LIMIT,
                i >= 1 ==> worst <= best,
                sum as int <= i * (best as int),
                sum as int >= i * (worst as int),
                self.tracker.entries@.len() == 0,
                self.tracker.next_id == id0,
                id0 == old(self).tracker.next_id,
                forall|x: int| 0 <= x < n
                    ==> (#[trigger] self.genomes@[x]).conns@ == old(self).genomes@[x].conns@
                        && self.genomes@[x].nodes@ == old(self).genomes@[x].nodes@,
            decreases n - i,
        {
            let outcome = env.evaluate(&self.genomes[i]);
            let f = self.cfg.settle_fitness(outcome);
            let mut g = self.genomes[i].duplicated();
            g.fitness = f;
            self.genomes[i] = g;
            let ghost best0 = best;
            let ghost worst0 = worst;
            if f > best {
                best = f;
            }
            if f < worst {
                worst = f;
            }
            proof {
                assert(sum as int + f as int <= (i + 1) * (best as int)) by (nonlinear_arith)
                    requires
                        sum as int <= i as int * (best0 as int),
                        best0 as int <= best as int,
                        f as int <= best as int,
                        i as int >= 0;
                assert(sum as int + f as int >= (i + 1) * (worst as int)) by (nonlinear_arith)
                    requires
                        sum as int >= i as int * (worst0 as int),
                        worst0 as int >= worst as int,
                        f as int >= worst as int,
                        i as int >= 0;
            }
            sum = sum + f;
            i = i + 1;
        }
        let avg = sum / (n as u64);
        proof {
            assert(avg as int <= best as int) by (nonlinear_arith)
                requires
                    sum as int <= n as int * (best as int),
                    avg as int == sum as int / n as int,
                    n as int >= 1;
            assert(avg as int >= worst as int) by (nonlinear_arith)
                requires
                    sum as int >= n as int * (worst as int),
                    avg as int == sum as int / n as int,
                    n as int >= 1;
        }
        // Speciating
        self.speciate();
        self.adjust_fitness();
        let sc = self.species.len();
        // best raw fitness each species reached this generation
        let mut sbest: Vec<u64> = Vec::new();
        let mut s: usize = 0;
        while s < sc
            invariant
                s <= sc,
                sbest@.len() == s,
            decreases sc - s,
        {
            sbest.push(0);
            s = s + 1;
        }
        let mut j: usize = 0;
        while j < n
            invariant
                j <= n,
                n == self.genomes@.len(),
                n == self.assignment@.len(),
                sc == self.species@.len(),
                sbest@.len() == sc,
                self.wf(),
                forall|x: int| 0 <= x < n ==> (#[trigger] self.assignment@[x]) < sc,
            decreases n - j,
        {
            let sp = self.assignment[j];
            let f = self.genomes[j].fitness;
            if f > sbest[sp] {
                sbest[sp] = f;
            }
            j = j + 1;
        }
        // stagnation bookkeeping
        let mut stagnant: usize = 0;
        let mut upd: Vec<Species> = Vec::new();
        let mut s: usize = 0;
        while s < sc
            invariant
                s <= sc,
                sc == self.species@.len(),
                sbest@.len() == sc,
                upd@.len() == s,
                self.wf(),
                stagnant <= s,
                forall|t: int| 0 <= t < s ==> (#[trigger] upd@[t]).representative.wf(),
            decreases sc - s,
        {
            let rep = self.species[s].representative.duplicated();
            proof {
                assert(rep.wf());
            }
            let prev_best = self.species[s].best_ever;
            let prev_stale = self.species[s].stale;
            let sb = sbest[s];
            let new_best: u64;
            let new_stale: u32;
            if sb > prev_best {
                new_best = sb;
                new_stale = 0;
            } else {
                new_best = prev_best;
                new_stale = if prev_stale < u32::MAX {
                    prev_stale + 1
                } else {
                    prev_stale
                };
            }
            if new_stale >= self.cfg.stagnation_limit {
                stagnant = stagnant + 1;
            }
            let age = self.species[s].age;
            upd.push(Species {
                representative: rep,
                best_ever: new_best,
                stale: new_stale,
                age: if age < u32::MAX {
                    age + 1
                } else {
                    age
                },
            });
            s = s + 1;
        }
        self.species = upd;
        // Reproducing
        let alloc = self.allocate_offspring();
        let ghost bw = choose|b: int| 0 <= b < self.genomes@.len()
            && (forall|j: int| 0 <= j < self.genomes@.len()
                ==> (#[trigger] self.genomes@[j]).adj_fitness
                    <= self.genomes@[b].adj_fitness)
            && alloc@[self.assignment@[b] as int] >= 1
            && (forall|t: int| 0 <= t < alloc@.len() && (#[trigger] alloc@[t]) >= 1
                ==> self.species@[t].stale < self.cfg.stagnation_limit
                    || t == self.assignment@[b] as int);
        let ghost bsp: int = self.assignment@[bw as int] as int;
        let mut newpop: Vec<Genome> = Vec::new();
        let mut next_species: Vec<Species> = Vec::new();
        let mut s: usize = 0;
        proof {
            assert(alloc@.take(0) =~= Seq::<usize>::empty());
            assert(sum_alloc(Seq::<usize>::empty()) == 0);
        }
        while s < sc
            invariant
                s <= sc,
                sc == self.species@.len(),
                sc == alloc@.len(),
                n == self.genomes@.len(),
                n == self.assignment@.len(),
                n <= MAX_POPULATION,
                self.wf(),
                self.cfg == old(self).cfg,
                self.generation == old(self).generation,
                sum_alloc(alloc@) == n,
                forall|t: int| 0 <= t < sc && (#[trigger] alloc@[t]) >= 1
                    ==> exists|x: int| 0 <= x < n && (#[trigger] self.assignment@[x]) as int == t,
                newpop@.len() == sum_alloc(alloc@.take(s as int)),
                newpop@.len() <= n,
                forall|k: int| 0 <= k < newpop@.len() ==> (#[trigger] newpop@[k]).wf(),
                forall|t: int| 0 <= t < next_species@.len()
                    ==> (#[trigger] next_species@[t]).representative.wf(),
                id0 == old(self).tracker.next_id,
                self.tracker.next_id as int <= id0 as int + 3 * newpop@.len(),
                self.tracker.next_id >= id0,
                id0 < u64::MAX - 4_000_000,
                forall|e: int| 0 <= e < self.tracker.entries@.len()
                    ==> id0 <= (#[trigger] self.tracker.entries@[e]).id < self.tracker.next_id,
                forall|k: int| 0 <= k < newpop@.len()
                    ==> genes_known(#[trigger] newpop@[k], self.genomes@,
                            self.tracker.entries@),
                forall|x: int| 0 <= x < n
                    ==> (#[trigger] self.genomes@[x]).conns@ == old(self).genomes@[x].conns@
                        && self.genomes@[x].nodes@ == old(self).genomes@[x].nodes@,
                self.cfg.elitism >= 1 && newpop@.len() >= 1 ==> (exists|jj: int, gg: int|
                    #![auto]
                    0 <= jj < newpop@.len() && 0 <= gg < n
                    && same_structure(newpop@[jj], self.genomes@[gg])),
                forall|t: int| 0 <= t < alloc@.len() && (#[trigger] alloc@[t]) >= 1
                    ==> self.species@[t].stale < self.cfg.stagnation_limit || t == bsp,
                forall|t1: int, t2: int| 0 <= t1 < t2 < next_species@.len()
                    && (#[trigger] next_species@[t1]).stale >= self.cfg.stagnation_limit
                    ==> (#[trigger] next_species@[t2]).stale < self.cfg.stagnation_limit,
                s <= bsp ==> forall|t: int| 0 <= t < next_species@.len()
                    ==> (#[trigger] next_species@[t]).stale < self.cfg.stagnation_limit,
                s > bsp ==> next_species@.len() >= 1,
                0 <= bsp < sc,
                alloc@[bsp] >= 1,
            decreases sc - s,
        {
            let ghost iter_t = self.tracker;
            let ghost pre_newpop = newpop@;
            let count = alloc[s];
            proof {
                lemma_sum_alloc_split(alloc@, s as int + 1);
                lemma_sum_alloc_nonneg(alloc@.skip(s as int + 1));
                assert(alloc@.take(s as int + 1) =~= alloc@.take(s as int).push(alloc@[s as int]));
                lemma_sum_alloc_push(alloc@.take(s as int), alloc@[s as int]);
            }
            if count >= 1 {
                let members = self.collect_members(s);
                proof {
                    let x = choose|x: int| 0 <= x < n
                        && (self.assignment@[x]) as int == s as int;
                    assert(self.assignment@[x] == s);
                    assert(exists|t: int| 0 <= t < members@.len()
                        && (#[trigger] members@[t]) == x);
                }
                self.reproduce_species(&members, count, &mut newpop);
                proof {
                    // the window only grew; carry provenance and id bounds
                    assert(entries_extended(iter_t, self.tracker));
                    assert forall|e: int| 0 <= e < self.tracker.entries@.len()
                        implies id0 <= (#[trigger] self.tracker.entries@[e]).id
                            < self.tracker.next_id by {
                        if e < iter_t.entries@.len() {
                            assert(self.tracker.entries@[e] == iter_t.entries@[e]);
                        }
                    }
                    assert forall|k: int| 0 <= k < newpop@.len()
                        implies genes_known(#[trigger] newpop@[k], self.genomes@,
                            self.tracker.entries@) by {
                        if k < pre_newpop.len() {
                            lemma_genes_known_extended(newpop@[k], self.genomes@, iter_t,
                                self.tracker);
                        }
                    }
                    if self.cfg.elitism >= 1 {
                        if pre_newpop.len() == 0 {
                            let b = choose|b: int| is_best_member(members@, self.genomes@, b)
                                && same_structure(newpop@[pre_newpop.len() as int],
                                    self.genomes@[members@[b] as int]);
                            assert(0 <= members@[b] < n);
                        }
                    }
                }
                let ridx = members[self.rng.below(members.len() as u64) as usize];
                let rep = self.genomes[ridx].duplicated();
                proof {
                    assert(rep.wf());
                }
                next_species.push(Species {
                    representative: rep,
                    best_ever: self.species[s].best_ever,
                    stale: self.species[s].stale,
                    age: self.species[s].age,
                });
                proof {
                    assert(next_species@[next_species@.len() - 1].stale
                        == self.species@[s as int].stale);
                    assert(alloc@[s as int] >= 1);
                }
            }
            s = s + 1;
        }
        proof {
            assert(alloc@.take(sc as int) =~= alloc@);
        }
        let ghost np = newpop@;
        let ghost genomes_mid = self.genomes@;
        let ghost entries_mid = self.tracker.entries@;
        let ghost next_mid = self.tracker.next_id;
        self.genomes = newpop;
        self.species = next_species;
        self.assignment = Vec::new();
        self.tracker.advance_generation();
        self.generation = self.generation + 1;
        proof {
            assert forall|j: int, k: int| 0 <= j < self.genomes@.len()
                && 0 <= k < (#[trigger] self.genomes@[j]).conns@.len()
                implies id_in_pop(old(self).genomes@,
                        (#[trigger] self.genomes@[j].conns@[k]).innovation)
                    || (old(self).tracker.next_id <= self.genomes@[j].conns@[k].innovation
                        < self.tracker.next_id) by {
                let id = self.genomes@[j].conns@[k].innovation;
                assert(genes_known(np[j], genomes_mid, entries_mid));
                if id_in_pop(genomes_mid, id) {
                    let g = choose|g: int| 0 <= g < genomes_mid.len()
                        && (#[trigger] genomes_mid[g]).spec_has_innovation(id);
                    let m = choose|m: int| 0 <= m < genomes_mid[g].conns@.len()
                        && (#[trigger] genomes_mid[g].conns@[m]).innovation == id;
                    assert(old(self).genomes@[g].conns@[m].innovation == id);
                    assert(old(self).genomes@[g].spec_has_innovation(id));
                } else {
                    assert(entry_with_id(entries_mid, id));
                    let e = choose|e: int| 0 <= e < entries_mid.len()
                        && (#[trigger] entries_mid[e]).id == id;
                }
            }
            if self.cfg.elitism >= 1 {
                let (jj, gg) = choose|jj: int, gg: int| #![auto]
                    0 <= jj < np.len() && 0 <= gg < n
                    && same_structure(np[jj], genomes_mid[gg]);
                assert(self.genomes@[jj] == np[jj]);
                assert(genomes_mid[gg].nodes@ == old(self).genomes@[gg].nodes@);
                assert(genomes_mid[gg].conns@ == old(self).genomes@[gg].conns@);
                assert(same_structure(self.genomes@[jj], old(self).genomes@[gg]));
            }
        }
        GenerationReport {
            generation: self.generation,
            species_count: self.species.len(),
            best_fitness: best,
            avg_fitness: avg,
            worst_fitness: worst,
            stagnant_species: stagnant,
        }
    }

    /// A genome no other genome's raw fitness exceeds.
    pub fn best_genome(&self) -> (r: &Genome)
        requires
            self.genomes@.len() >= 1,
        ensures
            exists|i: int| 0 <= i < self.genomes@.len() && *r == self.genomes@[i],
            forall|j: int| 0 <= j < self.genomes@.len()
                ==> (#[trigger] self.genomes@[j]).fitness <= r.fitness,
    {
        let n = self.genomes.len();
        let mut best: usize = 0;
        let mut k: usize = 1;
        while k < n
            invariant
                1 <= k <= n,
                n == self.genomes@.len(),
                best < k,
                forall|j: int| 0 <= j < k
                    ==> (#[trigger] self.genomes@[j]).fitness
                        <= self.genomes@[best as int].fitness,
            decreases n - k,
        {
            if self.genomes[k].fitness > self.genomes[best].fitness {
                best = k;
            }
            k = k + 1;
        }
        &self.genomes[best]
    }
}

} // verus!
