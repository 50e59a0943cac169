//! Genomes: node genes, connection genes ordered by innovation id, the
//! compatibility distance, crossover, and the structural mutations.
use vstd::prelude::*;
use crate::{WEIGHT_LIMIT, FITNESS_LIMIT, PROB_ONE};
use crate::config::Config;
use crate::rng::Rng;
use crate::innovation::{
    InnovationTracker, spec_lookup, entries_extended, entry_with_id,
    lemma_lookup_entry, lemma_entry_with_id_extended, lemma_entries_extended_trans,
};

verus! {

/// Gene lists shorter than this are not normalized by their length in the
/// compatibility distance, to avoid over-penalizing tiny genomes.
pub const SMALL_GENOME: usize = 20;

/// What role a node plays in the network.
#[derive(Clone, Copy, PartialEq, Eq, Structural, Debug)]
pub enum NodeKind {
    Input,
    Output,
    Hidden,
    Bias,
}

/// One node of a genome. `id` is unique within the genome; `activation` is
/// an opaque tag naming the activation function of hidden and output nodes.
#[derive(Clone, Copy, PartialEq, Eq, Structural, Debug)]
pub struct NodeGene {
    pub id: u32,
    pub kind: NodeKind,
    pub activation: u8,
}

/// One connection gene. `innovation` is the global historical marker that
/// aligns genes across genomes; a disabled gene is kept for lineage but
/// contributes nothing to evaluation.
#[derive(Clone, Copy, PartialEq, Eq, Structural, Debug)]
pub struct ConnectionGene {
    pub innovation: u64,
    pub in_node: u32,
    pub out_node: u32,
    pub weight: i64,
    pub enabled: bool,
}

/// A candidate network: nodes, connections sorted by ascending innovation
/// id, and the fitness values of the current generation.
#[derive(Clone, PartialEq, Debug)]
pub struct Genome {
    pub nodes: Vec<NodeGene>,
    pub conns: Vec<ConnectionGene>,
    /// Raw fitness, as last reported by the evaluator.
    pub fitness: u64,
    /// Fitness after sharing: raw fitness divided by species size.
    pub adj_fitness: u64,
}

/// Absolute difference of two weights, as a mathematical integer.
pub open spec fn weight_diff(a: i64, b: i64) -> int {
    if a >= b { a - b } else { b - a }
}

/// Alignment counts of two innovation-sorted gene lists, consumed from the
/// front: (matching, disjoint, excess, summed weight difference of matching
/// genes). Genes left over once one list is exhausted are the excess.
pub open spec fn gene_counts(a: Seq<ConnectionGene>, b: Seq<ConnectionGene>) -> (int, int, int, int)
    decreases a.len() + b.len(),
{
    if a.len() == 0 && b.len() == 0 {
        (0int, 0int, 0int, 0int)
    } else if a.len() == 0 {
        (0int, 0int, b.len() as int, 0int)
    } else if b.len() == 0 {
        (0int, 0int, a.len() as int, 0int)
    } else if a[0].innovation == b[0].innovation {
        let r = gene_counts(a.skip(1), b.skip(1));
        (r.0 + 1, r.1, r.2, r.3 + weight_diff(a[0].weight, b[0].weight))
    } else if a[0].innovation < b[0].innovation {
        let r = gene_counts(a.skip(1), b);
        (r.0, r.1 + 1, r.2, r.3)
    } else {
        let r = gene_counts(a, b.skip(1));
        (r.0, r.1 + 1, r.2, r.3)
    }
}

/// The normalization factor of the compatibility distance: the larger gene
/// count, or 1 for small genomes.
pub open spec fn spec_n_factor(alen: nat, blen: nat) -> int {
    let n = if alen >= blen { alen } else { blen };
    if n < SMALL_GENOME { 1 } else { n as int }
}

/// The compatibility distance of two genomes, as a mathematical integer.
pub open spec fn spec_distance(a: Genome, b: Genome, c1: u64, c2: u64, c3: u64) -> int {
    let counts = gene_counts(a.conns@, b.conns@);
    let n = spec_n_factor(a.conns@.len(), b.conns@.len());
    c1 * counts.2 / n + c2 * counts.1 / n
        + c3 * (if counts.0 == 0 { 0int } else { counts.3 / counts.0 })
}

/// Swapping the two gene lists swaps nothing: every alignment count is
/// symmetric.
pub proof fn lemma_gene_counts_sym(a: Seq<ConnectionGene>, b: Seq<ConnectionGene>)
    ensures
        gene_counts(a, b) == gene_counts(b, a),
    decreases a.len() + b.len(),
{
    if a.len() == 0 || b.len() == 0 {
    } else if a[0].innovation == b[0].innovation {
        lemma_gene_counts_sym(a.skip(1), b.skip(1));
    } else if a[0].innovation < b[0].innovation {
        lemma_gene_counts_sym(a.skip(1), b);
    } else {
        lemma_gene_counts_sym(a, b.skip(1));
    }
}

/// Aligning a gene list against itself leaves every gene matching, with no
/// disjoint or excess genes and no weight difference.
pub proof fn lemma_gene_counts_self(s: Seq<ConnectionGene>)
    ensures
        gene_counts(s, s) == (s.len() as int, 0int, 0int, 0int),
    decreases s.len(),
{
    if s.len() > 0 {
        lemma_gene_counts_self(s.skip(1));
    }
}

/// Two genomes with identical gene lists are at distance zero; a freshly
/// founded species is therefore within any threshold of its
/// representative.
pub proof fn lemma_distance_zero_same_conns(a: Genome, b: Genome, c1: u64, c2: u64, c3: u64)
    requires
        a.conns@ == b.conns@,
    ensures
        spec_distance(a, b, c1, c2, c3) == 0,
{
    lemma_gene_counts_self(a.conns@);
    let counts = gene_counts(a.conns@, b.conns@);
    let n = spec_n_factor(a.conns@.len(), b.conns@.len());
    assert(n >= 1);
    assert(counts.2 == 0 && counts.1 == 0 && counts.3 == 0);
    vstd::arithmetic::div_mod::lemma_div_basics(n);
    assert(c1 * counts.2 == 0);
    assert(c2 * counts.1 == 0);
    if counts.0 != 0 {
        vstd::arithmetic::div_mod::lemma_div_basics(counts.0);
        assert(counts.3 / counts.0 == 0);
    }
    assert(c1 * counts.2 / n == 0);
    assert(c2 * counts.1 / n == 0);
    let t = if counts.0 == 0 { 0int } else { counts.3 / counts.0 };
    assert(t == 0);
    assert(c3 * t == 0) by (nonlinear_arith)
        requires t == 0;
}

/// A genome is at distance zero from itself.
pub proof fn lemma_distance_self(g: Genome, c1: u64, c2: u64, c3: u64)
    ensures
        spec_distance(g, g, c1, c2, c3) == 0,
{
    lemma_distance_zero_same_conns(g, g, c1, c2, c3);
}

/// The compatibility distance is symmetric.
pub proof fn lemma_distance_sym(a: Genome, b: Genome, c1: u64, c2: u64, c3: u64)
    ensures
        spec_distance(a, b, c1, c2, c3) == spec_distance(b, a, c1, c2, c3),
{
    lemma_gene_counts_sym(a.conns@, b.conns@);
}

/// Some node of the list carries this id.
pub open spec fn nodes_contain(nodes: Seq<NodeGene>, id: u32) -> bool {
    exists|k: int| 0 <= k < nodes.len() && (#[trigger] nodes[k]).id == id
}

/// The gene is one of the genome's genes, up to its enabled flag: same
/// innovation id, endpoints and weight.
pub open spec fn spec_gene_from(g: Genome, c: ConnectionGene) -> bool {
    exists|k: int| 0 <= k < g.conns@.len()
        && (#[trigger] g.conns@[k]).innovation == c.innovation
        && g.conns@[k].in_node == c.in_node
        && g.conns@[k].out_node == c.out_node
        && g.conns@[k].weight == c.weight
}

impl Genome {
    /// Some node of the genome carries this id.
    pub open spec fn spec_has_node(self, id: u32) -> bool {
        nodes_contain(self.nodes@, id)
    }

    /// Some connection of the genome carries this innovation id.
    pub open spec fn spec_has_innovation(self, id: u64) -> bool {
        exists|k: int| 0 <= k < self.conns@.len() && (#[trigger] self.conns@[k]).innovation == id
    }

    /// A connection from `i` to `o` exists (enabled or not).
    pub open spec fn spec_connected(self, i: u32, o: u32) -> bool {
        exists|k: int| 0 <= k < self.conns@.len()
            && (#[trigger] self.conns@[k]).in_node == i && self.conns@[k].out_node == o
    }

    /// Structural well-formedness: node ids unique, connections strictly
    /// sorted by innovation id (hence unique), every endpoint present,
    /// weights and fitness within their caps.
    pub open spec fn wf(self) -> bool {
        &&& forall|p: int, q: int| 0 <= p < q < self.nodes@.len()
                ==> (#[trigger] self.nodes@[p]).id != (#[trigger] self.nodes@[q]).id
        &&& forall|p: int, q: int| 0 <= p < q < self.conns@.len()
                ==> (#[trigger] self.conns@[p]).innovation < (#[trigger] self.conns@[q]).innovation
        &&& forall|k: int| 0 <= k < self.conns@.len()
                ==> self.spec_has_node((#[trigger] self.conns@[k]).in_node)
                    && self.spec_has_node(self.conns@[k].out_node)
        &&& forall|k: int| 0 <= k < self.conns@.len()
                ==> -WEIGHT_LIMIT <= (#[trigger] self.conns@[k]).weight <= WEIGHT_LIMIT
        &&& self.fitness <= FITNESS_LIMIT
        &&& self.adj_fitness <= FITNESS_LIMIT
    }

    /// Whether a node with the given id exists.
    pub fn has_node(&self, id: u32) -> (r: bool)
        ensures
            r == self.spec_has_node(id),
    {
        let n = self.nodes.len();
        let mut k: usize = 0;
        while k < n
            invariant
                n == self.nodes@.len(),
                k <= n,
                forall|j: int| 0 <= j < k ==> (#[trigger] self.nodes@[j]).id != id,
            decreases n - k,
        {
            if self.nodes[k].id == id {
                return true;
            }
            k = k + 1;
        }
        false
    }

    /// Whether a connection with the given innovation id exists.
    pub fn has_innovation(&self, id: u64) -> (r: bool)
        ensures
            r == self.spec_has_innovation(id),
    {
        let n = self.conns.len();
        let mut k: usize = 0;
        while k < n
            invariant
                n == self.conns@.len(),
                k <= n,
                forall|j: int| 0 <= j < k ==> (#[trigger] self.conns@[j]).innovation != id,
            decreases n - k,
        {
            if self.conns[k].innovation == id {
                return true;
            }
            k = k + 1;
        }
        false
    }

    /// The compatibility distance to another genome:
    /// `c1 * excess / N + c2 * disjoint / N + c3 * avg_weight_diff`, with
    /// `N` the length of the larger gene list (1 for small genomes) and the
    /// average taken over matching genes. This is the sole measure used for
    /// speciation.
    pub fn compatibility_distance(&self, other: &Genome, cfg: &Config) -> (r: u64)
        requires
            self.wf(),
            other.wf(),
            cfg.valid(),
        ensures
            r == spec_distance(*self, *other, cfg.c1, cfg.c2, cfg.c3),
    {
        let alen = self.conns.len();
        let blen = other.conns.len();
        let mut i: usize = 0;
        let mut j: usize = 0;
        let mut matching: u128 = 0;
        let mut disjoint: u128 = 0;
        let mut wsum: u128 = 0;
        let ghost total = gene_counts(self.conns@, other.conns@);
        proof {
            assert(self.conns@.skip(0) =~= self.conns@);
            assert(other.conns@.skip(0) =~= other.conns@);
        }
        while i < alen && j < blen
            invariant
                i <= alen,
                j <= blen,
                matching <= i,
                matching <= j,
                disjoint <= i + j,
                wsum as int <= matching as int * 2_000_000,
                total.0 == matching + gene_counts(self.conns@.skip(i as int), other.conns@.skip(j as int)).0,
                total.1 == disjoint + gene_counts(self.conns@.skip(i as int), other.conns@.skip(j as int)).1,
                total.2 == gene_counts(self.conns@.skip(i as int), other.conns@.skip(j as int)).2,
                total.3 == wsum + gene_counts(self.conns@.skip(i as int), other.conns@.skip(j as int)).3,
            decreases alen - i + blen - j,
        {
            let ca = self.conns[i];
            let cb = other.conns[j];
            proof {
                let sa = self.conns@.skip(i as int);
                let sb = other.conns@.skip(j as int);
                assert(sa[0] == self.conns@[i as int]);
                assert(sb[0] == other.conns@[j as int]);
                assert(sa.skip(1) =~= self.conns@.skip(i as int + 1));
                assert(sb.skip(1) =~= other.conns@.skip(j as int + 1));
            }
            if ca.innovation == cb.innovation {
                let diff: i64 = if ca.weight >= cb.weight {
                    ca.weight - cb.weight
                } else {
                    cb.weight - ca.weight
                };
                proof {
                    assert(wsum as int + diff as int <= (matching as int + 1) * 2_000_000
                        && wsum as int + diff as int <= 0xFFFF_FFFF_FFFF_FFFF * 2_000_000 + 2_000_000)
                        by (nonlinear_arith)
                        requires
                            wsum as int <= matching as int * 2_000_000,
                            matching as int <= 0xFFFF_FFFF_FFFF_FFFF,
                            diff as int <= 2_000_000;
                }
                wsum = wsum + (diff as u128);
                matching = matching + 1;
                i = i + 1;
                j = j + 1;
            } else if ca.innovation < cb.innovation {
                disjoint = disjoint + 1;
                i = i + 1;
            } else {
                disjoint = disjoint + 1;
                j = j + 1;
            }
        }
        let rest: usize = (alen - i) + (blen - j);
        proof {
            let sa = self.conns@.skip(i as int);
            let sb = other.conns@.skip(j as int);
            if sa.len() == 0 && sb.len() == 0 {
                assert(gene_counts(sa, sb) == (0int, 0int, 0int, 0int));
            } else if sa.len() == 0 {
                assert(gene_counts(sa, sb) == (0int, 0int, sb.len() as int, 0int));
            } else {
                assert(gene_counts(sa, sb) == (0int, 0int, sa.len() as int, 0int));
            }
        }
        let excess: u128 = rest as u128;
        let n1: usize = if alen >= blen { alen } else { blen };
        let nf: u64 = if n1 < SMALL_GENOME { 1 } else { n1 as u64 };
        proof {
            {
                assert((cfg.c1 as int) * (excess as int) <= 1_000_000 * 0x1_0000_0000_0000_0000)
                    by (nonlinear_arith)
                    requires cfg.c1 <= 1_000_000, excess as int <= 0x1_0000_0000_0000_0000;
            }
            {
                assert((cfg.c2 as int) * (disjoint as int) <= 1_000_000 * 0x2_0000_0000_0000_0000)
                    by (nonlinear_arith)
                    requires cfg.c2 <= 1_000_000, disjoint as int <= 0x2_0000_0000_0000_0000;
            }
        }
        let t1: u128 = (cfg.c1 as u128) * excess / (nf as u128);
        let t2: u128 = (cfg.c2 as u128) * disjoint / (nf as u128);
        let avg: u128 = if matching == 0 { 0 } else { wsum / matching };
        proof {
            if matching > 0 {
                {
                    assert(wsum as int / matching as int <= 2_000_000) by (nonlinear_arith)
                        requires matching as int > 0, wsum as int <= matching as int * 2_000_000;
                }
            }
            assert(avg <= 2_000_000);
            if nf == 1 {
                {
                    assert(t1 as int <= 1_000_000 * 20) by (nonlinear_arith)
                        requires
                            t1 as int == (cfg.c1 as int) * (excess as int) / 1,
                            cfg.c1 <= 1_000_000,
                            (excess as int) < 20;
                }
                {
                    assert(t2 as int <= 1_000_000 * 40) by (nonlinear_arith)
                        requires
                            t2 as int == (cfg.c2 as int) * (disjoint as int) / 1,
                            cfg.c2 <= 1_000_000,
                            (disjoint as int) < 40;
                }
            } else {
                {
                    assert(t1 as int <= 1_000_000) by (nonlinear_arith)
                        requires
                            t1 as int == (cfg.c1 as int) * (excess as int) / (nf as int),
                            cfg.c1 <= 1_000_000,
                            excess as int <= nf as int,
                            nf as int >= 1;
                }
                {
                    assert(t2 as int <= 2_000_000) by (nonlinear_arith)
                        requires
                            t2 as int == (cfg.c2 as int) * (disjoint as int) / (nf as int),
                            cfg.c2 <= 1_000_000,
                            disjoint as int <= 2 * (nf as int),
                            nf as int >= 1;
                }
            }
            {
                assert((cfg.c3 as int) * (avg as int) <= 2_000_000_000_000) by (nonlinear_arith)
                    requires cfg.c3 <= 1_000_000, avg as int <= 2_000_000;
            }
        }
        let t3: u128 = (cfg.c3 as u128) * avg;
        let r128: u128 = t1 + t2 + t3;
        r128 as u64
    }

    /// Whether a connection from `i` to `o` exists, enabled or not.
    pub fn connected(&self, i: u32, o: u32) -> (r: bool)
        ensures
            r == self.spec_connected(i, o),
    {
        let n = self.conns.len();
        let mut k: usize = 0;
        while k < n
            invariant
                n == self.conns@.len(),
                k <= n,
                forall|j: int| 0 <= j < k
                    ==> !((#[trigger] self.conns@[j]).in_node == i && self.conns@[j].out_node == o),
            decreases n - k,
        {
            let c = self.conns[k];
            if c.in_node == i && c.out_node == o {
                return true;
            }
            k = k + 1;
        }
        false
    }

    /// A structurally identical copy: same genes, same weights, same
    /// fitness values.
    pub fn duplicated(&self) -> (r: Genome)
        ensures
            r.nodes@ == self.nodes@,
            r.conns@ == self.conns@,
            r.fitness == self.fitness,
            r.adj_fitness == self.adj_fitness,
    {
        let nodes = self.nodes.clone();
        let conns = self.conns.clone();
        proof {
            assert(nodes@ =~= self.nodes@);
            assert(conns@ =~= self.conns@);
        }
        Genome { nodes, conns, fitness: self.fitness, adj_fitness: self.adj_fitness }
    }

    /// The node gene carrying `id`, if any.
    pub fn find_node(&self, id: u32) -> (r: Option<NodeGene>)
        ensures
            match r {
                Some(nd) => nd.id == id && exists|k: int|
                    0 <= k < self.nodes@.len() && self.nodes@[k] == nd,
                None => !nodes_contain(self.nodes@, id),
            },
    {
        let n = self.nodes.len();
        let mut k: usize = 0;
        while k < n
            invariant
                n == self.nodes@.len(),
                k <= n,
                forall|j: int| 0 <= j < k ==> (#[trigger] self.nodes@[j]).id != id,
            decreases n - k,
        {
            if self.nodes[k].id == id {
                return Some(self.nodes[k]);
            }
            k = k + 1;
        }
        None
    }

    /// Recombines two aligned parents. Matching genes come from a uniformly
    /// random parent (weight and enabled flag together, with a configured
    /// chance of staying disabled when either parent has the gene disabled);
    /// disjoint and excess genes come from the fitter parent, or from a
    /// random parent on equal raw fitness. The offspring's node set is the
    /// union of the nodes its inherited connections reference.
    #[verifier::rlimit(100)]
    pub fn crossover(&self, other: &Genome, rng: &mut Rng, cfg: &Config) -> (child: Genome)
        requires
            self.wf(),
            other.wf(),
            cfg.valid(),
        ensures
            child.wf(),
            forall|k: int| 0 <= k < child.conns@.len()
                ==> self.spec_has_innovation((#[trigger] child.conns@[k]).innovation)
                    || other.spec_has_innovation(child.conns@[k].innovation),
            forall|k: int| 0 <= k < child.conns@.len()
                ==> spec_gene_from(*self, #[trigger] child.conns@[k])
                    || spec_gene_from(*other, child.conns@[k]),
            forall|k: int| 0 <= k < self.conns@.len()
                && other.spec_has_innovation((#[trigger] self.conns@[k]).innovation)
                ==> child.spec_has_innovation(self.conns@[k].innovation),
            self.fitness > other.fitness ==> (forall|k: int| 0 <= k < child.conns@.len()
                    ==> self.spec_has_innovation((#[trigger] child.conns@[k]).innovation))
                && (forall|k: int| 0 <= k < self.conns@.len()
                    ==> child.spec_has_innovation((#[trigger] self.conns@[k]).innovation)),
            other.fitness > self.fitness ==> (forall|k: int| 0 <= k < child.conns@.len()
                    ==> other.spec_has_innovation((#[trigger] child.conns@[k]).innovation))
                && (forall|k: int| 0 <= k < other.conns@.len()
                    ==> child.spec_has_innovation((#[trigger] other.conns@[k]).innovation)),
            forall|p: int| 0 <= p < child.nodes@.len()
                ==> node_is_endpoint(#[trigger] child.nodes@[p], child.conns@),
            child.fitness == 0,
            child.adj_fitness == 0,
    {
        // 0: this genome is fitter; 1: the other is; 2: equal fitness,
        // disjoint and excess genes decided by a coin per gene.
        let fitter: u8 = if self.fitness > other.fitness {
            0
        } else if self.fitness < other.fitness {
            1
        } else {
            2
        };
        let alen = self.conns.len();
        let blen = other.conns.len();
        let mut conns: Vec<ConnectionGene> = Vec::new();
        let mut i: usize = 0;
        let mut j: usize = 0;
        while i < alen && j < blen
            invariant
                i <= alen,
                j <= blen,
                forall|p: int, q: int| 0 <= p < q < conns@.len()
                    ==> (#[trigger] conns@[p]).innovation < (#[trigger] conns@[q]).innovation,
                forall|k: int| 0 <= k < conns@.len()
                    ==> spec_gene_from(*self, #[trigger] conns@[k])
                        || spec_gene_from(*other, conns@[k]),
                forall|k: int| 0 <= k < conns@.len() ==> i < alen
                    ==> (#[trigger] conns@[k]).innovation < self.conns@[i as int].innovation,
                forall|k: int| 0 <= k < conns@.len() ==> j < blen
                    ==> (#[trigger] conns@[k]).innovation < other.conns@[j as int].innovation,
                forall|k: int| 0 <= k < conns@.len()
                    ==> -WEIGHT_LIMIT <= (#[trigger] conns@[k]).weight <= WEIGHT_LIMIT,
                i < alen ==> forall|x: int| 0 <= x < j
                    ==> (#[trigger] other.conns@[x]).innovation < self.conns@[i as int].innovation,
                j < blen ==> forall|x: int| 0 <= x < i
                    ==> (#[trigger] self.conns@[x]).innovation < other.conns@[j as int].innovation,
                forall|x: int| 0 <= x < i
                    && other.spec_has_innovation((#[trigger] self.conns@[x]).innovation)
                    ==> conns_have_id(conns@, self.conns@[x].innovation),
                fitter == 0 ==> forall|m: int| 0 <= m < conns@.len()
                    ==> self.spec_has_innovation((#[trigger] conns@[m]).innovation),
                fitter == 0 ==> forall|x: int| 0 <= x < i
                    ==> conns_have_id(conns@, (#[trigger] self.conns@[x]).innovation),
                fitter == 1 ==> forall|m: int| 0 <= m < conns@.len()
                    ==> other.spec_has_innovation((#[trigger] conns@[m]).innovation),
                fitter == 1 ==> forall|x: int| 0 <= x < j
                    ==> conns_have_id(conns@, (#[trigger] other.conns@[x]).innovation),
            decreases alen - i + blen - j,
        {
            let ca = self.conns[i];
            let cb = other.conns[j];
            if ca.innovation == cb.innovation {
                let side = rng.below(2);
                let mut gene = if side == 0 { ca } else { cb };
                if !ca.enabled || !cb.enabled {
                    gene.enabled = !rng.chance(cfg.p_inherit_disabled, PROB_ONE);
                }
                let ghost pre_push = conns@;
                conns.push(gene);
                proof {
                    assert forall|idq: u64| conns_have_id(pre_push, idq)
                        implies conns_have_id(conns@, idq) by {
                        let m = choose|m: int| 0 <= m < pre_push.len()
                            && (#[trigger] pre_push[m]).innovation == idq;
                        assert(conns@[m] == pre_push[m]);
                    }
                    assert(conns@[conns@.len() - 1].innovation == ca.innovation);
                    assert(self.spec_has_innovation(ca.innovation));
                    assert(other.spec_has_innovation(cb.innovation));
                }
                i = i + 1;
                j = j + 1;
            } else if ca.innovation < cb.innovation {
                proof {
                    // this gene of self has no counterpart in other
                    assert(!other.spec_has_innovation(ca.innovation)) by {
                        if other.spec_has_innovation(ca.innovation) {
                            let w = choose|w: int| 0 <= w < other.conns@.len()
                                && (#[trigger] other.conns@[w]).innovation == ca.innovation;
                            if w < j {
                                assert(other.conns@[w].innovation
                                    < self.conns@[i as int].innovation);
                            } else {
                                assert(other.conns@[j as int].innovation
                                    <= other.conns@[w].innovation);
                            }
                        }
                    }
                }
                let take = fitter == 0 || (fitter == 2 && rng.below(2) == 0);
                if take {
                    let ghost pre_push = conns@;
                    conns.push(ca);
                    proof {
                        assert forall|idq: u64| conns_have_id(pre_push, idq)
                            implies conns_have_id(conns@, idq) by {
                            let m = choose|m: int| 0 <= m < pre_push.len()
                                && (#[trigger] pre_push[m]).innovation == idq;
                            assert(conns@[m] == pre_push[m]);
                        }
                        assert(conns@[conns@.len() - 1].innovation == ca.innovation);
                        assert(self.spec_has_innovation(ca.innovation));
                    }
                }
                i = i + 1;
            } else {
                let take = fitter == 1 || (fitter == 2 && rng.below(2) == 0);
                if take {
                    let ghost pre_push = conns@;
                    conns.push(cb);
                    proof {
                        assert forall|idq: u64| conns_have_id(pre_push, idq)
                            implies conns_have_id(conns@, idq) by {
                            let m = choose|m: int| 0 <= m < pre_push.len()
                                && (#[trigger] pre_push[m]).innovation == idq;
                            assert(conns@[m] == pre_push[m]);
                        }
                        assert(conns@[conns@.len() - 1].innovation == cb.innovation);
                        assert(other.spec_has_innovation(cb.innovation));
                    }
                }
                j = j + 1;
            }
        }
        let take_a_tail = fitter == 0 || fitter == 2;
        while i < alen
            invariant
                i <= alen,
                j == blen || i == alen,
                forall|p: int, q: int| 0 <= p < q < conns@.len()
                    ==> (#[trigger] conns@[p]).innovation < (#[trigger] conns@[q]).innovation,
                forall|k: int| 0 <= k < conns@.len()
                    ==> spec_gene_from(*self, #[trigger] conns@[k])
                        || spec_gene_from(*other, conns@[k]),
                forall|k: int| 0 <= k < conns@.len() ==> i < alen
                    ==> (#[trigger] conns@[k]).innovation < self.conns@[i as int].innovation,
                forall|k: int| 0 <= k < conns@.len() ==> j < blen
                    ==> (#[trigger] conns@[k]).innovation < other.conns@[j as int].innovation,
                forall|k: int| 0 <= k < conns@.len()
                    ==> -WEIGHT_LIMIT <= (#[trigger] conns@[k]).weight <= WEIGHT_LIMIT,
                i < alen ==> forall|x: int| 0 <= x < blen
                    ==> (#[trigger] other.conns@[x]).innovation < self.conns@[i as int].innovation,
                forall|x: int| 0 <= x < i
                    && other.spec_has_innovation((#[trigger] self.conns@[x]).innovation)
                    ==> conns_have_id(conns@, self.conns@[x].innovation),
                fitter == 0 ==> forall|m: int| 0 <= m < conns@.len()
                    ==> self.spec_has_innovation((#[trigger] conns@[m]).innovation),
                fitter == 0 ==> forall|x: int| 0 <= x < i
                    ==> conns_have_id(conns@, (#[trigger] self.conns@[x]).innovation),
                fitter == 1 ==> forall|m: int| 0 <= m < conns@.len()
                    ==> other.spec_has_innovation((#[trigger] conns@[m]).innovation),
                fitter == 1 ==> forall|x: int| 0 <= x < j
                    ==> conns_have_id(conns@, (#[trigger] other.conns@[x]).innovation),
            decreases alen - i,
        {
            let ca = self.conns[i];
            proof {
                assert(!other.spec_has_innovation(ca.innovation)) by {
                    if other.spec_has_innovation(ca.innovation) {
                        let w = choose|w: int| 0 <= w < other.conns@.len()
                            && (#[trigger] other.conns@[w]).innovation == ca.innovation;
                        assert(other.conns@[w].innovation < self.conns@[i as int].innovation);
                    }
                }
            }
            let take = take_a_tail && (fitter == 0 || rng.below(2) == 0);
            if take {
                let ghost pre_push = conns@;
                conns.push(ca);
                proof {
                    assert forall|idq: u64| conns_have_id(pre_push, idq)
                        implies conns_have_id(conns@, idq) by {
                        let m = choose|m: int| 0 <= m < pre_push.len()
                            && (#[trigger] pre_push[m]).innovation == idq;
                        assert(conns@[m] == pre_push[m]);
                    }
                    assert(conns@[conns@.len() - 1].innovation == ca.innovation);
                    assert(self.spec_has_innovation(ca.innovation));
                }
            }
            i = i + 1;
        }
        while j < blen
            invariant
                j <= blen,
                i == alen,
                forall|p: int, q: int| 0 <= p < q < conns@.len()
                    ==> (#[trigger] conns@[p]).innovation < (#[trigger] conns@[q]).innovation,
                forall|k: int| 0 <= k < conns@.len()
                    ==> spec_gene_from(*self, #[trigger] conns@[k])
                        || spec_gene_from(*other, conns@[k]),
                forall|k: int| 0 <= k < conns@.len() ==> j < blen
                    ==> (#[trigger] conns@[k]).innovation < other.conns@[j as int].innovation,
                forall|k: int| 0 <= k < conns@.len()
                    ==> -WEIGHT_LIMIT <= (#[trigger] conns@[k]).weight <= WEIGHT_LIMIT,
                forall|x: int| 0 <= x < alen
                    && other.spec_has_innovation((#[trigger] self.conns@[x]).innovation)
                    ==> conns_have_id(conns@, self.conns@[x].innovation),
                fitter == 0 ==> forall|m: int| 0 <= m < conns@.len()
                    ==> self.spec_has_innovation((#[trigger] conns@[m]).innovation),
                fitter == 0 ==> forall|x: int| 0 <= x < alen
                    ==> conns_have_id(conns@, (#[trigger] self.conns@[x]).innovation),
                fitter == 1 ==> forall|m: int| 0 <= m < conns@.len()
                    ==> other.spec_has_innovation((#[trigger] conns@[m]).innovation),
                fitter == 1 ==> forall|x: int| 0 <= x < j
                    ==> conns_have_id(conns@, (#[trigger] other.conns@[x]).innovation),
            decreases blen - j,
        {
            let cb = other.conns[j];
            let take = fitter == 1 || (fitter == 2 && rng.below(2) == 0);
            if take {
                let ghost pre_push = conns@;
                conns.push(cb);
                proof {
                    assert forall|idq: u64| conns_have_id(pre_push, idq)
                        implies conns_have_id(conns@, idq) by {
                        let m = choose|m: int| 0 <= m < pre_push.len()
                            && (#[trigger] pre_push[m]).innovation == idq;
                        assert(conns@[m] == pre_push[m]);
                    }
                    assert(conns@[conns@.len() - 1].innovation == cb.innovation);
                    assert(other.spec_has_innovation(cb.innovation));
                }
            }
            j = j + 1;
        }
        let nodes = collect_nodes(self, other, &conns);
        let child = Genome { nodes, conns, fitness: 0, adj_fitness: 0 };
        proof {
            assert forall|k: int| 0 <= k < child.conns@.len()
                implies self.spec_has_innovation((#[trigger] child.conns@[k]).innovation)
                    || other.spec_has_innovation(child.conns@[k].innovation) by {
                assert(spec_gene_from(*self, child.conns@[k])
                    || spec_gene_from(*other, child.conns@[k]));
            }
            assert forall|k: int| 0 <= k < self.conns@.len()
                && other.spec_has_innovation((#[trigger] self.conns@[k]).innovation)
                implies child.spec_has_innovation(self.conns@[k].innovation) by {
                assert(conns_have_id(child.conns@, self.conns@[k].innovation));
                let m = choose|m: int| 0 <= m < child.conns@.len()
                    && (#[trigger] child.conns@[m]).innovation == self.conns@[k].innovation;
            }
            if self.fitness > other.fitness {
                assert(fitter == 0);
                assert forall|k: int| 0 <= k < self.conns@.len()
                    implies child.spec_has_innovation((#[trigger] self.conns@[k]).innovation) by {
                    assert(conns_have_id(child.conns@, self.conns@[k].innovation));
                    let m = choose|m: int| 0 <= m < child.conns@.len()
                        && (#[trigger] child.conns@[m]).innovation == self.conns@[k].innovation;
                }
            }
            if other.fitness > self.fitness {
                assert(fitter == 1);
                assert forall|k: int| 0 <= k < other.conns@.len()
                    implies child.spec_has_innovation((#[trigger] other.conns@[k]).innovation) by {
                    assert(conns_have_id(child.conns@, other.conns@[k].innovation));
                    let m = choose|m: int| 0 <= m < child.conns@.len()
                        && (#[trigger] child.conns@[m]).innovation == other.conns@[k].innovation;
                }
            }
        }
        child
    }
}

/// Largest nudge a weight perturbation applies, in fixed-point units.
pub const PERTURB_DELTA: i64 = 100;

/// Fresh random weights are drawn uniformly from this symmetric range.
pub const WEIGHT_INIT_RANGE: i64 = 4000;

/// Strictly ascending innovation ids.
pub open spec fn sorted_strict(s: Seq<ConnectionGene>) -> bool {
    forall|p: int, q: int| 0 <= p < q < s.len()
        ==> (#[trigger] s[p]).innovation < (#[trigger] s[q]).innovation
}

/// Inserts a gene with a fresh innovation id at its sorted position.
fn insert_sorted(conns: &mut Vec<ConnectionGene>, c: ConnectionGene)
    requires
        sorted_strict(old(conns)@),
        forall|k: int| 0 <= k < old(conns)@.len()
            ==> (#[trigger] old(conns)@[k]).innovation != c.innovation,
    ensures
        final(conns)@.len() == old(conns)@.len() + 1,
        sorted_strict(final(conns)@),
        exists|p: int| 0 <= p <= old(conns)@.len()
            && final(conns)@ == old(conns)@.insert(p, c),
{
    let n = conns.len();
    let mut p: usize = 0;
    while p < n && conns[p].innovation < c.innovation
        invariant
            p <= n,
            forall|j: int| 0 <= j < p ==> (#[trigger] conns@[j]).innovation < c.innovation,
            *conns == *old(conns),
        decreases n - p,
    {
        p = p + 1;
    }
    proof {
        assert(forall|j: int| p <= j < conns@.len()
            ==> c.innovation < (#[trigger] conns@[j]).innovation);
    }
    let ghost pre = conns@;
    conns.insert(p, c);
    proof {
        pre.insert_ensures(p as int, c);
        assert(conns@ == pre.insert(p as int, c));
        assert forall|u: int, v: int| 0 <= u < v < conns@.len()
            implies (#[trigger] conns@[u]).innovation < (#[trigger] conns@[v]).innovation by {
            if u < p && v < p {
            } else if u < p && v == p {
            } else if u == p && v > p {
                assert(conns@[v] == pre[v - 1]);
            } else if u < p && v > p {
                assert(conns@[v] == pre[v - 1]);
            } else {
                assert(conns@[u] == pre[u - 1]);
                assert(conns@[v] == pre[v - 1]);
            }
        }
    }
}

impl Genome {
    /// The largest node id in the genome.
    fn max_node_id(&self) -> (r: u32)
        requires
            self.nodes@.len() > 0,
        ensures
            forall|k: int| 0 <= k < self.nodes@.len() ==> (#[trigger] self.nodes@[k]).id <= r,
            self.spec_has_node(r),
    {
        let n = self.nodes.len();
        let mut r: u32 = self.nodes[0].id;
        let mut k: usize = 1;
        proof {
            assert(self.nodes@[0].id == r);
        }
        while k < n
            invariant
                1 <= k <= n,
                forall|j: int| 0 <= j < k ==> (#[trigger] self.nodes@[j]).id <= r,
                self.spec_has_node(r),
            decreases n - k,
        {
            if self.nodes[k].id > r {
                r = self.nodes[k].id;
                proof {
                    assert(self.nodes@[k as int].id == r);
                }
            }
            k = k + 1;
        }
        r
    }

    /// Nudges or replaces the weight of each enabled connection at the
    /// configured rates. The structure of the genome — nodes, innovation
    /// ids, endpoints, enabled flags — is untouched.
    pub fn mutate_weights(&mut self, rng: &mut Rng, cfg: &Config)
        requires
            old(self).wf(),
            cfg.valid(),
        ensures
            final(self).wf(),
            final(self).nodes@ == old(self).nodes@,
            final(self).fitness == old(self).fitness,
            final(self).adj_fitness == old(self).adj_fitness,
            final(self).conns@.len() == old(self).conns@.len(),
            forall|k: int| 0 <= k < final(self).conns@.len()
                ==> (#[trigger] final(self).conns@[k]).innovation == old(self).conns@[k].innovation
                    && final(self).conns@[k].in_node == old(self).conns@[k].in_node
                    && final(self).conns@[k].out_node == old(self).conns@[k].out_node
                    && final(self).conns@[k].enabled == old(self).conns@[k].enabled,
            forall|k: int| 0 <= k < final(self).conns@.len()
                ==> (old(self).conns@[k].weight - PERTURB_DELTA
                        <= (#[trigger] final(self).conns@[k]).weight
                        <= old(self).conns@[k].weight + PERTURB_DELTA)
                    || (-WEIGHT_INIT_RANGE <= final(self).conns@[k].weight <= WEIGHT_INIT_RANGE),
    {
        let n = self.conns.len();
        let mut k: usize = 0;
        while k < n
            invariant
                k <= n,
                n == self.conns@.len(),
                self.nodes@ == old(self).nodes@,
                self.fitness == old(self).fitness,
                self.adj_fitness == old(self).adj_fitness,
                self.conns@.len() == old(self).conns@.len(),
                forall|j: int| 0 <= j < n
                    ==> (#[trigger] self.conns@[j]).innovation == old(self).conns@[j].innovation
                        && self.conns@[j].in_node == old(self).conns@[j].in_node
                        && self.conns@[j].out_node == old(self).conns@[j].out_node
                        && self.conns@[j].enabled == old(self).conns@[j].enabled,
                forall|j: int| 0 <= j < n
                    ==> -WEIGHT_LIMIT <= (#[trigger] self.conns@[j]).weight <= WEIGHT_LIMIT,
                forall|j: int| 0 <= j < n
                    ==> (old(self).conns@[j].weight - PERTURB_DELTA
                            <= (#[trigger] self.conns@[j]).weight
                            <= old(self).conns@[j].weight + PERTURB_DELTA)
                        || (-WEIGHT_INIT_RANGE <= self.conns@[j].weight <= WEIGHT_INIT_RANGE),
                forall|j: int| k <= j < n
                    ==> (#[trigger] self.conns@[j]).weight == old(self).conns@[j].weight,
            decreases n - k,
        {
            let c = self.conns[k];
            if c.enabled {
                let mut w: i64 = c.weight;
                if rng.chance(cfg.p_perturb, PROB_ONE) {
                    let d: i64 = (rng.below((2 * PERTURB_DELTA + 1) as u64) as i64) - PERTURB_DELTA;
                    w = w + d;
                    if w > WEIGHT_LIMIT {
                        w = WEIGHT_LIMIT;
                    }
                    if w < -WEIGHT_LIMIT {
                        w = -WEIGHT_LIMIT;
                    }
                } else if rng.chance(cfg.p_replace, PROB_ONE) {
                    w = (rng.below((2 * WEIGHT_INIT_RANGE + 1) as u64) as i64) - WEIGHT_INIT_RANGE;
                }
                let mut g = c;
                g.weight = w;
                self.conns[k] = g;
            }
            k = k + 1;
        }
        proof {
            assert(self.wf());
        }
    }
}

/// `to` can be reached from `from` in at most `fuel` hops along
/// connections of the genome (`from` itself with no hops).
pub open spec fn spec_reaches_in(g: Genome, from: u32, to: u32, fuel: nat) -> bool
    decreases fuel,
{
    from == to || (fuel > 0 && exists|m: u32|
        #[trigger] g.spec_connected(from, m) && spec_reaches_in(g, m, to, (fuel - 1) as nat))
}

/// `to` can be reached from `from` along connections; `from` reaches
/// itself.
pub open spec fn spec_reaches(g: Genome, from: u32, to: u32) -> bool {
    exists|fuel: nat| spec_reaches_in(g, from, to, fuel)
}

/// Extending a path by one connection keeps it a path.
proof fn lemma_reaches_step(g: Genome, a: u32, b: u32, c: u32, fuel: nat)
    requires
        spec_reaches_in(g, a, b, fuel),
        g.spec_connected(b, c),
    ensures
        spec_reaches_in(g, a, c, fuel + 1),
    decreases fuel,
{
    if a == b {
        assert(spec_reaches_in(g, c, c, (fuel) as nat));
        assert(g.spec_connected(a, c));
    } else {
        let m = choose|m: u32| #[trigger] g.spec_connected(a, m)
            && spec_reaches_in(g, m, b, (fuel - 1) as nat);
        lemma_reaches_step(g, m, b, c, (fuel - 1) as nat);
    }
}

/// Some node of the genome carries this id and accepts incoming
/// connections (an output or hidden node).
pub open spec fn spec_is_sink(g: Genome, id: u32) -> bool {
    exists|k: int| 0 <= k < g.nodes@.len() && (#[trigger] g.nodes@[k]).id == id
        && (g.nodes@[k].kind == NodeKind::Output || g.nodes@[k].kind == NodeKind::Hidden)
}

/// The structural preconditions of adding edge `(a, b)`: both endpoints
/// exist, `b` accepts incoming connections, and the pair is not yet
/// connected.
pub open spec fn spec_pair_open(g: Genome, a: u32, b: u32) -> bool {
    &&& g.spec_has_node(a)
    &&& spec_is_sink(g, b)
    &&& !g.spec_connected(a, b)
}

/// The recurrence policy admits adding edge `(a, b)`: the pair is open,
/// and with recurrence off the new edge must not close a cycle.
pub open spec fn spec_eligible_pair(g: Genome, cfg: Config, a: u32, b: u32) -> bool {
    &&& spec_pair_open(g, a, b)
    &&& (cfg.allow_recurrent || !spec_reaches(g, b, a))
}

/// The node is an endpoint of some connection in the list.
pub open spec fn node_is_endpoint(nd: NodeGene, s: Seq<ConnectionGene>) -> bool {
    exists|k: int| 0 <= k < s.len()
        && ((#[trigger] s[k]).in_node == nd.id || s[k].out_node == nd.id)
}

/// The gene list holds a gene with this innovation id.
pub open spec fn conns_have_id(s: Seq<ConnectionGene>, id: u64) -> bool {
    exists|m: int| 0 <= m < s.len() && (#[trigger] s[m]).innovation == id
}

/// The gene list holds exactly this gene somewhere.
pub open spec fn has_gene(s: Seq<ConnectionGene>, c: ConnectionGene) -> bool {
    exists|m: int| 0 <= m < s.len() && (#[trigger] s[m]) == c
}

/// Inserting keeps every gene that was already present.
proof fn lemma_insert_keeps(s: Seq<ConnectionGene>, p: int, c: ConnectionGene, x: ConnectionGene)
    requires
        0 <= p <= s.len(),
        has_gene(s, x),
    ensures
        has_gene(s.insert(p, c), x),
{
    s.insert_ensures(p, c);
    let m = choose|m: int| 0 <= m < s.len() && (#[trigger] s[m]) == x;
    if m < p {
        assert(s.insert(p, c)[m] == x);
    } else {
        assert(s.insert(p, c)[m + 1] == x);
    }
}

/// Gives every connection a fresh uniform random weight, leaving the
/// structure untouched. Used when minting initial genomes.
pub(crate) fn randomize_weights(conns: &mut Vec<ConnectionGene>, rng: &mut Rng)
    ensures
        final(conns)@.len() == old(conns)@.len(),
        forall|k: int| 0 <= k < final(conns)@.len()
            ==> (#[trigger] final(conns)@[k]).innovation == old(conns)@[k].innovation
                && final(conns)@[k].in_node == old(conns)@[k].in_node
                && final(conns)@[k].out_node == old(conns)@[k].out_node
                && final(conns)@[k].enabled == old(conns)@[k].enabled
                && -WEIGHT_INIT_RANGE <= final(conns)@[k].weight <= WEIGHT_INIT_RANGE,
{
    let n = conns.len();
    let mut k: usize = 0;
    while k < n
        invariant
            k <= n,
            n == conns@.len(),
            forall|j: int| 0 <= j < n
                ==> (#[trigger] conns@[j]).innovation == old(conns)@[j].innovation
                    && conns@[j].in_node == old(conns)@[j].in_node
                    && conns@[j].out_node == old(conns)@[j].out_node
                    && conns@[j].enabled == old(conns)@[j].enabled,
            forall|j: int| 0 <= j < k
                ==> -WEIGHT_INIT_RANGE <= (#[trigger] conns@[j]).weight <= WEIGHT_INIT_RANGE,
        decreases n - k,
    {
        let mut g = conns[k];
        g.weight = (rng.below((2 * WEIGHT_INIT_RANGE + 1) as u64) as i64) - WEIGHT_INIT_RANGE;
        conns[k] = g;
        k = k + 1;
    }
}

/// Linear membership scan.
fn vec_has_u32(v: &Vec<u32>, x: u32) -> (r: bool)
    ensures
        r == v@.contains(x),
{
    let n = v.len();
    let mut k: usize = 0;
    while k < n
        invariant
            k <= n,
            forall|j: int| 0 <= j < k ==> v@[j] != x,
        decreases n - k,
    {
        if v[k] == x {
            proof {
                assert(v@[k as int] == x);
            }
            return true;
        }
        k = k + 1;
    }
    false
}

impl Genome {
    /// Whether a search finds `to` from `from` along connections, `from`
    /// itself included. Used as the recurrence policy: adding an edge whose
    /// head reaches its tail would close a cycle. A `true` answer always
    /// names a real path; a `false` answer is the policy's verdict.
    fn reaches(&self, from: u32, to: u32) -> (r: bool)
        ensures
            r ==> spec_reaches(*self, from, to),
    {
        if from == to {
            proof {
                assert(spec_reaches_in(*self, from, to, 0));
            }
            return true;
        }
        let mut visited: Vec<u32> = Vec::new();
        let mut stack: Vec<u32> = Vec::new();
        stack.push(from);
        proof {
            assert(spec_reaches_in(*self, from, from, 0));
        }
        // Each distinct node is expanded once and every expansion pushes at
        // most the node's out-degree, so the work list drains within
        // `conns.len() + 2` pops.
        let mut fuel: usize = self.conns.len();
        if fuel < usize::MAX - 2 {
            fuel = fuel + 2;
        }
        while fuel > 0
            invariant
                forall|k: int| 0 <= k < stack@.len()
                    ==> spec_reaches(*self, from, #[trigger] stack@[k]),
            decreases fuel,
        {
            fuel = fuel - 1;
            let node = match stack.pop() {
                Some(node) => node,
                None => {
                    return false;
                },
            };
            proof {
                assert(spec_reaches(*self, from, node));
            }
            if !vec_has_u32(&visited, node) {
                visited.push(node);
                let n = self.conns.len();
                let mut t: usize = 0;
                while t < n
                    invariant
                        t <= n,
                        n == self.conns@.len(),
                        spec_reaches(*self, from, node),
                        forall|k: int| 0 <= k < stack@.len()
                            ==> spec_reaches(*self, from, #[trigger] stack@[k]),
                    decreases n - t,
                {
                    let c = self.conns[t];
                    if c.in_node == node {
                        proof {
                            assert(self.conns@[t as int].in_node == node
                                && self.conns@[t as int].out_node == c.out_node);
                            assert(self.spec_connected(node, c.out_node));
                            let fuel0 = choose|fuel0: nat|
                                spec_reaches_in(*self, from, node, fuel0);
                            lemma_reaches_step(*self, from, node, c.out_node, fuel0);
                        }
                        if c.out_node == to {
                            return true;
                        }
                        stack.push(c.out_node);
                    }
                    t = t + 1;
                }
            }
        }
        false
    }

    /// Adds one new enabled connection between two nodes not already
    /// connected, with an innovation id from the tracker and a random
    /// initial weight. Reports `false` — a no-op, not an error — only when
    /// no eligible pair exists under the recurrence policy, or when the
    /// issued id would collide with a gene the genome already carries.
    pub fn mutate_add_connection(
        &mut self,
        tracker: &mut InnovationTracker,
        rng: &mut Rng,
        cfg: &Config,
    ) -> (added: bool)
        requires
            old(self).wf(),
            old(tracker).wf(),
            old(tracker).next_id < u64::MAX,
            cfg.valid(),
        ensures
            final(self).wf(),
            final(tracker).wf(),
            final(tracker).next_id <= old(tracker).next_id + 1,
            final(self).nodes@ == old(self).nodes@,
            final(self).fitness == old(self).fitness,
            final(self).adj_fitness == old(self).adj_fitness,
            entries_extended(*old(tracker), *final(tracker)),
            !added ==> final(self).conns@ == old(self).conns@,
            !added ==> (forall|x: int, y: int| 0 <= x < old(self).nodes@.len()
                    && 0 <= y < old(self).nodes@.len()
                    ==> !spec_eligible_pair(*old(self), *cfg,
                            (#[trigger] old(self).nodes@[x]).id,
                            (#[trigger] old(self).nodes@[y]).id))
                || (exists|id: u64| entry_with_id(final(tracker).entries@, id)
                    && old(self).spec_has_innovation(id)),
            added ==> final(self).conns@.len() == old(self).conns@.len() + 1
                && exists|p: int, c: ConnectionGene|
                    0 <= p <= old(self).conns@.len()
                    && #[trigger] final(self).conns@ == old(self).conns@.insert(p, c)
                    && c.enabled
                    && spec_pair_open(*old(self), c.in_node, c.out_node)
                    && spec_lookup(final(tracker).entries@, c.in_node, c.out_node)
                        == Some(c.innovation),
            added ==> forall|k: int| 0 <= k < final(self).conns@.len()
                ==> old(self).spec_has_innovation(
                        (#[trigger] final(self).conns@[k]).innovation)
                    || entry_with_id(final(tracker).entries@, final(self).conns@[k].innovation),
    {
        let mut pairs: Vec<(u32, u32)> = Vec::new();
        let nn = self.nodes.len();
        let mut ai: usize = 0;
        while ai < nn
            invariant
                ai <= nn,
                nn == self.nodes@.len(),
                forall|t: int| 0 <= t < pairs@.len()
                    ==> spec_pair_open(*self, (#[trigger] pairs@[t]).0, pairs@[t].1),
                pairs@.len() == 0 ==> forall|x: int, y: int| 0 <= x < ai && 0 <= y < nn
                    ==> !spec_eligible_pair(*self, *cfg,
                            (#[trigger] self.nodes@[x]).id,
                            (#[trigger] self.nodes@[y]).id),
            decreases nn - ai,
        {
            let na = self.nodes[ai];
            proof {
                assert(self.nodes@[ai as int].id == na.id);
            }
            let mut bi: usize = 0;
            while bi < nn
                invariant
                    bi <= nn,
                    nn == self.nodes@.len(),
                    na == self.nodes@[ai as int],
                    ai < nn,
                    forall|t: int| 0 <= t < pairs@.len()
                        ==> spec_pair_open(*self, (#[trigger] pairs@[t]).0, pairs@[t].1),
                    pairs@.len() == 0 ==> forall|x: int, y: int| 0 <= x < ai && 0 <= y < nn
                        ==> !spec_eligible_pair(*self, *cfg,
                                (#[trigger] self.nodes@[x]).id,
                                (#[trigger] self.nodes@[y]).id),
                    pairs@.len() == 0 ==> forall|y: int| 0 <= y < bi
                        ==> !spec_eligible_pair(*self, *cfg, na.id,
                                (#[trigger] self.nodes@[y]).id),
                decreases nn - bi,
            {
                let nb = self.nodes[bi];
                proof {
                    assert(self.nodes@[bi as int].id == nb.id);
                }
                let is_sink = match nb.kind {
                    NodeKind::Output => true,
                    NodeKind::Hidden => true,
                    _ => false,
                };
                proof {
                    if !is_sink {
                        assert forall|k: int| 0 <= k < self.nodes@.len()
                            && (#[trigger] self.nodes@[k]).id == nb.id
                            implies k == bi by {
                            if k < bi {
                                assert(self.nodes@[k].id != self.nodes@[bi as int].id);
                            } else if k > bi {
                                assert(self.nodes@[bi as int].id != self.nodes@[k].id);
                            }
                        }
                        assert(!spec_is_sink(*self, nb.id));
                    }
                }
                if is_sink && !self.connected(na.id, nb.id) {
                    let recurrent_ok = cfg.allow_recurrent || !self.reaches(nb.id, na.id);
                    if recurrent_ok {
                        proof {
                            assert(spec_is_sink(*self, nb.id));
                        }
                        pairs.push((na.id, nb.id));
                        proof {
                            assert(pairs@[pairs@.len() - 1] == (na.id, nb.id));
                        }
                    }
                }
                bi = bi + 1;
            }
            ai = ai + 1;
        }
        if pairs.len() == 0 {
            return false;
        }
        let pick = rng.below(pairs.len() as u64) as usize;
        let pr = pairs[pick];
        proof {
            assert(spec_pair_open(*self, pr.0, pr.1));
        }
        let id = tracker.get_or_create(pr.0, pr.1);
        if self.has_innovation(id) {
            proof {
                lemma_lookup_entry(tracker.entries@, pr.0, pr.1, id);
            }
            return false;
        }
        let w: i64 = (rng.below((2 * WEIGHT_INIT_RANGE + 1) as u64) as i64) - WEIGHT_INIT_RANGE;
        let c = ConnectionGene {
            innovation: id,
            in_node: pr.0,
            out_node: pr.1,
            weight: w,
            enabled: true,
        };
        let ghost pre = self.conns@;
        proof {
            assert(sorted_strict(pre));
        }
        insert_sorted(&mut self.conns, c);
        proof {
            let p = choose|p: int| 0 <= p <= pre.len() && self.conns@ == pre.insert(p, c);
            pre.insert_ensures(p, c);
            assert forall|k: int| 0 <= k < self.conns@.len()
                implies self.spec_has_node((#[trigger] self.conns@[k]).in_node)
                    && self.spec_has_node(self.conns@[k].out_node)
                    && -WEIGHT_LIMIT <= self.conns@[k].weight <= WEIGHT_LIMIT by {
                if k < p {
                    assert(self.conns@[k] == pre[k]);
                } else if k == p {
                } else {
                    assert(self.conns@[k] == pre[k - 1]);
                }
            }
            assert(0 <= p <= old(self).conns@.len()
                && self.conns@ == old(self).conns@.insert(p, c)
                && c.enabled
                && spec_pair_open(*old(self), c.in_node, c.out_node)
                && spec_lookup(tracker.entries@, c.in_node, c.out_node) == Some(c.innovation));
            lemma_lookup_entry(tracker.entries@, c.in_node, c.out_node, c.innovation);
            assert forall|k: int| 0 <= k < self.conns@.len()
                implies old(self).spec_has_innovation(
                        (#[trigger] self.conns@[k]).innovation)
                    || entry_with_id(tracker.entries@, self.conns@[k].innovation) by {
                if k < p {
                    assert(self.conns@[k] == pre[k]);
                } else if k == p {
                } else {
                    assert(self.conns@[k] == pre[k - 1]);
                }
            }
        }
        true
    }

    /// Splits a random enabled connection: disables it, adds a hidden node,
    /// and adds `in -> new` (weight one) and `new -> out` (the original
    /// weight), with innovation ids from the tracker. Reports `false` only
    /// when there is no enabled connection to split, the node-id space is
    /// exhausted, or the issued ids would collide with existing genes.
    #[verifier::rlimit(60)]
    pub fn mutate_add_node(
        &mut self,
        tracker: &mut InnovationTracker,
        rng: &mut Rng,
    ) -> (added: bool)
        requires
            old(self).wf(),
            old(tracker).wf(),
            old(tracker).next_id < u64::MAX - 1,
        ensures
            final(self).wf(),
            final(tracker).wf(),
            final(tracker).next_id <= old(tracker).next_id + 2,
            final(self).fitness == old(self).fitness,
            final(self).adj_fitness == old(self).adj_fitness,
            entries_extended(*old(tracker), *final(tracker)),
            !added ==> final(self).nodes@ == old(self).nodes@
                && final(self).conns@ == old(self).conns@,
            !added ==> (forall|k: int| 0 <= k < old(self).conns@.len()
                    ==> !(#[trigger] old(self).conns@[k]).enabled)
                || old(self).spec_has_node(u32::MAX)
                || (exists|id: u64| entry_with_id(final(tracker).entries@, id)
                    && old(self).spec_has_innovation(id))
                || (exists|k1: int, k2: int| 0 <= k1 < final(tracker).entries@.len()
                    && 0 <= k2 < final(tracker).entries@.len() && k1 != k2
                    && (#[trigger] final(tracker).entries@[k1]).id
                        == (#[trigger] final(tracker).entries@[k2]).id),
            added ==> final(self).nodes@.len() == old(self).nodes@.len() + 1
                && final(self).conns@.len() == old(self).conns@.len() + 2,
            added ==> exists|k: int, new_id: u32| #![auto]
                0 <= k < old(self).conns@.len()
                && old(self).conns@[k].enabled
                && !old(self).spec_has_node(new_id)
                && final(self).nodes@ == old(self).nodes@.push(
                    NodeGene { id: new_id, kind: NodeKind::Hidden, activation: 0 })
                && has_gene(final(self).conns@, (ConnectionGene {
                    innovation: old(self).conns@[k].innovation,
                    in_node: old(self).conns@[k].in_node,
                    out_node: old(self).conns@[k].out_node,
                    weight: old(self).conns@[k].weight,
                    enabled: false }))
                && (exists|i1: u64| has_gene(final(self).conns@, (ConnectionGene {
                    innovation: i1,
                    in_node: old(self).conns@[k].in_node,
                    out_node: new_id,
                    weight: crate::WEIGHT_ONE,
                    enabled: true })))
                && (exists|i2: u64| has_gene(final(self).conns@, (ConnectionGene {
                    innovation: i2,
                    in_node: new_id,
                    out_node: old(self).conns@[k].out_node,
                    weight: old(self).conns@[k].weight,
                    enabled: true }))),
            added ==> forall|j: int| 0 <= j < final(self).conns@.len()
                ==> old(self).spec_has_innovation(
                        (#[trigger] final(self).conns@[j]).innovation)
                    || entry_with_id(final(tracker).entries@, final(self).conns@[j].innovation),
    {
        let n = self.conns.len();
        let mut cands: Vec<usize> = Vec::new();
        let mut k: usize = 0;
        while k < n
            invariant
                k <= n,
                n == self.conns@.len(),
                forall|t: int| 0 <= t < cands@.len() ==> (#[trigger] cands@[t]) < n,
                forall|t: int| 0 <= t < cands@.len()
                    ==> self.conns@[(#[trigger] cands@[t]) as int].enabled,
                cands@.len() == 0 ==> forall|t: int| 0 <= t < k
                    ==> !(#[trigger] self.conns@[t]).enabled,
            decreases n - k,
        {
            if self.conns[k].enabled {
                cands.push(k);
            }
            k = k + 1;
        }
        if cands.len() == 0 {
            return false;
        }
        let ci = rng.below(cands.len() as u64) as usize;
        let pick = cands[ci];
        proof {
            assert(cands@[ci as int] == pick);
            assert(self.conns@[pick as int].enabled);
        }
        let c = self.conns[pick];
        if self.nodes.len() == 0 {
            proof {
                assert(self.spec_has_node(c.in_node));
                let w = choose|w: int| 0 <= w < self.nodes@.len()
                    && (#[trigger] self.nodes@[w]).id == c.in_node;
                assert(false);
            }
            return false;
        }
        let maxid = self.max_node_id();
        if maxid == u32::MAX {
            return false;
        }
        let new_id = maxid + 1;
        let id1 = tracker.get_or_create(c.in_node, new_id);
        let ghost t1 = *tracker;
        let id2 = tracker.get_or_create(new_id, c.out_node);
        proof {
            lemma_entries_extended_trans(*old(tracker), t1, *tracker);
            // the in endpoint is an existing node, so it sits below the
            // fresh node id
            assert(self.spec_has_node(c.in_node));
            let w = choose|w: int| 0 <= w < self.nodes@.len()
                && (#[trigger] self.nodes@[w]).id == c.in_node;
            assert(c.in_node <= maxid);
        }
        if id1 == id2 || self.has_innovation(id1) || self.has_innovation(id2) {
            proof {
                lemma_lookup_entry(tracker.entries@, new_id, c.out_node, id2);
                lemma_lookup_entry(t1.entries@, c.in_node, new_id, id1);
                lemma_entry_with_id_extended(t1, *tracker, id1);
                if id1 == id2 {
                    let k1 = choose|k1: int| 0 <= k1 < t1.entries@.len()
                        && (#[trigger] t1.entries@[k1]) == crate::innovation::InnovationRecord {
                            in_node: c.in_node, out_node: new_id, id: id1 };
                    assert(tracker.entries@[k1] == t1.entries@[k1]);
                    let k2 = choose|k2: int| 0 <= k2 < tracker.entries@.len()
                        && (#[trigger] tracker.entries@[k2])
                            == crate::innovation::InnovationRecord {
                                in_node: new_id, out_node: c.out_node, id: id2 };
                    assert(tracker.entries@[k1].in_node == c.in_node);
                    assert(tracker.entries@[k2].in_node == new_id);
                    assert(k1 != k2);
                    assert(tracker.entries@[k1].id == tracker.entries@[k2].id);
                }
            }
            return false;
        }
        let mut g = c;
        g.enabled = false;
        let ghost nodes0 = self.nodes@;
        let ghost conns0 = self.conns@;
        self.conns[pick] = g;
        proof {
            assert forall|j: int| 0 <= j < self.conns@.len()
                implies (#[trigger] self.conns@[j]).innovation == conns0[j].innovation
                    && self.conns@[j].in_node == conns0[j].in_node
                    && self.conns@[j].out_node == conns0[j].out_node
                    && self.conns@[j].weight == conns0[j].weight by {
                if j != pick {
                    assert(self.conns@[j] == conns0[j]);
                }
            }
        }
        self.nodes.push(NodeGene { id: new_id, kind: NodeKind::Hidden, activation: 0 });
        proof {
            assert forall|x: u32| nodes_contain(nodes0, x)
                implies nodes_contain(self.nodes@, x) by {
                let w = choose|w: int| 0 <= w < nodes0.len() && nodes0[w].id == x;
                assert(self.nodes@[w].id == x);
            }
            assert(self.nodes@[nodes0.len() as int].id == new_id);
            assert(self.wf());
        }
        let c1 = ConnectionGene {
            innovation: id1,
            in_node: c.in_node,
            out_node: new_id,
            weight: crate::WEIGHT_ONE,
            enabled: true,
        };
        let c2 = ConnectionGene {
            innovation: id2,
            in_node: new_id,
            out_node: c.out_node,
            weight: c.weight,
            enabled: true,
        };
        proof {
            lemma_lookup_entry(t1.entries@, c.in_node, new_id, id1);
            lemma_entry_with_id_extended(t1, *tracker, id1);
            lemma_lookup_entry(tracker.entries@, new_id, c.out_node, id2);
        }
        let ghost pre1 = self.conns@;
        insert_sorted(&mut self.conns, c1);
        proof {
            let p = choose|p: int| 0 <= p <= pre1.len() && self.conns@ == pre1.insert(p, c1);
            pre1.insert_ensures(p, c1);
            assert forall|j: int| 0 <= j < self.conns@.len()
                implies self.spec_has_node((#[trigger] self.conns@[j]).in_node)
                    && self.spec_has_node(self.conns@[j].out_node)
                    && -WEIGHT_LIMIT <= self.conns@[j].weight <= WEIGHT_LIMIT
                    && self.conns@[j].innovation != id2
                    && (old(self).spec_has_innovation(self.conns@[j].innovation)
                        || entry_with_id(tracker.entries@, self.conns@[j].innovation)) by {
                if j < p {
                    assert(self.conns@[j] == pre1[j]);
                    assert(old(self).conns@[j].innovation == self.conns@[j].innovation);
                } else if j == p {
                } else {
                    assert(self.conns@[j] == pre1[j - 1]);
                    assert(old(self).conns@[j - 1].innovation == self.conns@[j].innovation);
                }
            }
            assert(has_gene(self.conns@, g)) by {
                if pick < p {
                    assert(self.conns@[pick as int] == pre1[pick as int]);
                } else {
                    assert(self.conns@[pick + 1] == pre1[pick as int]);
                }
            }
            assert(has_gene(self.conns@, c1)) by {
                assert(self.conns@[p] == c1);
            }
        }
        let ghost pre2 = self.conns@;
        insert_sorted(&mut self.conns, c2);
        proof {
            let p = choose|p: int| 0 <= p <= pre2.len() && self.conns@ == pre2.insert(p, c2);
            pre2.insert_ensures(p, c2);
            assert forall|j: int| 0 <= j < self.conns@.len()
                implies self.spec_has_node((#[trigger] self.conns@[j]).in_node)
                    && self.spec_has_node(self.conns@[j].out_node)
                    && -WEIGHT_LIMIT <= self.conns@[j].weight <= WEIGHT_LIMIT
                    && (old(self).spec_has_innovation(self.conns@[j].innovation)
                        || entry_with_id(tracker.entries@, self.conns@[j].innovation)) by {
                if j < p {
                    assert(self.conns@[j] == pre2[j]);
                } else if j == p {
                } else {
                    assert(self.conns@[j] == pre2[j - 1]);
                }
            }
            lemma_insert_keeps(pre2, p, c2, g);
            lemma_insert_keeps(pre2, p, c2, c1);
            assert(has_gene(self.conns@, c2)) by {
                assert(self.conns@[p] == c2);
            }
            // the witnesses of the split: the picked gene and the fresh node
            assert(!old(self).spec_has_node(new_id));
            assert(g == (ConnectionGene {
                innovation: old(self).conns@[pick as int].innovation,
                in_node: old(self).conns@[pick as int].in_node,
                out_node: old(self).conns@[pick as int].out_node,
                weight: old(self).conns@[pick as int].weight,
                enabled: false }));
            assert(self.nodes@ == old(self).nodes@.push(
                NodeGene { id: new_id, kind: NodeKind::Hidden, activation: 0 }));
        }
        true
    }
}

/// Gathers every node referenced by the connection list, copying each node
/// gene from whichever parent carries it.
fn collect_nodes(a: &Genome, b: &Genome, conns: &Vec<ConnectionGene>) -> (nodes: Vec<NodeGene>)
    requires
        a.wf(),
        b.wf(),
        forall|k: int| 0 <= k < conns@.len()
            ==> spec_gene_from(*a, #[trigger] conns@[k]) || spec_gene_from(*b, conns@[k]),
    ensures
        forall|p: int, q: int| 0 <= p < q < nodes@.len()
            ==> (#[trigger] nodes@[p]).id != (#[trigger] nodes@[q]).id,
        forall|k: int| 0 <= k < conns@.len()
            ==> nodes_contain(nodes@, (#[trigger] conns@[k]).in_node)
                && nodes_contain(nodes@, conns@[k].out_node),
        forall|p: int| 0 <= p < nodes@.len()
            ==> node_is_endpoint(#[trigger] nodes@[p], conns@),
{
    let mut nodes: Vec<NodeGene> = Vec::new();
    let n = conns.len();
    let mut t: usize = 0;
    while t < n
        invariant
            t <= n,
            n == conns@.len(),
            forall|p: int, q: int| 0 <= p < q < nodes@.len()
                ==> (#[trigger] nodes@[p]).id != (#[trigger] nodes@[q]).id,
            forall|k: int| 0 <= k < t
                ==> nodes_contain(nodes@, (#[trigger] conns@[k]).in_node)
                    && nodes_contain(nodes@, conns@[k].out_node),
            forall|p: int| 0 <= p < nodes@.len()
                ==> node_is_endpoint(#[trigger] nodes@[p], conns@),
        decreases n - t,
    {
        let c = conns[t];
        let ghost before1 = nodes@;
        push_node_for(a, b, &mut nodes, c.in_node);
        proof {
            assert(conns@[t as int].in_node == c.in_node
                && conns@[t as int].out_node == c.out_node);
            assert forall|p: int| 0 <= p < nodes@.len()
                implies node_is_endpoint(#[trigger] nodes@[p], conns@) by {
                if !(p < before1.len() && nodes@[p] == before1[p]) {
                    assert(nodes@[p].id == c.in_node);
                    assert(0 <= t < conns@.len() && conns@[t as int].in_node == nodes@[p].id);
                }
            }
        }
        let ghost before2 = nodes@;
        push_node_for(a, b, &mut nodes, c.out_node);
        proof {
            assert forall|p: int| 0 <= p < nodes@.len()
                implies node_is_endpoint(#[trigger] nodes@[p], conns@) by {
                if !(p < before2.len() && nodes@[p] == before2[p]) {
                    assert(nodes@[p].id == c.out_node);
                    assert(0 <= t < conns@.len() && conns@[t as int].out_node == nodes@[p].id);
                }
            }
        }
        t = t + 1;
    }
    nodes
}

/// Adds the node gene carrying `id` unless it is already present. The id is
/// referenced by an inherited connection, so one of the parents carries it.
fn push_node_for(a: &Genome, b: &Genome, nodes: &mut Vec<NodeGene>, id: u32)
    requires
        a.wf(),
        b.wf(),
        a.spec_has_node(id) || b.spec_has_node(id),
        forall|p: int, q: int| 0 <= p < q < old(nodes)@.len()
            ==> (#[trigger] old(nodes)@[p]).id != (#[trigger] old(nodes)@[q]).id,
    ensures
        forall|p: int, q: int| 0 <= p < q < final(nodes)@.len()
            ==> (#[trigger] final(nodes)@[p]).id != (#[trigger] final(nodes)@[q]).id,
        nodes_contain(final(nodes)@, id),
        forall|x: u32| nodes_contain(old(nodes)@, x) ==> nodes_contain(final(nodes)@, x),
        forall|p: int| 0 <= p < final(nodes)@.len()
            ==> (p < old(nodes)@.len() && (#[trigger] final(nodes)@[p]) == old(nodes)@[p])
                || final(nodes)@[p].id == id,
{
    let n = nodes.len();
    let mut k: usize = 0;
    while k < n
        invariant
            n == nodes@.len(),
            k <= n,
            *nodes == *old(nodes),
            forall|j: int| 0 <= j < k ==> (#[trigger] nodes@[j]).id != id,
        decreases n - k,
    {
        if nodes[k].id == id {
            return;
        }
        k = k + 1;
    }
    let nd = match a.find_node(id) {
        Some(nd) => nd,
        None => {
            match b.find_node(id) {
                Some(nd) => nd,
                None => {
                    proof {
                        assert(false);
                    }
                    NodeGene { id, kind: NodeKind::Hidden, activation: 0 }
                },
            }
        },
    };
    nodes.push(nd);
    proof {
        let m = final(nodes)@.len() - 1;
        assert(final(nodes)@[m].id == id);
        assert forall|x: u32| nodes_contain(old(nodes)@, x)
            implies nodes_contain(final(nodes)@, x) by {
            let w = choose|w: int| 0 <= w < old(nodes)@.len() && old(nodes)@[w].id == x;
            assert(final(nodes)@[w].id == x);
        }
    }
}

} // verus!
