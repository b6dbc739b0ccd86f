//! Quantities of the hypergraph random walk, computed once and shared by all projections.
use crate::hypergraph::{
    edges_bounded, explicit_gamma, gamma_of, valid_weight, weights_bounded, EdgeId, Gamma, HyperEdge, HyperGraph, NodeId,
    DEFAULT_GAMMA, MAX_COUNT, MAX_WEIGHT,
};
use vstd::prelude::*;

verus! {

/// Number of times `u` appears in `s`.
pub open spec fn occurrences(s: Seq<NodeId>, u: NodeId) -> nat
    decreases s.len(),
{
    if s.len() == 0 {
        0
    } else {
        occurrences(s.drop_last(), u) + if s.last() == u {
            1nat
        } else {
            0nat
        }
    }
}

/// Node strength `d`: the weight of every hyperedge, once per membership of `u`.
pub open spec fn strength(edges: Seq<HyperEdge>, u: NodeId) -> int
    decreases edges.len(),
{
    if edges.len() == 0 {
        0
    } else {
        strength(edges.drop_last(), u) + edges.last().omega * occurrences(edges.last().nodes@, u)
    }
}

/// Indices of the hyperedges that hold `u`, in declaration order.
pub open spec fn incident(edges: Seq<HyperEdge>, u: NodeId) -> Seq<usize>
    decreases edges.len(),
{
    if edges.len() == 0 {
        seq![]
    } else if edges.last().nodes@.contains(u) {
        incident(edges.drop_last(), u).push((edges.len() - 1) as usize)
    } else {
        incident(edges.drop_last(), u)
    }
}

/// Visit rate `pi` of node `u`: `omega(e) * gamma(e, u)` summed over the hyperedges holding `u`.
pub open spec fn visit_rate(edges: Seq<HyperEdge>, w: Seq<Gamma>, u: NodeId) -> int
    decreases edges.len(),
{
    if edges.len() == 0 {
        0
    } else if edges.last().nodes@.contains(u) {
        visit_rate(edges.drop_last(), w, u) + edges.last().omega * gamma_of(w, edges.last().id, u)
    } else {
        visit_rate(edges.drop_last(), w, u)
    }
}

/// Sum of the explicit affinity records of hyperedge `e`, duplicates included.
pub open spec fn explicit_sum(w: Seq<Gamma>, e: EdgeId) -> int
    decreases w.len(),
{
    if w.len() == 0 {
        0
    } else if w.last().edge == e {
        explicit_sum(w.drop_last(), e) + w.last().gamma
    } else {
        explicit_sum(w.drop_last(), e)
    }
}

/// Number of distinct members of a hyperedge with id `e` that have no explicit affinity.
pub open spec fn default_count(w: Seq<Gamma>, e: EdgeId, nodes: Seq<NodeId>) -> nat
    decreases nodes.len(),
{
    if nodes.len() == 0 {
        0
    } else if explicit_gamma(w, e, nodes.last()) is None && !nodes.drop_last().contains(
        nodes.last(),
    ) {
        default_count(w, e, nodes.drop_last()) + 1
    } else {
        default_count(w, e, nodes.drop_last())
    }
}

/// Hyperedge strength `delta`: its explicit records, plus the default affinity
/// once for each member without one.
pub open spec fn edge_strength(w: Seq<Gamma>, e: HyperEdge) -> int {
    explicit_sum(w, e.id) + DEFAULT_GAMMA * default_count(w, e.id, e.nodes@)
}

/// Joint visit rate `pi_alpha` of the state "at member `j` of hyperedge `e`".
pub open spec fn state_rate(w: Seq<Gamma>, e: HyperEdge, j: int) -> int {
    e.omega * gamma_of(w, e.id, e.nodes@[j])
}

/// The derived quantities of a hypergraph. Per-node vectors follow the order of
/// `nodes`; per-hyperedge vectors follow the order of `edges`, and their inner
/// vectors the order of the hyperedge's members.
#[allow(non_snake_case)]
#[derive(Clone, Debug, PartialEq, Eq)]
pub struct PreprocessResult {
    /// Indices of the hyperedges incident to each node, in declaration order.
    pub E: Vec<Vec<usize>>,
    /// Node strengths.
    pub d: Vec<u64>,
    /// Affinity of each member of each hyperedge.
    pub gamma: Vec<Vec<u64>>,
    /// Hyperedge strengths.
    pub delta: Vec<u64>,
    /// Node visit rates.
    pub pi: Vec<u64>,
    /// Visit rates of each (hyperedge, member) state.
    pub pi_alpha: Vec<Vec<u64>>,
}

impl PreprocessResult {
    /// Every field holds the quantity of its name for hypergraph `g`.
    pub open spec fn describes(&self, g: &HyperGraph) -> bool {
        let nodes = g.nodes@;
        let edges = g.edges@;
        let w = g.weights@;
        &&& self.E.len() == nodes.len()
        &&& self.d.len() == nodes.len()
        &&& self.pi.len() == nodes.len()
        &&& self.gamma.len() == edges.len()
        &&& self.delta.len() == edges.len()
        &&& self.pi_alpha.len() == edges.len()
        &&& forall|k: int|
            0 <= k < nodes.len() ==> (#[trigger] self.E@[k])@ == incident(edges, nodes[k].id)
        &&& forall|k: int| 0 <= k < nodes.len() ==> #[trigger] self.d@[k] == strength(edges, nodes[k].id)
        &&& forall|k: int|
            0 <= k < nodes.len() ==> #[trigger] self.pi@[k] == visit_rate(edges, w, nodes[k].id)
        &&& forall|a: int|
            0 <= a < edges.len() ==> (#[trigger] self.gamma@[a]).len() == edges[a].nodes.len()
        &&& forall|a: int|
            0 <= a < edges.len() ==> (#[trigger] self.pi_alpha@[a]).len() == edges[a].nodes.len()
        &&& forall|a: int|
            0 <= a < edges.len() ==> #[trigger] self.delta@[a] == edge_strength(w, edges[a])
        &&& forall|a: int, j: int|
            0 <= a < edges.len() && 0 <= j < edges[a].nodes.len() ==> #[trigger] self.gamma@[a]@[j]
                == gamma_of(w, edges[a].id, edges[a].nodes@[j])
        &&& forall|a: int, j: int|
            0 <= a < edges.len() && 0 <= j < edges[a].nodes.len() ==> #[trigger] self.pi_alpha@[a]@[j]
                == state_rate(w, edges[a], j)
    }
}

/// The explicit affinity of `node` in hyperedge `edge`, if one is recorded.
pub fn find_gamma(weights: &Vec<Gamma>, edge: EdgeId, node: NodeId) -> (r: Option<u64>)
    ensures
        r == explicit_gamma(weights@, edge, node),
{
    let mut found: Option<u64> = None;
    let mut r: usize = 0;
    while r < weights.len()
        invariant
            r <= weights.len(),
            found == explicit_gamma(weights@.take(r as int), edge, node),
        decreases weights.len() - r,
    {
        assert(weights@.take(r + 1).drop_last() =~= weights@.take(r as int));
        let w = weights[r];
        if w.edge == edge && w.node == node {
            found = Some(w.gamma);
        }
        r += 1;
    }
    assert(weights@.take(r as int) =~= weights@);
    found
}


/// Every incident index names a hyperedge that holds `u`.
pub proof fn lemma_incident_members(edges: Seq<HyperEdge>, u: NodeId)
    requires
        edges.len() <= MAX_COUNT,
    ensures
        incident(edges, u).len() <= edges.len(),
        forall|t: int|
            0 <= t < incident(edges, u).len() ==> {
                &&& (#[trigger] incident(edges, u)[t]) < edges.len()
                &&& edges[incident(edges, u)[t] as int].nodes@.contains(u)
            },
    decreases edges.len(),
{
    if edges.len() > 0 {
        lemma_incident_members(edges.drop_last(), u);
        let prev = incident(edges.drop_last(), u);
        let cur = incident(edges, u);
        assert forall|t: int| 0 <= t < cur.len() implies (#[trigger] cur[t]) < edges.len()
            && edges[cur[t] as int].nodes@.contains(u) by {
            if t < prev.len() {
                assert(cur[t] == prev[t]);
                assert(edges[prev[t] as int] == edges.drop_last()[prev[t] as int]);
            } else {
                assert(edges.last().nodes@.contains(u));
                assert(cur == prev.push((edges.len() - 1) as usize));
                assert(cur[t] == edges.len() - 1);
            }
        }
    }
}

pub proof fn lemma_occurrences_bound(s: Seq<NodeId>, u: NodeId)
    ensures
        occurrences(s, u) <= s.len(),
    decreases s.len(),
{
    if s.len() > 0 {
        lemma_occurrences_bound(s.drop_last(), u);
    }
}

pub proof fn lemma_gamma_bound(w: Seq<Gamma>, e: EdgeId, u: NodeId)
    requires
        weights_bounded(w),
    ensures
        valid_weight(gamma_of(w, e, u)),
    decreases w.len(),
{
    if w.len() > 0 {
        assert(weights_bounded(w.drop_last()));
        lemma_gamma_bound(w.drop_last(), e, u);
        assert(valid_weight(w[w.len() - 1].gamma));
    }
}

pub proof fn lemma_strength_bound(edges: Seq<HyperEdge>, u: NodeId)
    requires
        edges_bounded(edges),
    ensures
        0 <= strength(edges, u) <= edges.len() * (MAX_COUNT * MAX_WEIGHT),
    decreases edges.len(),
{
    if edges.len() > 0 {
        let e = edges.last();
        assert(edges_bounded(edges.drop_last()));
        lemma_strength_bound(edges.drop_last(), u);
        lemma_occurrences_bound(e.nodes@, u);
        assert(e == edges[edges.len() - 1]);
        let o = occurrences(e.nodes@, u);
        assert(e.omega * o <= MAX_WEIGHT * MAX_COUNT) by (nonlinear_arith)
            requires
                e.omega <= MAX_WEIGHT,
                o <= MAX_COUNT,
        ;
        assert((edges.len() - 1) * (MAX_COUNT * MAX_WEIGHT) + MAX_COUNT * MAX_WEIGHT == edges.len()
            * (MAX_COUNT * MAX_WEIGHT)) by (nonlinear_arith);
    }
}

pub proof fn lemma_visit_rate_bound(edges: Seq<HyperEdge>, w: Seq<Gamma>, u: NodeId)
    requires
        edges_bounded(edges),
        weights_bounded(w),
    ensures
        0 <= visit_rate(edges, w, u) <= edges.len() * (MAX_WEIGHT * MAX_WEIGHT),
    decreases edges.len(),
{
    if edges.len() > 0 {
        let e = edges.last();
        assert(edges_bounded(edges.drop_last()));
        lemma_visit_rate_bound(edges.drop_last(), w, u);
        assert(e == edges[edges.len() - 1]);
        lemma_gamma_bound(w, e.id, u);
        let g = gamma_of(w, e.id, u);
        assert(e.omega * g <= MAX_WEIGHT * MAX_WEIGHT) by (nonlinear_arith)
            requires
                e.omega <= MAX_WEIGHT,
                g <= MAX_WEIGHT,
        ;
        assert((edges.len() - 1) * (MAX_WEIGHT * MAX_WEIGHT) + MAX_WEIGHT * MAX_WEIGHT == edges.len()
            * (MAX_WEIGHT * MAX_WEIGHT)) by (nonlinear_arith);
    }
}

pub proof fn lemma_explicit_sum_bound(w: Seq<Gamma>, e: EdgeId)
    requires
        weights_bounded(w),
    ensures
        0 <= explicit_sum(w, e) <= w.len() * MAX_WEIGHT,
    decreases w.len(),
{
    if w.len() > 0 {
        assert(weights_bounded(w.drop_last()));
        lemma_explicit_sum_bound(w.drop_last(), e);
        assert(valid_weight(w[w.len() - 1].gamma));
    }
}

pub proof fn lemma_default_count_bound(w: Seq<Gamma>, e: EdgeId, nodes: Seq<NodeId>)
    ensures
        default_count(w, e, nodes) <= nodes.len(),
    decreases nodes.len(),
{
    if nodes.len() > 0 {
        lemma_default_count_bound(w, e, nodes.drop_last());
    }
}

pub proof fn lemma_edge_strength_bound(w: Seq<Gamma>, e: HyperEdge)
    requires
        weights_bounded(w),
        w.len() <= MAX_COUNT,
        e.nodes.len() <= MAX_COUNT,
    ensures
        0 <= edge_strength(w, e) <= MAX_COUNT * MAX_WEIGHT + MAX_COUNT * DEFAULT_GAMMA,
{
    lemma_explicit_sum_bound(w, e.id);
    lemma_default_count_bound(w, e.id, e.nodes@);
    let c = default_count(w, e.id, e.nodes@);
    assert(w.len() * MAX_WEIGHT <= MAX_COUNT * MAX_WEIGHT) by (nonlinear_arith)
        requires
            w.len() <= MAX_COUNT,
    ;
    assert(DEFAULT_GAMMA * c <= MAX_COUNT * DEFAULT_GAMMA) by (nonlinear_arith)
        requires
            c <= MAX_COUNT,
    ;
}

/// Whether `x` is among the first `end` items of `v`.
pub fn prefix_contains(v: &Vec<NodeId>, end: usize, x: NodeId) -> (r: bool)
    requires
        end <= v.len(),
    ensures
        r == v@.take(end as int).contains(x),
{
    let mut i: usize = 0;
    while i < end
        invariant
            i <= end <= v.len(),
            forall|k: int| 0 <= k < i ==> v@[k] != x,
        decreases end - i,
    {
        if v[i] == x {
            assert(v@.take(end as int)[i as int] == x);
            return true;
        }
        i += 1;
    }
    assert forall|k: int| 0 <= k < end implies v@.take(end as int)[k] != x by {}
    false
}

/// Node strength `d` of `u`.
fn node_strength(g: &HyperGraph, u: NodeId) -> (r: u64)
    requires
        g.wf(),
    ensures
        r == strength(g.edges@, u),
{
    let mut acc: u64 = 0;
    let mut a: usize = 0;
    while a < g.edges.len()
        invariant
            g.wf(),
            a <= g.edges.len(),
            acc == strength(g.edges@.take(a as int), u),
        decreases g.edges.len() - a,
    {
        let e = &g.edges[a];
        assert(e == g.edges@[a as int]);
        let mut j: usize = 0;
        let mut cnt: u64 = 0;
        while j < e.nodes.len()
            invariant
                j <= e.nodes.len(),
                cnt == occurrences(e.nodes@.take(j as int), u),
                cnt <= j,
            decreases e.nodes.len() - j,
        {
            assert(e.nodes@.take(j + 1).drop_last() =~= e.nodes@.take(j as int));
            if e.nodes[j] == u {
                cnt += 1;
            }
            j += 1;
        }
        assert(e.nodes@.take(j as int) =~= e.nodes@);
        let ghost pre = g.edges@.take(a + 1);
        assert(pre.drop_last() =~= g.edges@.take(a as int));
        assert forall|i: int| 0 <= i < pre.len() implies (#[trigger] pre[i]).nodes.len()
            <= MAX_COUNT && valid_weight(pre[i].omega) by {
            assert(pre[i] == g.edges@[i]);
        }
        assert(pre.last() == *e);
        proof {
            lemma_strength_bound(pre, u);
        }
        assert((a + 1) * (MAX_COUNT * MAX_WEIGHT) <= MAX_COUNT * (MAX_COUNT * MAX_WEIGHT))
            by (nonlinear_arith)
            requires
                a + 1 <= MAX_COUNT,
        ;
        assert(e.omega * cnt <= MAX_WEIGHT * MAX_COUNT) by (nonlinear_arith)
            requires
                e.omega <= MAX_WEIGHT,
                cnt <= MAX_COUNT,
        ;
        acc = acc + e.omega * cnt;
        a += 1;
    }
    assert(g.edges@.take(a as int) =~= g.edges@);
    acc
}


/// Prefixes of a well-formed hypergraph's hyperedges stay bounded.
proof fn lemma_prefix_bounded(g: &HyperGraph, n: int)
    requires
        g.wf(),
        0 <= n <= g.edges.len(),
    ensures
        edges_bounded(g.edges@.take(n)),
{
    let pre = g.edges@.take(n);
    assert forall|i: int| 0 <= i < pre.len() implies (#[trigger] pre[i]).nodes.len() <= MAX_COUNT
        && valid_weight(pre[i].omega) by {
        assert(pre[i] == g.edges@[i]);
    }
}

/// Indices of the hyperedges that hold `u`.
fn incident_edges(g: &HyperGraph, u: NodeId) -> (r: Vec<usize>)
    requires
        g.wf(),
    ensures
        r@ == incident(g.edges@, u),
{
    let mut r: Vec<usize> = Vec::new();
    let mut a: usize = 0;
    while a < g.edges.len()
        invariant
            a <= g.edges.len(),
            r@ == incident(g.edges@.take(a as int), u),
        decreases g.edges.len() - a,
    {
        let ghost pre = g.edges@.take(a + 1);
        assert(pre.drop_last() =~= g.edges@.take(a as int));
        assert(pre.last() == g.edges@[a as int]);
        assert(g.edges@[a as int].nodes@.take(g.edges@[a as int].nodes.len() as int) =~= g.edges@[a as int].nodes@);
        if prefix_contains(&g.edges[a].nodes, g.edges[a].nodes.len(), u) {
            r.push(a);
        }
        a += 1;
    }
    assert(g.edges@.take(a as int) =~= g.edges@);
    r
}

/// Affinity of member `u` in hyperedge `e`.
pub fn affinity(g: &HyperGraph, e: EdgeId, u: NodeId) -> (r: u64)
    requires
        g.wf(),
    ensures
        r == gamma_of(g.weights@, e, u),
        valid_weight(r),
{
    proof {
        lemma_gamma_bound(g.weights@, e, u);
    }
    match find_gamma(&g.weights, e, u) {
        Some(x) => x,
        None => DEFAULT_GAMMA,
    }
}

/// Visit rate `pi` of `u`.
fn node_visit_rate(g: &HyperGraph, u: NodeId) -> (r: u64)
    requires
        g.wf(),
    ensures
        r == visit_rate(g.edges@, g.weights@, u),
{
    let mut acc: u64 = 0;
    let mut a: usize = 0;
    while a < g.edges.len()
        invariant
            g.wf(),
            a <= g.edges.len(),
            acc == visit_rate(g.edges@.take(a as int), g.weights@, u),
        decreases g.edges.len() - a,
    {
        let e = &g.edges[a];
        let ghost pre = g.edges@.take(a + 1);
        assert(pre.drop_last() =~= g.edges@.take(a as int));
        assert(pre.last() == *e);
        assert(e.nodes@.take(e.nodes.len() as int) =~= e.nodes@);
        proof {
            lemma_prefix_bounded(g, a + 1);
            lemma_visit_rate_bound(pre, g.weights@, u);
        }
        assert((a + 1) * (MAX_WEIGHT * MAX_WEIGHT) <= MAX_COUNT * (MAX_WEIGHT * MAX_WEIGHT))
            by (nonlinear_arith)
            requires
                a + 1 <= MAX_COUNT,
        ;
        if prefix_contains(&e.nodes, e.nodes.len(), u) {
            let gm = affinity(g, e.id, u);
            acc = acc + e.omega * gm;
        }
        a += 1;
    }
    assert(g.edges@.take(a as int) =~= g.edges@);
    acc
}

/// Hyperedge strength `delta` of the hyperedge at index `a`.
fn hyperedge_strength(g: &HyperGraph, a: usize) -> (r: u64)
    requires
        g.wf(),
        a < g.edges.len(),
    ensures
        r == edge_strength(g.weights@, g.edges@[a as int]),
        r <= MAX_COUNT * MAX_WEIGHT + MAX_COUNT * DEFAULT_GAMMA,
{
    let e = &g.edges[a];
    let w = &g.weights;
    let mut sum: u64 = 0;
    let mut r: usize = 0;
    while r < w.len()
        invariant
            g.wf(),
            w == &g.weights,
            r <= w.len(),
            sum == explicit_sum(w@.take(r as int), e.id),
        decreases w.len() - r,
    {
        let ghost pre = w@.take(r + 1);
        assert(pre.drop_last() =~= w@.take(r as int));
        assert(weights_bounded(pre));
        proof {
            lemma_explicit_sum_bound(pre, e.id);
        }
        if w[r].edge == e.id {
            sum = sum + w[r].gamma;
        }
        r += 1;
    }
    assert(w@.take(r as int) =~= w@);
    proof {
        lemma_explicit_sum_bound(w@, e.id);
    }
    let mut cnt: u64 = 0;
    let mut j: usize = 0;
    while j < e.nodes.len()
        invariant
            g.wf(),
            e == &g.edges@[a as int],
            j <= e.nodes.len(),
            cnt == default_count(g.weights@, e.id, e.nodes@.take(j as int)),
            cnt <= j,
        decreases e.nodes.len() - j,
    {
        let ghost pre = e.nodes@.take(j + 1);
        assert(pre.drop_last() =~= e.nodes@.take(j as int));
        let x = e.nodes[j];
        if find_gamma(&g.weights, e.id, x).is_none() && !prefix_contains(&e.nodes, j, x) {
            cnt += 1;
        }
        j += 1;
    }
    assert(e.nodes@.take(j as int) =~= e.nodes@);
    assert(e.nodes.len() <= MAX_COUNT);
    sum + DEFAULT_GAMMA * cnt
}

/// Computes every derived quantity of a hypergraph.
pub struct Preprocess;

impl Preprocess {
    /// The incidence lists, strengths, affinities and visit rates of `hypergraph`.
    pub fn run(hypergraph: &HyperGraph) -> (r: PreprocessResult)
        requires
            hypergraph.wf(),
        ensures
            r.describes(hypergraph),
    {
        let g = hypergraph;
        let mut E: Vec<Vec<usize>> = Vec::new();
        let mut d: Vec<u64> = Vec::new();
        let mut pi: Vec<u64> = Vec::new();
        let mut k: usize = 0;
        while k < g.nodes.len()
            invariant
                g.wf(),
                k <= g.nodes.len(),
                E.len() == k,
                d.len() == k,
                pi.len() == k,
                forall|i: int| 0 <= i < k ==> (#[trigger] E@[i])@ == incident(g.edges@, g.nodes@[i].id),
                forall|i: int| 0 <= i < k ==> #[trigger] d@[i] == strength(g.edges@, g.nodes@[i].id),
                forall|i: int|
                    0 <= i < k ==> #[trigger] pi@[i] == visit_rate(g.edges@, g.weights@, g.nodes@[i].id),
            decreases g.nodes.len() - k,
        {
            let u = g.nodes[k].id;
            E.push(incident_edges(g, u));
            d.push(node_strength(g, u));
            pi.push(node_visit_rate(g, u));
            k += 1;
        }
        let mut gamma: Vec<Vec<u64>> = Vec::new();
        let mut delta: Vec<u64> = Vec::new();
        let mut pi_alpha: Vec<Vec<u64>> = Vec::new();
        let mut a: usize = 0;
        while a < g.edges.len()
            invariant
                g.wf(),
                a <= g.edges.len(),
                gamma.len() == a,
                delta.len() == a,
                pi_alpha.len() == a,
                forall|b: int| 0 <= b < a ==> (#[trigger] gamma@[b]).len() == g.edges@[b].nodes.len(),
                forall|b: int| 0 <= b < a ==> (#[trigger] pi_alpha@[b]).len() == g.edges@[b].nodes.len(),
                forall|b: int|
                    0 <= b < a ==> #[trigger] delta@[b] == edge_strength(g.weights@, g.edges@[b]),
                forall|b: int, j: int|
                    0 <= b < a && 0 <= j < g.edges@[b].nodes.len() ==> (#[trigger] gamma@[b]@[j])
                        == gamma_of(g.weights@, g.edges@[b].id, g.edges@[b].nodes@[j]),
                forall|b: int, j: int|
                    0 <= b < a && 0 <= j < g.edges@[b].nodes.len() ==> (#[trigger] pi_alpha@[b]@[j])
                        == state_rate(g.weights@, g.edges@[b], j),
            decreases g.edges.len() - a,
        {
            let e = &g.edges[a];
            assert(valid_weight(e.omega));
            let mut row: Vec<u64> = Vec::new();
            let mut rates: Vec<u64> = Vec::new();
            let mut j: usize = 0;
            while j < e.nodes.len()
                invariant
                    g.wf(),
                    a < g.edges.len(),
                    e == &g.edges@[a as int],
                    valid_weight(e.omega),
                    j <= e.nodes.len(),
                    row.len() == j,
                    rates.len() == j,
                    forall|i: int|
                        0 <= i < j ==> {
                            &&& (#[trigger] row@[i]) == gamma_of(g.weights@, e.id, e.nodes@[i])
                            &&& rates@[i] == state_rate(g.weights@, *e, i)
                        },
                decreases e.nodes.len() - j,
            {
                let gm = affinity(g, e.id, e.nodes[j]);
                assert(e.omega * gm <= MAX_WEIGHT * MAX_WEIGHT) by (nonlinear_arith)
                    requires
                        e.omega <= MAX_WEIGHT,
                        gm <= MAX_WEIGHT,
                ;
                row.push(gm);
                rates.push(e.omega * gm);
                j += 1;
            }
            let ghost old_gamma = gamma@;
            let ghost old_rates = pi_alpha@;
            let ghost old_delta = delta@;
            gamma.push(row);
            pi_alpha.push(rates);
            delta.push(hyperedge_strength(g, a));
            assert forall|b: int| 0 <= b < a + 1 implies (#[trigger] gamma@[b]).len()
                == g.edges@[b].nodes.len() by {
                if b < a {
                    assert(gamma@[b] == old_gamma[b]);
                }
            }
            assert forall|b: int| 0 <= b < a + 1 implies (#[trigger] pi_alpha@[b]).len()
                == g.edges@[b].nodes.len() by {
                if b < a {
                    assert(pi_alpha@[b] == old_rates[b]);
                }
            }
            assert forall|b: int| 0 <= b < a + 1 implies #[trigger] delta@[b] == edge_strength(
                g.weights@,
                g.edges@[b],
            ) by {
                if b < a {
                    assert(delta@[b] == old_delta[b]);
                }
            }
            assert forall|b: int, i: int|
                0 <= b < a + 1 && 0 <= i < g.edges@[b].nodes.len() implies (#[trigger] gamma@[b]@[i])
                == gamma_of(g.weights@, g.edges@[b].id, g.edges@[b].nodes@[i]) by {
                if b < a {
                    assert(gamma@[b] == old_gamma[b]);
                } else {
                    assert(gamma@[b]@[i] == row@[i]);
                }
            }
            assert forall|b: int, i: int|
                0 <= b < a + 1 && 0 <= i < g.edges@[b].nodes.len() implies (#[trigger] pi_alpha@[b]@[i])
                == state_rate(g.weights@, g.edges@[b], i) by {
                if b < a {
                    assert(pi_alpha@[b] == old_rates[b]);
                } else {
                    assert(pi_alpha@[b]@[i] == rates@[i]);
                    assert(row@[i] == gamma_of(g.weights@, e.id, e.nodes@[i]));
                }
            }
            a += 1;
        }
        PreprocessResult { E, d, gamma, delta, pi, pi_alpha }
    }
}

} // verus!
