//! The bipartite projection, and its non-backtracking state-space expansion.
use crate::hypergraph::{
    declared_node, gamma_of, Gamma, HyperEdge, HyperGraph, Node, NodeId, MAX_COUNT, MAX_ID,
    MAX_WEIGHT, UNIT,
};
use crate::network::{
    INVERSE_THRESHOLD, kept, lemma_links_kept_concat, links_kept, ratio, reaches_threshold, Link, Ratio, StateNode,
};
use crate::hypergraph::{edges_bounded, weights_bounded};
use crate::preprocess::{
    occurrences, lemma_gamma_bound, lemma_strength_bound, lemma_visit_rate_bound, strength, visit_rate,
    PreprocessResult,
};
use vstd::prelude::*;

verus! {

/// Largest node id, or zero without nodes.
pub open spec fn max_id(nodes: Seq<Node>) -> int
    decreases nodes.len(),
{
    if nodes.len() == 0 {
        0
    } else if nodes.last().id > max_id(nodes.drop_last()) {
        nodes.last().id as int
    } else {
        max_id(nodes.drop_last())
    }
}

/// `P_ue * P_ev = (omega(e) / d[u]) * gamma(e, u)` reaches the pruning threshold.
pub open spec fn pair_kept(edges: Seq<HyperEdge>, w: Seq<Gamma>, e: HyperEdge, u: NodeId) -> bool {
    kept(e.omega * gamma_of(w, e.id, u), strength(edges, u) * UNIT)
}

/// Weight of the link from `u` into hyperedge `e`: `pi[u] * omega(e) / d[u]`, in whole units.
pub open spec fn into_edge(edges: Seq<HyperEdge>, w: Seq<Gamma>, e: HyperEdge, u: NodeId) -> Ratio {
    ratio(visit_rate(edges, w, u) * e.omega, UNIT * UNIT * strength(edges, u))
}

/// Weight of the link from hyperedge `e` to `u`: `gamma(e, u)`, in whole units.
pub open spec fn out_of_edge(w: Seq<Gamma>, e: HyperEdge, u: NodeId) -> Ratio {
    ratio(gamma_of(w, e.id, u) as int, UNIT as int)
}

/// Links between the first `j` members of `e` and its feature node `f`.
pub open spec fn feature_links(
    edges: Seq<HyperEdge>,
    w: Seq<Gamma>,
    e: HyperEdge,
    f: NodeId,
    j: int,
) -> Seq<Link>
    decreases j,
{
    if j <= 0 {
        seq![]
    } else {
        let u = e.nodes@[j - 1];
        let prev = feature_links(edges, w, e, f, j - 1);
        if pair_kept(edges, w, e, u) {
            prev.push(Link { source: u, target: f, weight: into_edge(edges, w, e, u) }).push(
                Link { source: f, target: u, weight: out_of_edge(w, e, u) },
            )
        } else {
            prev
        }
    }
}

/// Links of the first `n` hyperedges, whose feature nodes are numbered from `first`.
pub open spec fn bipartite_links(edges: Seq<HyperEdge>, w: Seq<Gamma>, first: int, n: int) -> Seq<
    Link,
>
    decreases n,
{
    if n <= 0 {
        seq![]
    } else {
        let e = edges[n - 1];
        bipartite_links(edges, w, first, n - 1) + feature_links(
            edges,
            w,
            e,
            (first + n - 1) as NodeId,
            e.nodes.len() as int,
        )
    }
}

/// A bipartite network: the hypergraph's nodes, then one feature node per hyperedge.
#[derive(Clone, Debug, PartialEq, Eq)]
pub struct BipartiteNetwork {
    /// Id of the first feature node; hyperedge `i` has feature node `first_feature + i`.
    pub first_feature: NodeId,
    pub links: Vec<Link>,
}

/// A state-space network over states of nodes and of feature nodes.
#[derive(Clone, Debug, PartialEq, Eq)]
pub struct StateNetwork {
    pub states: Vec<StateNode>,
    /// Id of the first feature state.
    pub first_feature_state: NodeId,
    pub links: Vec<Link>,
}

impl BipartiteNetwork {
    /// This is the bipartite network of `g`.
    pub open spec fn is_bipartite_of(&self, g: &HyperGraph) -> bool {
        &&& self.first_feature == max_id(g.nodes@) + 1
        &&& self.links@ == bipartite_links(
            g.edges@,
            g.weights@,
            self.first_feature as int,
            g.edges.len() as int,
        )
    }
}

impl StateNetwork {
    /// This is the non-backtracking network of `g`.
    pub open spec fn is_non_backtracking_of(&self, g: &HyperGraph) -> bool {
        &&& self.first_feature_state == g.nodes.len()
        &&& self.states@ == all_states(g.nodes@, g.edges@, max_id(g.nodes@) + 1, g.edges.len() as int)
        &&& self.links@ == state_links(g.nodes@, g.edges@, g.weights@, g.edges.len() as int)
    }
}

/// Largest node id of `g`, or zero without nodes.
fn largest_id(g: &HyperGraph) -> (r: usize)
    requires
        g.wf(),
    ensures
        r == max_id(g.nodes@),
        r <= MAX_ID,
{
    let mut m: usize = 0;
    let mut k: usize = 0;
    while k < g.nodes.len()
        invariant
            g.wf(),
            k <= g.nodes.len(),
            m == max_id(g.nodes@.take(k as int)),
            m <= MAX_ID,
        decreases g.nodes.len() - k,
    {
        let ghost pre = g.nodes@.take(k + 1);
        assert(pre.drop_last() =~= g.nodes@.take(k as int));
        assert(pre.last() == g.nodes@[k as int]);
        if g.nodes[k].id > m {
            m = g.nodes[k].id;
        }
        k += 1;
    }
    assert(g.nodes@.take(k as int) =~= g.nodes@);
    m
}

/// For member `j` of hyperedge `a`: whether the pair survives pruning, and the
/// weights into and out of the hyperedge.
fn member_weights(g: &HyperGraph, pre: &PreprocessResult, a: usize, j: usize) -> (r: (
    bool,
    Ratio,
    Ratio,
))
    requires
        g.wf(),
        pre.describes(g),
        a < g.edges.len(),
        j < g.edges@[a as int].nodes.len(),
    ensures
        ({
            let e = g.edges@[a as int];
            let u = e.nodes@[j as int];
            &&& r.0 == pair_kept(g.edges@, g.weights@, e, u)
            &&& r.1 == into_edge(g.edges@, g.weights@, e, u)
            &&& r.2 == out_of_edge(g.weights@, e, u)
        }),
{
    let e = &g.edges[a];
    let u = e.nodes[j];
    assert(declared_node(g.nodes@, g.edges@[a as int].nodes@[j as int]));
    let ku = g.node_position(u);
    let du = pre.d[ku];
    let piu = pre.pi[ku];
    let gu = pre.gamma[a][j];
    proof {
        lemma_strength_bound(g.edges@, u);
        lemma_visit_rate_bound(g.edges@, g.weights@, u);
        lemma_gamma_bound(g.weights@, e.id, u);
    }
    assert(g.edges.len() * (MAX_COUNT * MAX_WEIGHT) <= MAX_COUNT * (MAX_COUNT * MAX_WEIGHT))
        by (nonlinear_arith)
        requires
            g.edges.len() <= MAX_COUNT,
    ;
    assert(g.edges.len() * (MAX_WEIGHT * MAX_WEIGHT) <= MAX_COUNT * (MAX_WEIGHT * MAX_WEIGHT))
        by (nonlinear_arith)
        requires
            g.edges.len() <= MAX_COUNT,
    ;
    assert(MAX_COUNT * (MAX_COUNT * MAX_WEIGHT) == 0x40_0000_0000_0000);
    assert(MAX_COUNT * (MAX_WEIGHT * MAX_WEIGHT) == 0x8000_0000_0000_0000);
    assert(e.omega as u128 * gu as u128 <= MAX_WEIGHT * MAX_WEIGHT) by (nonlinear_arith)
        requires
            e.omega <= MAX_WEIGHT,
            gu <= MAX_WEIGHT,
    ;
    assert(du as u128 * UNIT as u128 <= 0x40_0000_0000_0000 * UNIT) by (nonlinear_arith)
        requires
            du <= 0x40_0000_0000_0000,
    ;
    let keep = reaches_threshold(e.omega as u128 * gu as u128, du as u128 * UNIT as u128);
    assert(piu as u128 * e.omega as u128 <= 0x8000_0000_0000_0000 * MAX_WEIGHT)
        by (nonlinear_arith)
        requires
            piu <= 0x8000_0000_0000_0000,
            e.omega <= MAX_WEIGHT,
    ;
    let u2 = (UNIT as u128) * (UNIT as u128);
    assert(u2 * du <= 100_000_000 * 0x40_0000_0000_0000) by (nonlinear_arith)
        requires
            u2 == 100_000_000,
            du <= 0x40_0000_0000_0000,
    ;
    let into = Ratio { num: piu as u128 * e.omega as u128, den: u2 * du as u128 };
    let out = Ratio { num: gu as u128, den: UNIT as u128 };
    (keep, into, out)
}

/// The bipartite network of `g`, with feature nodes numbered from the largest node id plus one.
pub fn bipartite(hypergraph: &HyperGraph, values: &PreprocessResult) -> (r: BipartiteNetwork)
    requires
        hypergraph.wf(),
        values.describes(hypergraph),
    ensures
        r.first_feature == max_id(hypergraph.nodes@) + 1,
        r.links@ == bipartite_links(
            hypergraph.edges@,
            hypergraph.weights@,
            r.first_feature as int,
            hypergraph.edges.len() as int,
        ),
{
    let g = hypergraph;
    let first = largest_id(g) + 1;
    let ghost edges = g.edges@;
    let ghost w = g.weights@;
    let mut links: Vec<Link> = Vec::new();
    let mut a: usize = 0;
    while a < g.edges.len()
        invariant
            g.wf(),
            values.describes(g),
            edges == g.edges@,
            w == g.weights@,
            first <= MAX_ID + 1,
            a <= g.edges.len(),
            links@ == bipartite_links(edges, w, first as int, a as int),
        decreases g.edges.len() - a,
    {
        let f = first + a;
        let ghost e = edges[a as int];
        let ghost done = links@;
        let n = g.edges[a].nodes.len();
        let mut j: usize = 0;
        while j < n
            invariant
                g.wf(),
                values.describes(g),
                edges == g.edges@,
                w == g.weights@,
                a < g.edges.len(),
                e == edges[a as int],
                n == e.nodes.len(),
                j <= n,
                links@ == done + feature_links(edges, w, e, f, j as int),
            decreases n - j,
        {
            let (keep, into, out) = member_weights(g, values, a, j);
            let u = g.edges[a].nodes[j];
            if keep {
                links.push(Link { source: u, target: f, weight: into });
                links.push(Link { source: f, target: u, weight: out });
            }
            j += 1;
        }
        assert(bipartite_links(edges, w, first as int, a + 1) =~= done + feature_links(
            edges,
            w,
            e,
            f,
            n as int,
        ));
        a += 1;
    }
    BipartiteNetwork { first_feature: first, links }
}

/// Id of the first state of the members of hyperedge `a`: node states come first,
/// then one state per member of each hyperedge, in declaration order.
pub open spec fn state_base(n_nodes: int, edges: Seq<HyperEdge>, a: int) -> int
    decreases a,
{
    if a <= 0 {
        n_nodes
    } else {
        state_base(n_nodes, edges, a - 1) + edges[a - 1].nodes.len()
    }
}

/// One state per node, numbered by position.
pub open spec fn node_states(nodes: Seq<Node>) -> Seq<StateNode> {
    Seq::new(nodes.len(), |k: int| StateNode { state_id: k as NodeId, node_id: nodes[k].id })
}

/// `len` states of feature node `f`, numbered from `base`.
pub open spec fn member_states(base: int, f: NodeId, len: int) -> Seq<StateNode> {
    Seq::new(len as nat, |i: int| StateNode { state_id: (base + i) as NodeId, node_id: f })
}

/// The node states, then the states of the members of the first `n` hyperedges.
pub open spec fn all_states(nodes: Seq<Node>, edges: Seq<HyperEdge>, first: int, n: int) -> Seq<
    StateNode,
>
    decreases n,
{
    if n <= 0 {
        node_states(nodes)
    } else {
        all_states(nodes, edges, first, n - 1) + member_states(
            state_base(nodes.len() as int, edges, n - 1),
            (first + n - 1) as NodeId,
            edges[n - 1].nodes.len() as int,
        )
    }
}

/// State of the node whose id is `u`.
pub open spec fn node_state(nodes: Seq<Node>, u: NodeId) -> int {
    choose|k: int| 0 <= k < nodes.len() && nodes[k].id == u
}

/// Links from the first `m` member states of a hyperedge, numbered from `base`,
/// back to node state `s`, all but the one of member `i`.
pub open spec fn return_links(base: int, s: int, i: int, m: int, weight: Ratio) -> Seq<Link>
    decreases m,
{
    if m <= 0 {
        seq![]
    } else {
        let prev = return_links(base, s, i, m - 1, weight);
        if m - 1 == i {
            prev
        } else {
            prev.push(Link { source: (base + m - 1) as NodeId, target: s as NodeId, weight })
        }
    }
}

/// Links of member `i` of hyperedge `e`, whose member states are numbered from `base`:
/// into its own member state, and back from every other member state.
pub open spec fn member_state_links(
    nodes: Seq<Node>,
    edges: Seq<HyperEdge>,
    w: Seq<Gamma>,
    e: HyperEdge,
    base: int,
    i: int,
) -> Seq<Link> {
    let u = e.nodes@[i];
    let s = node_state(nodes, u);
    if pair_kept(edges, w, e, u) {
        seq![Link { source: s as NodeId, target: (base + i) as NodeId, weight: into_edge(edges, w, e, u) }]
            + return_links(base, s, i, e.nodes.len() as int, out_of_edge(w, e, u))
    } else {
        seq![]
    }
}

/// Links of the first `j` members of hyperedge `e`.
pub open spec fn edge_state_links(
    nodes: Seq<Node>,
    edges: Seq<HyperEdge>,
    w: Seq<Gamma>,
    e: HyperEdge,
    base: int,
    j: int,
) -> Seq<Link>
    decreases j,
{
    if j <= 0 {
        seq![]
    } else {
        edge_state_links(nodes, edges, w, e, base, j - 1) + member_state_links(
            nodes,
            edges,
            w,
            e,
            base,
            j - 1,
        )
    }
}

/// Links of the first `n` hyperedges of the non-backtracking network.
pub open spec fn state_links(nodes: Seq<Node>, edges: Seq<HyperEdge>, w: Seq<Gamma>, n: int) -> Seq<
    Link,
>
    decreases n,
{
    if n <= 0 {
        seq![]
    } else {
        let e = edges[n - 1];
        state_links(nodes, edges, w, n - 1) + edge_state_links(
            nodes,
            edges,
            w,
            e,
            state_base(nodes.len() as int, edges, n - 1),
            e.nodes.len() as int,
        )
    }
}

pub proof fn lemma_state_base_bound(n_nodes: int, edges: Seq<HyperEdge>, a: int)
    requires
        0 <= a <= edges.len(),
        forall|b: int| 0 <= b < edges.len() ==> (#[trigger] edges[b]).nodes.len() <= MAX_COUNT,
    ensures
        n_nodes <= state_base(n_nodes, edges, a) <= n_nodes + a * MAX_COUNT,
    decreases a,
{
    if a > 0 {
        lemma_state_base_bound(n_nodes, edges, a - 1);
        assert(edges[a - 1].nodes.len() <= MAX_COUNT);
    }
}

/// No hyperedge lists a node twice.
pub open spec fn members_distinct(edges: Seq<HyperEdge>) -> bool {
    forall|a: int, i: int, m: int|
        #![trigger edges[a].nodes@[i], edges[a].nodes@[m]]
        0 <= a < edges.len() && 0 <= i < m < edges[a].nodes.len() ==> edges[a].nodes@[i]
            != edges[a].nodes@[m]
}

/// Link `l` does not lead from the state of any member of any hyperedge back to the
/// node state of that same member.
pub open spec fn no_return_to_origin(g: &HyperGraph, l: Link) -> bool {
    forall|a: int, m: int|
        #![trigger state_base(g.nodes.len() as int, g.edges@, a), g.edges@[a].nodes@[m]]
        0 <= a < g.edges.len() && 0 <= m < g.edges@[a].nodes.len() && l.source == state_base(
            g.nodes.len() as int,
            g.edges@,
            a,
        ) + m ==> l.target != node_state(g.nodes@, g.edges@[a].nodes@[m])
}

proof fn lemma_state_base_monotone(n_nodes: int, edges: Seq<HyperEdge>, a: int, b: int)
    requires
        0 <= a < b <= edges.len(),
    ensures
        state_base(n_nodes, edges, a) + edges[a].nodes.len() <= state_base(n_nodes, edges, b),
    decreases b - a,
{
    if b > a + 1 {
        lemma_state_base_monotone(n_nodes, edges, a, b - 1);
    }
}

/// Member states of different (hyperedge, position) pairs have different ids.
proof fn lemma_state_base_injective(n_nodes: int, edges: Seq<HyperEdge>, a: int, m: int, b: int, k: int)
    requires
        0 <= a < edges.len(),
        0 <= b < edges.len(),
        0 <= m < edges[a].nodes.len(),
        0 <= k < edges[b].nodes.len(),
        state_base(n_nodes, edges, a) + m == state_base(n_nodes, edges, b) + k,
    ensures
        a == b && m == k,
{
    if a < b {
        lemma_state_base_monotone(n_nodes, edges, a, b);
    } else if b < a {
        lemma_state_base_monotone(n_nodes, edges, b, a);
    }
}

proof fn lemma_node_state_injective(nodes: Seq<Node>, x: NodeId, y: NodeId)
    requires
        declared_node(nodes, x),
        declared_node(nodes, y),
        node_state(nodes, x) == node_state(nodes, y),
    ensures
        x == y,
{
}

proof fn lemma_return_links_safe(g: &HyperGraph, a: int, i: int, m: int, weight: Ratio)
    requires
        g.wf(),
        members_distinct(g.edges@),
        0 <= a < g.edges.len(),
        0 <= i < g.edges@[a].nodes.len(),
        m <= g.edges@[a].nodes.len(),
    ensures
        forall|t: int|
            0 <= t < return_links(
                state_base(g.nodes.len() as int, g.edges@, a),
                node_state(g.nodes@, g.edges@[a].nodes@[i]),
                i,
                m,
                weight,
            ).len() ==> no_return_to_origin(
                g,
                #[trigger] return_links(
                    state_base(g.nodes.len() as int, g.edges@, a),
                    node_state(g.nodes@, g.edges@[a].nodes@[i]),
                    i,
                    m,
                    weight,
                )[t],
            ),
    decreases m,
{
    let n = g.nodes.len() as int;
    let edges = g.edges@;
    let base = state_base(n, edges, a);
    let u = edges[a].nodes@[i];
    let s = node_state(g.nodes@, u);
    if m > 0 {
        lemma_return_links_safe(g, a, i, m - 1, weight);
        let prev = return_links(base, s, i, m - 1, weight);
        let cur = return_links(base, s, i, m, weight);
        if m - 1 != i {
            assert(edges_bounded(edges));
            lemma_state_base_bound(n, edges, a + 1);
            assert((a + 1) * MAX_COUNT <= MAX_COUNT * MAX_COUNT) by (nonlinear_arith)
                requires
                    a + 1 <= MAX_COUNT,
            ;
            assert(base + m - 1 < state_base(n, edges, a + 1));
            assert(MAX_COUNT * MAX_COUNT == 0x4000_0000);
            lemma_state_base_bound(n, edges, a);
            assert(0 <= base + m - 1 < 0x8000_0000);
            assert(0x8000_0000 <= usize::MAX);
            let l = Link { source: (base + m - 1) as NodeId, target: s as NodeId, weight };
            assert(l.source == base + m - 1);
            assert(cur == prev.push(l));
            assert(declared_node(g.nodes@, u));
            assert(0 <= s < g.nodes.len());
            assert forall|b: int, k: int|
                #![trigger state_base(n, edges, b), edges[b].nodes@[k]]
                0 <= b < edges.len() && 0 <= k < edges[b].nodes.len() && l.source == state_base(
                    n,
                    edges,
                    b,
                ) + k implies l.target != node_state(g.nodes@, edges[b].nodes@[k]) by {
                lemma_state_base_injective(n, edges, a, m - 1, b, k);
                let x = edges[a].nodes@[m - 1];
                assert(declared_node(g.nodes@, x));
                if i < m - 1 {
                    assert(u != x);
                } else {
                    assert(x != u);
                }
                if l.target == node_state(g.nodes@, x) {
                    lemma_node_state_injective(g.nodes@, u, x);
                }
            }
            assert forall|t: int| 0 <= t < cur.len() implies no_return_to_origin(g, #[trigger] cur[t]) by {
                if t < prev.len() {
                    assert(cur[t] == prev[t]);
                }
            }
        }
    }
}

/// No link of `links` leads from a member state back to the node state of its own member.
pub open spec fn never_returns(g: &HyperGraph, links: Seq<Link>) -> bool {
    forall|t: int| 0 <= t < links.len() ==> no_return_to_origin(g, #[trigger] links[t])
}

proof fn lemma_never_returns_concat(g: &HyperGraph, x: Seq<Link>, y: Seq<Link>)
    requires
        never_returns(g, x),
        never_returns(g, y),
    ensures
        never_returns(g, x + y),
{
    assert forall|t: int| 0 <= t < (x + y).len() implies no_return_to_origin(g, #[trigger] (x + y)[t]) by {
        if t < x.len() {
            assert((x + y)[t] == x[t]);
        } else {
            assert((x + y)[t] == y[t - x.len()]);
        }
    }
}

proof fn lemma_member_state_links_safe(g: &HyperGraph, a: int, i: int)
    requires
        g.wf(),
        members_distinct(g.edges@),
        0 <= a < g.edges.len(),
        0 <= i < g.edges@[a].nodes.len(),
    ensures
        never_returns(
            g,
            member_state_links(
                g.nodes@,
                g.edges@,
                g.weights@,
                g.edges@[a],
                state_base(g.nodes.len() as int, g.edges@, a),
                i,
            ),
        ),
{
    let n = g.nodes.len() as int;
    let edges = g.edges@;
    let w = g.weights@;
    let e = edges[a];
    let base = state_base(n, edges, a);
    let u = e.nodes@[i];
    let s = node_state(g.nodes@, u);
    if pair_kept(edges, w, e, u) {
        let fwd = Link { source: s as NodeId, target: (base + i) as NodeId, weight: into_edge(edges, w, e, u) };
        assert(declared_node(g.nodes@, u));
        assert(0 <= s < g.nodes.len());
        assert(edges_bounded(edges));
        assert forall|b: int, k: int|
            #![trigger state_base(n, edges, b), edges[b].nodes@[k]]
            0 <= b < edges.len() && 0 <= k < edges[b].nodes.len() && fwd.source == state_base(
                n,
                edges,
                b,
            ) + k implies fwd.target != node_state(g.nodes@, edges[b].nodes@[k]) by {
            lemma_state_base_bound(n, edges, b);
        }
        assert(never_returns(g, seq![fwd]));
        lemma_return_links_safe(g, a, i, e.nodes.len() as int, out_of_edge(w, e, u));
        lemma_never_returns_concat(
            g,
            seq![fwd],
            return_links(base, s, i, e.nodes.len() as int, out_of_edge(w, e, u)),
        );
    }
}

proof fn lemma_edge_state_links_safe(g: &HyperGraph, a: int, j: int)
    requires
        g.wf(),
        members_distinct(g.edges@),
        0 <= a < g.edges.len(),
        j <= g.edges@[a].nodes.len(),
    ensures
        never_returns(
            g,
            edge_state_links(
                g.nodes@,
                g.edges@,
                g.weights@,
                g.edges@[a],
                state_base(g.nodes.len() as int, g.edges@, a),
                j,
            ),
        ),
    decreases j,
{
    if j > 0 {
        let base = state_base(g.nodes.len() as int, g.edges@, a);
        lemma_edge_state_links_safe(g, a, j - 1);
        lemma_member_state_links_safe(g, a, j - 1);
        lemma_never_returns_concat(
            g,
            edge_state_links(g.nodes@, g.edges@, g.weights@, g.edges@[a], base, j - 1),
            member_state_links(g.nodes@, g.edges@, g.weights@, g.edges@[a], base, j - 1),
        );
    }
}

/// In the non-backtracking network of a hypergraph whose hyperedges list each member
/// once, no link leads from the state of a member of a hyperedge back to the node state
/// of that same member: the walk never returns along the step it just took.
pub proof fn lemma_non_backtracking(g: &HyperGraph, n: int)
    requires
        g.wf(),
        members_distinct(g.edges@),
        n <= g.edges.len(),
    ensures
        never_returns(g, state_links(g.nodes@, g.edges@, g.weights@, n)),
    decreases n,
{
    if n > 0 {
        let e = g.edges@[n - 1];
        lemma_non_backtracking(g, n - 1);
        lemma_edge_state_links_safe(g, n - 1, e.nodes.len() as int);
        lemma_never_returns_concat(
            g,
            state_links(g.nodes@, g.edges@, g.weights@, n - 1),
            edge_state_links(
                g.nodes@,
                g.edges@,
                g.weights@,
                e,
                state_base(g.nodes.len() as int, g.edges@, n - 1),
                e.nodes.len() as int,
            ),
        );
    }
}

proof fn lemma_occurrences_once(s: Seq<NodeId>, u: NodeId)
    requires
        forall|i: int, m: int| 0 <= i < m < s.len() ==> s[i] != s[m],
    ensures
        occurrences(s, u) == if s.contains(u) {
            1int
        } else {
            0
        },
    decreases s.len(),
{
    if s.len() > 0 {
        let prev = s.drop_last();
        lemma_occurrences_once(prev, u);
        if prev.contains(u) {
            let i = choose|i: int| 0 <= i < prev.len() && prev[i] == u;
            assert(s[i] == u);
            assert(s.last() != u) by {
                assert(s[i] != s[s.len() - 1]);
            }
        }
        if s.contains(u) && !prev.contains(u) {
            let i = choose|i: int| 0 <= i < s.len() && s[i] == u;
            if i < prev.len() {
                assert(prev[i] == u);
            }
            assert(s.last() == u);
        }
        if s.last() == u {
            assert(s[s.len() - 1] == u);
        }
    }
}

/// Without repeated members, a node's strength is at most its visit rate (every
/// affinity is at least one weight unit).
proof fn lemma_strength_within_rate(edges: Seq<HyperEdge>, w: Seq<Gamma>, u: NodeId)
    requires
        members_distinct(edges),
        weights_bounded(w),
    ensures
        strength(edges, u) <= visit_rate(edges, w, u),
    decreases edges.len(),
{
    if edges.len() > 0 {
        let prev = edges.drop_last();
        assert(members_distinct(prev)) by {
            assert forall|a: int, i: int, m: int|
                #![trigger prev[a].nodes@[i], prev[a].nodes@[m]]
                0 <= a < prev.len() && 0 <= i < m < prev[a].nodes.len() implies prev[a].nodes@[i]
                != prev[a].nodes@[m] by {
                assert(prev[a] == edges[a]);
            }
        }
        lemma_strength_within_rate(prev, w, u);
        let e = edges.last();
        assert(e == edges[edges.len() - 1]);
        assert forall|i: int, m: int| 0 <= i < m < e.nodes@.len() implies e.nodes@[i] != e.nodes@[m] by {
            assert(edges[edges.len() - 1].nodes@[i] != edges[edges.len() - 1].nodes@[m]);
        }
        lemma_occurrences_once(e.nodes@, u);
        lemma_gamma_bound(w, e.id, u);
        let gm = gamma_of(w, e.id, u);
        assert(e.omega * 1 <= e.omega * gm) by (nonlinear_arith)
            requires
                gm >= 1,
        ;
    }
}

/// Both weights of a kept pair reach the threshold, when no hyperedge repeats a member.
proof fn lemma_pair_weights_kept(g: &HyperGraph, a: int, j: int)
    requires
        g.wf(),
        members_distinct(g.edges@),
        0 <= a < g.edges.len(),
        0 <= j < g.edges@[a].nodes.len(),
    ensures
        ({
            let e = g.edges@[a];
            let u = e.nodes@[j];
            &&& kept(
                into_edge(g.edges@, g.weights@, e, u).num as int,
                into_edge(g.edges@, g.weights@, e, u).den as int,
            ) || !pair_kept(g.edges@, g.weights@, e, u)
            &&& kept(out_of_edge(g.weights@, e, u).num as int, out_of_edge(g.weights@, e, u).den as int)
        }),
{
    let edges = g.edges@;
    let w = g.weights@;
    let e = edges[a];
    let u = e.nodes@[j];
    let pi = visit_rate(edges, w, u);
    let d = strength(edges, u);
    lemma_gamma_bound(w, e.id, u);
    lemma_strength_bound(edges, u);
    lemma_visit_rate_bound(edges, w, u);
    lemma_strength_within_rate(edges, w, u);
    assert(edges.len() * (MAX_COUNT * MAX_WEIGHT) <= MAX_COUNT * (MAX_COUNT * MAX_WEIGHT))
        by (nonlinear_arith)
        requires
            edges.len() <= MAX_COUNT,
    ;
    assert(edges.len() * (MAX_WEIGHT * MAX_WEIGHT) <= MAX_COUNT * (MAX_WEIGHT * MAX_WEIGHT))
        by (nonlinear_arith)
        requires
            edges.len() <= MAX_COUNT,
    ;
    assert(0 <= pi * e.omega <= 0x8000_0000_0000_0000 * MAX_WEIGHT) by (nonlinear_arith)
        requires
            0 <= pi <= 0x8000_0000_0000_0000,
            1 <= e.omega <= MAX_WEIGHT,
    ;
    assert(0 <= UNIT * UNIT * d <= 100_000_000 * 0x40_0000_0000_0000) by (nonlinear_arith)
        requires
            0 <= d <= 0x40_0000_0000_0000,
    ;
    if pair_kept(edges, w, e, u) {
        assert(d * UNIT > 0);
        assert(d > 0);
        assert(pi * e.omega * INVERSE_THRESHOLD >= UNIT * UNIT * d) by (nonlinear_arith)
            requires
                d <= pi,
                0 <= d,
                e.omega >= 1,
        ;
        assert(UNIT * UNIT * d > 0) by (nonlinear_arith)
            requires
                d > 0,
        ;
    }
    let g0 = gamma_of(w, e.id, u);
    assert(g0 as int * INVERSE_THRESHOLD >= UNIT as int) by (nonlinear_arith)
        requires
            g0 >= 1,
    ;
}

proof fn lemma_feature_links_kept(g: &HyperGraph, a: int, f: NodeId, j: int)
    requires
        g.wf(),
        members_distinct(g.edges@),
        0 <= a < g.edges.len(),
        j <= g.edges@[a].nodes.len(),
    ensures
        links_kept(feature_links(g.edges@, g.weights@, g.edges@[a], f, j)),
    decreases j,
{
    if j > 0 {
        lemma_feature_links_kept(g, a, f, j - 1);
        lemma_pair_weights_kept(g, a, j - 1);
        let prev = feature_links(g.edges@, g.weights@, g.edges@[a], f, j - 1);
        let cur = feature_links(g.edges@, g.weights@, g.edges@[a], f, j);
        assert forall|i: int| 0 <= i < cur.len() implies kept(
            (#[trigger] cur[i]).weight.num as int,
            cur[i].weight.den as int,
        ) by {
            if i < prev.len() {
                assert(cur[i] == prev[i]);
            }
        }
    }
}

/// Every link of a bipartite network weighs at least `1 / 10^10`, when no hyperedge
/// repeats a member.
pub proof fn lemma_bipartite_pruned(g: &HyperGraph, first: int, n: int)
    requires
        g.wf(),
        members_distinct(g.edges@),
        n <= g.edges.len(),
    ensures
        links_kept(bipartite_links(g.edges@, g.weights@, first, n)),
    decreases n,
{
    if n > 0 {
        let e = g.edges@[n - 1];
        lemma_bipartite_pruned(g, first, n - 1);
        lemma_feature_links_kept(g, n - 1, (first + n - 1) as NodeId, e.nodes.len() as int);
        lemma_links_kept_concat(
            bipartite_links(g.edges@, g.weights@, first, n - 1),
            feature_links(g.edges@, g.weights@, e, (first + n - 1) as NodeId, e.nodes.len() as int),
        );
    }
}

proof fn lemma_return_links_kept(base: int, s: int, i: int, m: int, weight: Ratio)
    requires
        kept(weight.num as int, weight.den as int),
    ensures
        links_kept(return_links(base, s, i, m, weight)),
    decreases m,
{
    if m > 0 {
        lemma_return_links_kept(base, s, i, m - 1, weight);
        let prev = return_links(base, s, i, m - 1, weight);
        let cur = return_links(base, s, i, m, weight);
        assert forall|t: int| 0 <= t < cur.len() implies kept(
            (#[trigger] cur[t]).weight.num as int,
            cur[t].weight.den as int,
        ) by {
            if t < prev.len() {
                assert(cur[t] == prev[t]);
            }
        }
    }
}

proof fn lemma_edge_state_links_kept(g: &HyperGraph, a: int, base: int, j: int)
    requires
        g.wf(),
        members_distinct(g.edges@),
        0 <= a < g.edges.len(),
        j <= g.edges@[a].nodes.len(),
    ensures
        links_kept(edge_state_links(g.nodes@, g.edges@, g.weights@, g.edges@[a], base, j)),
    decreases j,
{
    if j > 0 {
        let edges = g.edges@;
        let w = g.weights@;
        let e = edges[a];
        let u = e.nodes@[j - 1];
        lemma_edge_state_links_kept(g, a, base, j - 1);
        lemma_pair_weights_kept(g, a, j - 1);
        let s = node_state(g.nodes@, u);
        if pair_kept(edges, w, e, u) {
            let fwd = Link { source: s as NodeId, target: (base + j - 1) as NodeId, weight: into_edge(edges, w, e, u) };
            assert(links_kept(seq![fwd]));
            lemma_return_links_kept(base, s, j - 1, e.nodes.len() as int, out_of_edge(w, e, u));
            lemma_links_kept_concat(seq![fwd], return_links(base, s, j - 1, e.nodes.len() as int, out_of_edge(w, e, u)));
        }
        lemma_links_kept_concat(
            edge_state_links(g.nodes@, edges, w, e, base, j - 1),
            member_state_links(g.nodes@, edges, w, e, base, j - 1),
        );
    }
}

/// Every link of a non-backtracking network weighs at least `1 / 10^10`, when no
/// hyperedge repeats a member.
pub proof fn lemma_non_backtracking_pruned(g: &HyperGraph, n: int)
    requires
        g.wf(),
        members_distinct(g.edges@),
        n <= g.edges.len(),
    ensures
        links_kept(state_links(g.nodes@, g.edges@, g.weights@, n)),
    decreases n,
{
    if n > 0 {
        let e = g.edges@[n - 1];
        let base = state_base(g.nodes.len() as int, g.edges@, n - 1);
        lemma_non_backtracking_pruned(g, n - 1);
        lemma_edge_state_links_kept(g, n - 1, base, e.nodes.len() as int);
        lemma_links_kept_concat(
            state_links(g.nodes@, g.edges@, g.weights@, n - 1),
            edge_state_links(g.nodes@, g.edges@, g.weights@, e, base, e.nodes.len() as int),
        );
    }
}

/// The node state of `u`, which is its position among the nodes.
fn state_of(g: &HyperGraph, u: NodeId) -> (r: usize)
    requires
        g.wf(),
        declared_node(g.nodes@, u),
    ensures
        r == node_state(g.nodes@, u),
        r < g.nodes.len(),
{
    let k = g.node_position(u);
    let ghost c = node_state(g.nodes@, u);
    assert(0 <= c < g.nodes.len() && g.nodes@[c].id == u);
    assert(c == k);
    k
}

/// The non-backtracking network of `g`: a state per node, a state per member of each
/// hyperedge, links from a node state into its own member state, and from every other
/// member state of the hyperedge back to the node state.
pub fn non_backtracking(hypergraph: &HyperGraph, values: &PreprocessResult) -> (r: StateNetwork)
    requires
        hypergraph.wf(),
        values.describes(hypergraph),
    ensures
        r.first_feature_state == hypergraph.nodes.len(),
        r.states@ == all_states(
            hypergraph.nodes@,
            hypergraph.edges@,
            max_id(hypergraph.nodes@) + 1,
            hypergraph.edges.len() as int,
        ),
        r.links@ == state_links(
            hypergraph.nodes@,
            hypergraph.edges@,
            hypergraph.weights@,
            hypergraph.edges.len() as int,
        ),
{
    let g = hypergraph;
    let first = largest_id(g) + 1;
    let ghost nodes = g.nodes@;
    let ghost edges = g.edges@;
    let ghost w = g.weights@;
    let mut states: Vec<StateNode> = Vec::new();
    let mut k: usize = 0;
    while k < g.nodes.len()
        invariant
            k <= g.nodes.len(),
            nodes == g.nodes@,
            states@ =~= node_states(nodes.take(k as int)),
        decreases g.nodes.len() - k,
    {
        states.push(StateNode { state_id: k, node_id: g.nodes[k].id });
        k += 1;
        assert(states@ =~= node_states(nodes.take(k as int)));
    }
    assert(nodes.take(k as int) =~= nodes);
    let mut links: Vec<Link> = Vec::new();
    let mut base: usize = g.nodes.len();
    let mut a: usize = 0;
    while a < g.edges.len()
        invariant
            g.wf(),
            values.describes(g),
            nodes == g.nodes@,
            edges == g.edges@,
            w == g.weights@,
            first == max_id(nodes) + 1,
            first <= MAX_ID + 1,
            a <= g.edges.len(),
            base == state_base(nodes.len() as int, edges, a as int),
            states@ == all_states(nodes, edges, first as int, a as int),
            links@ == state_links(nodes, edges, w, a as int),
        decreases g.edges.len() - a,
    {
        proof {
            lemma_state_base_bound(nodes.len() as int, edges, a + 1);
            assert((a + 1) * MAX_COUNT <= MAX_COUNT * MAX_COUNT) by (nonlinear_arith)
                requires
                    a + 1 <= MAX_COUNT,
            ;
        }
        let ghost e = edges[a as int];
        let n = g.edges[a].nodes.len();
        let f = first + a;
        let ghost states_before = states@;
        let mut i: usize = 0;
        while i < n
            invariant
                e == edges[a as int],
                n == e.nodes.len(),
                i <= n,
                base + n <= usize::MAX,
                states@ =~= states_before + member_states(base as int, f, i as int),
            decreases n - i,
        {
            states.push(StateNode { state_id: base + i, node_id: f });
            i += 1;
            assert(states@ =~= states_before + member_states(base as int, f, i as int));
        }
        let ghost done = links@;
        let mut j: usize = 0;
        while j < n
            invariant
                g.wf(),
                values.describes(g),
                nodes == g.nodes@,
                edges == g.edges@,
                w == g.weights@,
                a < g.edges.len(),
                e == edges[a as int],
                n == e.nodes.len(),
                base + n <= usize::MAX,
                j <= n,
                links@ == done + edge_state_links(nodes, edges, w, e, base as int, j as int),
            decreases n - j,
        {
            let (keep, into, out) = member_weights(g, values, a, j);
            let u = g.edges[a].nodes[j];
            assert(declared_node(g.nodes@, g.edges@[a as int].nodes@[j as int]));
            let su = state_of(g, u);
            let ghost mid = links@;
            if keep {
                links.push(Link { source: su, target: base + j, weight: into });
                let ghost head = links@;
                let mut m: usize = 0;
                while m < n
                    invariant
                        n == e.nodes.len(),
                        base + n <= usize::MAX,
                        j < n,
                        m <= n,
                        links@ == head + return_links(base as int, su as int, j as int, m as int, out),
                    decreases n - m,
                {
                    if m != j {
                        links.push(Link { source: base + m, target: su, weight: out });
                    }
                    m += 1;
                }
                assert(links@ =~= mid + member_state_links(nodes, edges, w, e, base as int, j as int));
            } else {
                assert(links@ =~= mid + member_state_links(nodes, edges, w, e, base as int, j as int));
            }
            assert(done + edge_state_links(nodes, edges, w, e, base as int, j + 1) =~= mid
                + member_state_links(nodes, edges, w, e, base as int, j as int));
            j += 1;
        }
        assert(state_links(nodes, edges, w, a + 1) =~= done + edge_state_links(
            nodes,
            edges,
            w,
            e,
            base as int,
            n as int,
        ));
        base = base + n;
        a += 1;
    }
    StateNetwork { states, first_feature_state: g.nodes.len(), links }
}

/// Both bipartite networks of `hypergraph`: the plain one and the non-backtracking one.
pub fn create(hypergraph: &HyperGraph, values: &PreprocessResult) -> (r: (
    BipartiteNetwork,
    StateNetwork,
))
    requires
        hypergraph.wf(),
        values.describes(hypergraph),
    ensures
        r.0.is_bipartite_of(hypergraph),
        r.1.is_non_backtracking_of(hypergraph),
{
    (bipartite(hypergraph, values), non_backtracking(hypergraph, values))
}

} // verus!
