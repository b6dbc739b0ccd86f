//! The multilayer projection: one layer per hyperedge, links between
//! (layer, node) states.
use crate::config::RandomWalk;
use crate::hypergraph::{
    declared_node, gamma_of, Gamma, HyperEdge, HyperGraph, NodeId, DEFAULT_GAMMA, MAX_COUNT,
    MAX_WEIGHT, UNIT,
};
use crate::network::{
    all_kept, kept, lemma_all_kept_concat, lemma_contains_concat, ratio, reaches_threshold, MultilayerLink, Ratio,
};
use crate::preprocess::{
    affinity, incident, lemma_edge_strength_bound, lemma_incident_members, lemma_gamma_bound, lemma_strength_bound,
    state_rate, strength, PreprocessResult,
};
use crate::unipartite::step_denominator;
use vstd::prelude::*;

verus! {

/// Weight of the step from member `j` of layer `alpha` to node `v` of layer `beta`:
/// `pi_alpha[(alpha, u)] * (omega(beta) / d[u]) * (gamma(beta, v) / delta_e)`, in whole
/// units, where `u` is that member. Nothing when a non-lazy walk would stay, when
/// `delta_e` is not positive, or when the weight is below the pruning threshold.
pub open spec fn multilayer_term(
    edges: Seq<HyperEdge>,
    w: Seq<Gamma>,
    alpha: HyperEdge,
    j: int,
    beta: HyperEdge,
    v: NodeId,
    lazy: bool,
) -> Option<Ratio> {
    let u = alpha.nodes@[j];
    let de = step_denominator(w, beta, u, lazy);
    let num = state_rate(w, alpha, j) * beta.omega * gamma_of(w, beta.id, v);
    let den = UNIT * UNIT * strength(edges, u) * de;
    if (!lazy && u == v) || de <= 0 || !kept(num, den) {
        None
    } else {
        Some(ratio(num, den))
    }
}

/// Links from member `j` of layer `alpha` into the first `k` members of layer `beta`.
pub open spec fn layer_targets(
    edges: Seq<HyperEdge>,
    w: Seq<Gamma>,
    alpha: HyperEdge,
    j: int,
    beta: HyperEdge,
    k: int,
    lazy: bool,
) -> Seq<MultilayerLink>
    decreases k,
{
    if k <= 0 {
        seq![]
    } else {
        let prev = layer_targets(edges, w, alpha, j, beta, k - 1, lazy);
        let v = beta.nodes@[k - 1];
        match multilayer_term(edges, w, alpha, j, beta, v, lazy) {
            Some(r) => prev.push(
                MultilayerLink {
                    layer1: alpha.id,
                    source: alpha.nodes@[j],
                    layer2: beta.id,
                    target: v,
                    weight: r,
                },
            ),
            None => prev,
        }
    }
}

/// Links from member `j` of layer `alpha` into the first `t` layers incident to it.
pub open spec fn member_links(
    edges: Seq<HyperEdge>,
    w: Seq<Gamma>,
    alpha: HyperEdge,
    j: int,
    t: int,
    lazy: bool,
) -> Seq<MultilayerLink>
    decreases t,
{
    if t <= 0 {
        seq![]
    } else {
        let beta = edges[incident(edges, alpha.nodes@[j])[t - 1] as int];
        member_links(edges, w, alpha, j, t - 1, lazy) + layer_targets(
            edges,
            w,
            alpha,
            j,
            beta,
            beta.nodes.len() as int,
            lazy,
        )
    }
}

/// Links leaving the first `j` members of layer `alpha`.
pub open spec fn layer_links(
    edges: Seq<HyperEdge>,
    w: Seq<Gamma>,
    alpha: HyperEdge,
    j: int,
    lazy: bool,
) -> Seq<MultilayerLink>
    decreases j,
{
    if j <= 0 {
        seq![]
    } else {
        layer_links(edges, w, alpha, j - 1, lazy) + member_links(
            edges,
            w,
            alpha,
            j - 1,
            incident(edges, alpha.nodes@[j - 1]).len() as int,
            lazy,
        )
    }
}

/// Links leaving the first `n` layers, layer by layer in declaration order.
pub open spec fn multilayer_links(edges: Seq<HyperEdge>, w: Seq<Gamma>, n: int, lazy: bool) -> Seq<
    MultilayerLink,
>
    decreases n,
{
    if n <= 0 {
        seq![]
    } else {
        multilayer_links(edges, w, n - 1, lazy) + layer_links(
            edges,
            w,
            edges[n - 1],
            edges[n - 1].nodes.len() as int,
            lazy,
        )
    }
}

/// A weight that `multilayer_term` yields is exact in 128 bits, so it reaches the threshold.
proof fn lemma_multilayer_term_kept(g: &HyperGraph, a: int, j: int, b: int, v: NodeId, lazy: bool)
    requires
        g.wf(),
        0 <= a < g.edges.len(),
        0 <= j < g.edges@[a].nodes.len(),
        0 <= b < g.edges.len(),
    ensures
        multilayer_term(g.edges@, g.weights@, g.edges@[a], j, g.edges@[b], v, lazy) matches Some(r)
            ==> kept(r.num as int, r.den as int),
{
    let edges = g.edges@;
    let w = g.weights@;
    let alpha = edges[a];
    let beta = edges[b];
    let u = alpha.nodes@[j];
    if multilayer_term(edges, w, alpha, j, beta, v, lazy) is Some {
        let de = step_denominator(w, beta, u, lazy);
        let ga = gamma_of(w, alpha.id, u);
        let gv = gamma_of(w, beta.id, v);
        let d = strength(edges, u);
        let num = state_rate(w, alpha, j) * beta.omega * gv;
        let den = UNIT * UNIT * d * de;
        lemma_strength_bound(edges, u);
        lemma_edge_strength_bound(w, beta);
        lemma_gamma_bound(w, beta.id, v);
        lemma_gamma_bound(w, alpha.id, u);
        assert(edges.len() * (MAX_COUNT * MAX_WEIGHT) <= MAX_COUNT * (MAX_COUNT * MAX_WEIGHT))
            by (nonlinear_arith)
            requires
                edges.len() <= MAX_COUNT,
        ;
        assert(0 <= num <= MAX_WEIGHT * MAX_WEIGHT * MAX_WEIGHT * MAX_WEIGHT) by (nonlinear_arith)
            requires
                num == alpha.omega * ga * beta.omega * gv,
                0 <= alpha.omega <= MAX_WEIGHT,
                0 <= ga <= MAX_WEIGHT,
                0 <= beta.omega <= MAX_WEIGHT,
                0 <= gv <= MAX_WEIGHT,
        ;
        assert(0 <= den <= 100_000_000 * 0x40_0000_0000_0000 * 550_083_493_888) by (nonlinear_arith)
            requires
                den == UNIT * UNIT * d * de,
                0 <= d <= 0x40_0000_0000_0000,
                0 < de <= 550_083_493_888,
        ;
    }
}

proof fn lemma_targets_kept(g: &HyperGraph, a: int, j: int, b: int, k: int, lazy: bool)
    requires
        g.wf(),
        0 <= a < g.edges.len(),
        0 <= j < g.edges@[a].nodes.len(),
        0 <= b < g.edges.len(),
        k <= g.edges@[b].nodes.len(),
    ensures
        all_kept(layer_targets(g.edges@, g.weights@, g.edges@[a], j, g.edges@[b], k, lazy)),
    decreases k,
{
    if k > 0 {
        lemma_targets_kept(g, a, j, b, k - 1, lazy);
        lemma_multilayer_term_kept(g, a, j, b, g.edges@[b].nodes@[k - 1], lazy);
        let prev = layer_targets(g.edges@, g.weights@, g.edges@[a], j, g.edges@[b], k - 1, lazy);
        let cur = layer_targets(g.edges@, g.weights@, g.edges@[a], j, g.edges@[b], k, lazy);
        assert forall|i: int| 0 <= i < cur.len() implies kept(
            (#[trigger] cur[i]).weight.num as int,
            cur[i].weight.den as int,
        ) by {
            if i < prev.len() {
                assert(cur[i] == prev[i]);
            }
        }
    }
}

proof fn lemma_member_links_kept(g: &HyperGraph, a: int, j: int, t: int, lazy: bool)
    requires
        g.wf(),
        0 <= a < g.edges.len(),
        0 <= j < g.edges@[a].nodes.len(),
        t <= incident(g.edges@, g.edges@[a].nodes@[j]).len(),
    ensures
        all_kept(member_links(g.edges@, g.weights@, g.edges@[a], j, t, lazy)),
    decreases t,
{
    if t > 0 {
        let edges = g.edges@;
        let u = edges[a].nodes@[j];
        lemma_member_links_kept(g, a, j, t - 1, lazy);
        lemma_incident_members(edges, u);
        let b = incident(edges, u)[t - 1] as int;
        lemma_targets_kept(g, a, j, b, edges[b].nodes.len() as int, lazy);
        lemma_all_kept_concat(
            member_links(edges, g.weights@, edges[a], j, t - 1, lazy),
            layer_targets(edges, g.weights@, edges[a], j, edges[b], edges[b].nodes.len() as int, lazy),
        );
    }
}

proof fn lemma_layer_links_kept(g: &HyperGraph, a: int, j: int, lazy: bool)
    requires
        g.wf(),
        0 <= a < g.edges.len(),
        j <= g.edges@[a].nodes.len(),
    ensures
        all_kept(layer_links(g.edges@, g.weights@, g.edges@[a], j, lazy)),
    decreases j,
{
    if j > 0 {
        let edges = g.edges@;
        let u = edges[a].nodes@[j - 1];
        lemma_layer_links_kept(g, a, j - 1, lazy);
        lemma_member_links_kept(g, a, j - 1, incident(edges, u).len() as int, lazy);
        lemma_all_kept_concat(
            layer_links(edges, g.weights@, edges[a], j - 1, lazy),
            member_links(edges, g.weights@, edges[a], j - 1, incident(edges, u).len() as int, lazy),
        );
    }
}

/// Every link of the first `n` layers of a multilayer network weighs at least `1 / 10^10`.
pub proof fn lemma_multilayer_pruned(g: &HyperGraph, n: int, lazy: bool)
    requires
        g.wf(),
        n <= g.edges.len(),
    ensures
        all_kept(multilayer_links(g.edges@, g.weights@, n, lazy)),
    decreases n,
{
    if n > 0 {
        let edges = g.edges@;
        lemma_multilayer_pruned(g, n - 1, lazy);
        lemma_layer_links_kept(g, n - 1, edges[n - 1].nodes.len() as int, lazy);
        lemma_all_kept_concat(
            multilayer_links(edges, g.weights@, n - 1, lazy),
            layer_links(edges, g.weights@, edges[n - 1], edges[n - 1].nodes.len() as int, lazy),
        );
    }
}

proof fn lemma_targets_keep(
    edges: Seq<HyperEdge>,
    w: Seq<Gamma>,
    alpha: HyperEdge,
    j: int,
    beta: HyperEdge,
    k: int,
    m: int,
    lazy: bool,
)
    requires
        0 <= k < m,
        multilayer_term(edges, w, alpha, j, beta, beta.nodes@[k], lazy) is Some,
    ensures
        layer_targets(edges, w, alpha, j, beta, m, lazy).contains(
            MultilayerLink {
                layer1: alpha.id,
                source: alpha.nodes@[j],
                layer2: beta.id,
                target: beta.nodes@[k],
                weight: multilayer_term(edges, w, alpha, j, beta, beta.nodes@[k], lazy)->Some_0,
            },
        ),
    decreases m,
{
    let x = MultilayerLink {
        layer1: alpha.id,
        source: alpha.nodes@[j],
        layer2: beta.id,
        target: beta.nodes@[k],
        weight: multilayer_term(edges, w, alpha, j, beta, beta.nodes@[k], lazy)->Some_0,
    };
    let cur = layer_targets(edges, w, alpha, j, beta, m, lazy);
    if m == k + 1 {
        assert(cur.last() == x);
        assert(cur[cur.len() - 1] == x);
    } else {
        lemma_targets_keep(edges, w, alpha, j, beta, k, m - 1, lazy);
        let prev = layer_targets(edges, w, alpha, j, beta, m - 1, lazy);
        let i = choose|i: int| 0 <= i < prev.len() && prev[i] == x;
        assert(cur[i] == x);
    }
}

proof fn lemma_member_links_keep(
    edges: Seq<HyperEdge>,
    w: Seq<Gamma>,
    alpha: HyperEdge,
    j: int,
    t: int,
    m: int,
    x: MultilayerLink,
    lazy: bool,
)
    requires
        0 <= t < m,
        ({
            let beta = edges[incident(edges, alpha.nodes@[j])[t] as int];
            layer_targets(edges, w, alpha, j, beta, beta.nodes.len() as int, lazy).contains(x)
        }),
    ensures
        member_links(edges, w, alpha, j, m, lazy).contains(x),
    decreases m,
{
    let beta = edges[incident(edges, alpha.nodes@[j])[m - 1] as int];
    let tail = layer_targets(edges, w, alpha, j, beta, beta.nodes.len() as int, lazy);
    if m > t + 1 {
        lemma_member_links_keep(edges, w, alpha, j, t, m - 1, x, lazy);
    }
    lemma_contains_concat(member_links(edges, w, alpha, j, m - 1, lazy), tail, x);
}

proof fn lemma_layer_links_keep(
    edges: Seq<HyperEdge>,
    w: Seq<Gamma>,
    alpha: HyperEdge,
    j: int,
    m: int,
    x: MultilayerLink,
    lazy: bool,
)
    requires
        0 <= j < m,
        member_links(
            edges,
            w,
            alpha,
            j,
            incident(edges, alpha.nodes@[j]).len() as int,
            lazy,
        ).contains(x),
    ensures
        layer_links(edges, w, alpha, m, lazy).contains(x),
    decreases m,
{
    let tail = member_links(
        edges,
        w,
        alpha,
        m - 1,
        incident(edges, alpha.nodes@[m - 1]).len() as int,
        lazy,
    );
    if m > j + 1 {
        lemma_layer_links_keep(edges, w, alpha, j, m - 1, x, lazy);
    }
    lemma_contains_concat(layer_links(edges, w, alpha, m - 1, lazy), tail, x);
}

proof fn lemma_multilayer_links_keep(
    edges: Seq<HyperEdge>,
    w: Seq<Gamma>,
    a: int,
    n: int,
    x: MultilayerLink,
    lazy: bool,
)
    requires
        0 <= a < n,
        layer_links(edges, w, edges[a], edges[a].nodes.len() as int, lazy).contains(x),
    ensures
        multilayer_links(edges, w, n, lazy).contains(x),
    decreases n,
{
    let tail = layer_links(edges, w, edges[n - 1], edges[n - 1].nodes.len() as int, lazy);
    if n > a + 1 {
        lemma_multilayer_links_keep(edges, w, a, n - 1, x, lazy);
    }
    lemma_contains_concat(multilayer_links(edges, w, n - 1, lazy), tail, x);
}

/// No step is dropped but by the pruning rules: for every member `u` (position `j`) of
/// every layer `alpha`, every hyperedge `beta` holding `u` and every member `v` of `beta`
/// whose step `multilayer_term` keeps (so its weight reaches the threshold), the
/// multilayer network holds the link `(alpha, u) -> (beta, v)` with that weight.
pub proof fn lemma_multilayer_complete(g: &HyperGraph, a: int, j: int, t: int, k: int, lazy: bool)
    requires
        g.wf(),
        0 <= a < g.edges.len(),
        0 <= j < g.edges@[a].nodes.len(),
        0 <= t < incident(g.edges@, g.edges@[a].nodes@[j]).len(),
        0 <= k < g.edges@[incident(g.edges@, g.edges@[a].nodes@[j])[t] as int].nodes.len(),
        multilayer_term(
            g.edges@,
            g.weights@,
            g.edges@[a],
            j,
            g.edges@[incident(g.edges@, g.edges@[a].nodes@[j])[t] as int],
            g.edges@[incident(g.edges@, g.edges@[a].nodes@[j])[t] as int].nodes@[k],
            lazy,
        ) is Some,
    ensures
        ({
            let edges = g.edges@;
            let alpha = edges[a];
            let beta = edges[incident(edges, alpha.nodes@[j])[t] as int];
            multilayer_links(edges, g.weights@, edges.len() as int, lazy).contains(
                MultilayerLink {
                    layer1: alpha.id,
                    source: alpha.nodes@[j],
                    layer2: beta.id,
                    target: beta.nodes@[k],
                    weight: multilayer_term(edges, g.weights@, alpha, j, beta, beta.nodes@[k], lazy)->Some_0,
                },
            )
        }),
{
    let edges = g.edges@;
    let w = g.weights@;
    let alpha = edges[a];
    let beta = edges[incident(edges, alpha.nodes@[j])[t] as int];
    let x = MultilayerLink {
        layer1: alpha.id,
        source: alpha.nodes@[j],
        layer2: beta.id,
        target: beta.nodes@[k],
        weight: multilayer_term(edges, w, alpha, j, beta, beta.nodes@[k], lazy)->Some_0,
    };
    lemma_targets_keep(edges, w, alpha, j, beta, k, beta.nodes.len() as int, lazy);
    lemma_member_links_keep(
        edges,
        w,
        alpha,
        j,
        t,
        incident(edges, alpha.nodes@[j]).len() as int,
        x,
        lazy,
    );
    lemma_layer_links_keep(edges, w, alpha, j, alpha.nodes.len() as int, x, lazy);
    lemma_multilayer_links_keep(edges, w, a, edges.len() as int, x, lazy);
}

/// The weight of the step from member `j` of layer `a` to member `k` of layer `b`,
/// given the affinity `gub` of that member in layer `b`.
fn multilayer_step(
    g: &HyperGraph,
    pre: &PreprocessResult,
    a: usize,
    j: usize,
    b: usize,
    k: usize,
    gub: u64,
    lazy: bool,
) -> (r: Option<Ratio>)
    requires
        g.wf(),
        pre.describes(g),
        a < g.edges.len(),
        j < g.edges@[a as int].nodes.len(),
        b < g.edges.len(),
        k < g.edges@[b as int].nodes.len(),
        gub == gamma_of(g.weights@, g.edges@[b as int].id, g.edges@[a as int].nodes@[j as int]),
    ensures
        r == multilayer_term(
            g.edges@,
            g.weights@,
            g.edges@[a as int],
            j as int,
            g.edges@[b as int],
            g.edges@[b as int].nodes@[k as int],
            lazy,
        ),
{
    let alpha = &g.edges[a];
    let beta = &g.edges[b];
    let u = alpha.nodes[j];
    let v = beta.nodes[k];
    if !lazy && u == v {
        return None;
    }
    assert(declared_node(g.nodes@, g.edges@[a as int].nodes@[j as int]));
    let ku = g.node_position(u);
    let du = pre.d[ku];
    let pa = pre.pi_alpha[a][j];
    let gv = pre.gamma[b][k];
    let delta = pre.delta[b];
    proof {
        lemma_strength_bound(g.edges@, u);
        lemma_edge_strength_bound(g.weights@, *beta);
        lemma_gamma_bound(g.weights@, beta.id, v);
        lemma_gamma_bound(g.weights@, alpha.id, u);
    }
    let de: u64 = if lazy && delta > 0 {
        delta
    } else if lazy {
        return None;
    } else if delta > gub {
        delta - gub
    } else {
        return None;
    };
    assert(MAX_COUNT * (MAX_COUNT * MAX_WEIGHT) == 0x40_0000_0000_0000);
    assert(g.edges.len() * (MAX_COUNT * MAX_WEIGHT) <= MAX_COUNT * (MAX_COUNT * MAX_WEIGHT))
        by (nonlinear_arith)
        requires
            g.edges.len() <= MAX_COUNT,
    ;
    let ga = pre.gamma[a][j];
    assert(pa <= MAX_WEIGHT * MAX_WEIGHT) by (nonlinear_arith)
        requires
            pa == alpha.omega * ga,
            alpha.omega <= MAX_WEIGHT,
            ga <= MAX_WEIGHT,
    ;
    assert(pa as u128 * beta.omega as u128 <= MAX_WEIGHT * MAX_WEIGHT * MAX_WEIGHT)
        by (nonlinear_arith)
        requires
            pa <= MAX_WEIGHT * MAX_WEIGHT,
            beta.omega <= MAX_WEIGHT,
    ;
    let partial = pa as u128 * beta.omega as u128;
    assert(partial * gv <= MAX_WEIGHT * MAX_WEIGHT * MAX_WEIGHT * MAX_WEIGHT) by (nonlinear_arith)
        requires
            partial <= MAX_WEIGHT * MAX_WEIGHT * MAX_WEIGHT,
            gv <= MAX_WEIGHT,
    ;
    let num = partial * gv as u128;
    let u2 = (UNIT as u128) * (UNIT as u128);
    assert(u2 * du <= 100_000_000 * 0x40_0000_0000_0000) by (nonlinear_arith)
        requires
            u2 == 100_000_000,
            du <= 0x40_0000_0000_0000,
    ;
    let scaled = u2 * du as u128;
    assert(scaled * de <= 100_000_000 * 0x40_0000_0000_0000 * (MAX_COUNT * MAX_WEIGHT + MAX_COUNT
        * DEFAULT_GAMMA)) by (nonlinear_arith)
        requires
            scaled <= 100_000_000 * 0x40_0000_0000_0000,
            de <= MAX_COUNT * MAX_WEIGHT + MAX_COUNT * DEFAULT_GAMMA,
    ;
    let den = scaled * de as u128;
    assert(num == state_rate(g.weights@, *alpha, j as int) * beta.omega * gamma_of(
        g.weights@,
        beta.id,
        v,
    )) by (nonlinear_arith)
        requires
            num == partial * gv,
            partial == pa * beta.omega,
            pa == state_rate(g.weights@, *alpha, j as int),
            gv == gamma_of(g.weights@, beta.id, v),
    ;
    assert(de == step_denominator(g.weights@, *beta, u, lazy));
    assert(den == UNIT * UNIT * strength(g.edges@, u) * de) by (nonlinear_arith)
        requires
            den == scaled * de,
            scaled == u2 * du,
            u2 == UNIT * UNIT,
            du == strength(g.edges@, u),
    ;
    if reaches_threshold(num, den) {
        assert(ratio(num as int, den as int) == Ratio { num, den });
        Some(Ratio { num, den })
    } else {
        None
    }
}

/// Builds the multilayer projection.
pub struct Multilayer;

impl Multilayer {
    /// The links whose source layer is hyperedge `a`: for each member `u` of it, each
    /// hyperedge `beta` holding `u` and each member `v` of `beta`, the step's link.
    pub fn links_from_layer(
        hypergraph: &HyperGraph,
        preprocessed: &PreprocessResult,
        a: usize,
        random_walk: RandomWalk,
    ) -> (r: Vec<MultilayerLink>)
        requires
            hypergraph.wf(),
            preprocessed.describes(hypergraph),
            a < hypergraph.edges.len(),
        ensures
            r@ == layer_links(
                hypergraph.edges@,
                hypergraph.weights@,
                hypergraph.edges@[a as int],
                hypergraph.edges@[a as int].nodes.len() as int,
                random_walk == RandomWalk::Lazy,
            ),
    {
        let g = hypergraph;
        let pre = preprocessed;
        let lazy = random_walk == RandomWalk::Lazy;
        let ghost edges = g.edges@;
        let ghost w = g.weights@;
        let ghost alpha = edges[a as int];
        let mut links: Vec<MultilayerLink> = Vec::new();
        let n = g.edges[a].nodes.len();
        let mut j: usize = 0;
        while j < n
            invariant
                g.wf(),
                pre.describes(g),
                edges == g.edges@,
                w == g.weights@,
                a < g.edges.len(),
                alpha == edges[a as int],
                n == alpha.nodes.len(),
                j <= n,
                links@ == layer_links(edges, w, alpha, j as int, lazy),
            decreases n - j,
        {
            let u = g.edges[a].nodes[j];
            assert(declared_node(g.nodes@, g.edges@[a as int].nodes@[j as int]));
            let ku = g.node_position(u);
            let inc = &pre.E[ku];
            assert(inc@ == incident(edges, u));
            proof {
                lemma_incident_members(edges, u);
            }
            let ghost before = links@;
            let mut t: usize = 0;
            while t < inc.len()
                invariant
                    g.wf(),
                    pre.describes(g),
                    edges == g.edges@,
                    w == g.weights@,
                    a < g.edges.len(),
                    alpha == edges[a as int],
                    n == alpha.nodes.len(),
                    j < n,
                    u == alpha.nodes@[j as int],
                    inc@ == incident(edges, u),
                    forall|t: int|
                        0 <= t < incident(edges, u).len() ==> (#[trigger] incident(edges, u)[t])
                            < edges.len(),
                    t <= inc.len(),
                    links@ == before + member_links(edges, w, alpha, j as int, t as int, lazy),
                decreases inc.len() - t,
            {
                let b = inc[t];
                assert(b == incident(edges, u)[t as int]);
                let ghost beta = edges[b as int];
                let gub = affinity(g, g.edges[b].id, u);
                let m = g.edges[b].nodes.len();
                let ghost mid = links@;
                let mut k: usize = 0;
                while k < m
                    invariant
                        g.wf(),
                        pre.describes(g),
                        edges == g.edges@,
                        w == g.weights@,
                        a < g.edges.len(),
                        b < g.edges.len(),
                        alpha == edges[a as int],
                        beta == edges[b as int],
                        j < alpha.nodes.len(),
                        u == alpha.nodes@[j as int],
                        gub == gamma_of(w, beta.id, u),
                        m == beta.nodes.len(),
                        k <= m,
                        links@ == mid + layer_targets(edges, w, alpha, j as int, beta, k as int, lazy),
                    decreases m - k,
                {
                    match multilayer_step(g, pre, a, j, b, k, gub, lazy) {
                        Some(r) => {
                            links.push(
                                MultilayerLink {
                                    layer1: g.edges[a].id,
                                    source: u,
                                    layer2: g.edges[b].id,
                                    target: g.edges[b].nodes[k],
                                    weight: r,
                                },
                            );
                        },
                        None => {},
                    }
                    k += 1;
                }
                assert(before + member_links(edges, w, alpha, j as int, t + 1, lazy) =~= mid
                    + layer_targets(edges, w, alpha, j as int, beta, m as int, lazy));
                t += 1;
            }
            assert(layer_links(edges, w, alpha, j + 1, lazy) =~= before + member_links(
                edges,
                w,
                alpha,
                j as int,
                inc.len() as int,
                lazy,
            ));
            j += 1;
        }
        links
    }

    /// The multilayer network: the links of every source layer, layer by layer in
    /// declaration order.
    pub fn create(
        hypergraph: &HyperGraph,
        preprocessed: &PreprocessResult,
        random_walk: RandomWalk,
    ) -> (r: Vec<MultilayerLink>)
        requires
            hypergraph.wf(),
            preprocessed.describes(hypergraph),
        ensures
            r@ == multilayer_links(
                hypergraph.edges@,
                hypergraph.weights@,
                hypergraph.edges.len() as int,
                random_walk == RandomWalk::Lazy,
            ),
    {
        let ghost lazy = random_walk == RandomWalk::Lazy;
        let mut links: Vec<MultilayerLink> = Vec::new();
        let mut a: usize = 0;
        while a < hypergraph.edges.len()
            invariant
                hypergraph.wf(),
                preprocessed.describes(hypergraph),
                lazy == (random_walk == RandomWalk::Lazy),
                a <= hypergraph.edges.len(),
                links@ == multilayer_links(hypergraph.edges@, hypergraph.weights@, a as int, lazy),
            decreases hypergraph.edges.len() - a,
        {
            let mut layer = Self::links_from_layer(hypergraph, preprocessed, a, random_walk);
            links.append(&mut layer);
            a += 1;
        }
        links
    }
}

} // verus!
