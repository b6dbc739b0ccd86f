//! The hyperedge-similarity projection: a multilayer network in which the walk
//! picks its next hyperedge by similarity to the current one, weighted by the
//! next hyperedge's own weight.
use crate::config::RandomWalk;
use crate::hypergraph::{
    declared_node, edges_bounded, gamma_of, Gamma, HyperEdge, HyperGraph, NodeId, DEFAULT_GAMMA, MAX_COUNT,
    MAX_WEIGHT, UNIT,
};
use crate::network::{
    all_kept, kept, lemma_all_kept_concat, lemma_contains_concat, ratio, reaches_threshold, MultilayerLink, Ratio,
};
use crate::preprocess::{
    affinity, incident, lemma_edge_strength_bound, lemma_gamma_bound, lemma_incident_members,
    state_rate, PreprocessResult,
};
use crate::unipartite::step_denominator;
use vstd::prelude::*;

verus! {

/// Fixed-point unit of similarities: a similarity of 1.0 is `SIMILARITY_UNIT`.
pub const SIMILARITY_UNIT: u64 = 0x1_0000;

/// `sim` holds, for each ordered pair of the `n` hyperedges, a similarity between
/// zero and `SIMILARITY_UNIT`.
pub open spec fn similarity_table(sim: Seq<Vec<u64>>, n: int) -> bool {
    &&& sim.len() == n
    &&& forall|a: int| 0 <= a < n ==> (#[trigger] sim[a]).len() == n
    &&& forall|a: int, b: int| 0 <= a < n && 0 <= b < n ==> #[trigger] sim[a]@[b] <= SIMILARITY_UNIT
}

/// `D[alpha, beta]`: the similarity of `beta` to `alpha` times the weight of `beta`.
pub open spec fn preference(sim: Seq<Vec<u64>>, edges: Seq<HyperEdge>, a: int, b: int) -> int {
    sim[a]@[b] * edges[b].omega
}

/// `S_alpha`: the preferences of `alpha` summed over the hyperedges listed in `inc`.
pub open spec fn preference_total(sim: Seq<Vec<u64>>, edges: Seq<HyperEdge>, a: int, inc: Seq<usize>) -> int
    decreases inc.len(),
{
    if inc.len() == 0 {
        0
    } else {
        preference_total(sim, edges, a, inc.drop_last()) + preference(sim, edges, a, inc.last() as int)
    }
}

/// Weight of the step from member `j` of layer `a` to member `v` of layer `b`:
/// `pi_alpha[(alpha, u)] * (D[alpha, beta] / S_alpha) * (gamma(beta, v) / delta_e)`, in
/// whole units, where `u` is that member and `S_alpha` sums over the hyperedges holding
/// `u`. Nothing when a non-lazy walk would stay, when `delta_e` is not positive, or when
/// the weight is below the pruning threshold (so also when `S_alpha` is zero).
pub open spec fn similarity_term(
    edges: Seq<HyperEdge>,
    w: Seq<Gamma>,
    sim: Seq<Vec<u64>>,
    a: int,
    j: int,
    b: int,
    v: NodeId,
    lazy: bool,
) -> Option<Ratio> {
    let alpha = edges[a];
    let beta = edges[b];
    let u = alpha.nodes@[j];
    let de = step_denominator(w, beta, u, lazy);
    let num = state_rate(w, alpha, j) * preference(sim, edges, a, b) * gamma_of(w, beta.id, v);
    let den = UNIT * UNIT * preference_total(sim, edges, a, incident(edges, u)) * de;
    if (!lazy && u == v) || de <= 0 || !kept(num, den) {
        None
    } else {
        Some(ratio(num, den))
    }
}

/// Links from member `j` of layer `a` into the first `k` members of layer `b`.
pub open spec fn similar_targets(
    edges: Seq<HyperEdge>,
    w: Seq<Gamma>,
    sim: Seq<Vec<u64>>,
    a: int,
    j: int,
    b: int,
    k: int,
    lazy: bool,
) -> Seq<MultilayerLink>
    decreases k,
{
    if k <= 0 {
        seq![]
    } else {
        let prev = similar_targets(edges, w, sim, a, j, b, k - 1, lazy);
        let v = edges[b].nodes@[k - 1];
        match similarity_term(edges, w, sim, a, j, b, v, lazy) {
            Some(r) => prev.push(
                MultilayerLink {
                    layer1: edges[a].id,
                    source: edges[a].nodes@[j],
                    layer2: edges[b].id,
                    target: v,
                    weight: r,
                },
            ),
            None => prev,
        }
    }
}

/// Links from member `j` of layer `a` into the first `t` layers incident to it.
pub open spec fn similar_member_links(
    edges: Seq<HyperEdge>,
    w: Seq<Gamma>,
    sim: Seq<Vec<u64>>,
    a: int,
    j: int,
    t: int,
    lazy: bool,
) -> Seq<MultilayerLink>
    decreases t,
{
    if t <= 0 {
        seq![]
    } else {
        let b = incident(edges, edges[a].nodes@[j])[t - 1] as int;
        similar_member_links(edges, w, sim, a, j, t - 1, lazy) + similar_targets(
            edges,
            w,
            sim,
            a,
            j,
            b,
            edges[b].nodes.len() as int,
            lazy,
        )
    }
}

/// Links leaving the first `j` members of layer `a`.
pub open spec fn similar_layer_links(
    edges: Seq<HyperEdge>,
    w: Seq<Gamma>,
    sim: Seq<Vec<u64>>,
    a: int,
    j: int,
    lazy: bool,
) -> Seq<MultilayerLink>
    decreases j,
{
    if j <= 0 {
        seq![]
    } else {
        similar_layer_links(edges, w, sim, a, j - 1, lazy) + similar_member_links(
            edges,
            w,
            sim,
            a,
            j - 1,
            incident(edges, edges[a].nodes@[j - 1]).len() as int,
            lazy,
        )
    }
}

/// Links leaving the first `n` layers, layer by layer in declaration order.
pub open spec fn similarity_links(
    edges: Seq<HyperEdge>,
    w: Seq<Gamma>,
    sim: Seq<Vec<u64>>,
    n: int,
    lazy: bool,
) -> Seq<MultilayerLink>
    decreases n,
{
    if n <= 0 {
        seq![]
    } else {
        similarity_links(edges, w, sim, n - 1, lazy) + similar_layer_links(
            edges,
            w,
            sim,
            n - 1,
            edges[n - 1].nodes.len() as int,
            lazy,
        )
    }
}

/// Bound on a preference.
pub open spec fn max_preference() -> int {
    SIMILARITY_UNIT * MAX_WEIGHT
}

/// `S_alpha` over the incidence list `inc` of a node.
fn preference_sum(
    g: &HyperGraph,
    sim: &Vec<Vec<u64>>,
    a: usize,
    inc: &Vec<usize>,
) -> (r: u64)
    requires
        g.wf(),
        similarity_table(sim@, g.edges.len() as int),
        a < g.edges.len(),
        inc.len() <= MAX_COUNT,
        forall|t: int| 0 <= t < inc.len() ==> #[trigger] inc@[t] < g.edges.len(),
    ensures
        r == preference_total(sim@, g.edges@, a as int, inc@),
        r <= MAX_COUNT * max_preference(),
{
    let mut s: u64 = 0;
    let mut t: usize = 0;
    while t < inc.len()
        invariant
            g.wf(),
            similarity_table(sim@, g.edges.len() as int),
            a < g.edges.len(),
            inc.len() <= MAX_COUNT,
            forall|t: int| 0 <= t < inc.len() ==> #[trigger] inc@[t] < g.edges.len(),
            t <= inc.len(),
            s == preference_total(sim@, g.edges@, a as int, inc@.take(t as int)),
            s <= t * max_preference(),
        decreases inc.len() - t,
    {
        let b = inc[t];
        let x = sim[a][b];
        let om = g.edges[b].omega;
        assert(x * om <= max_preference()) by (nonlinear_arith)
            requires
                x <= SIMILARITY_UNIT,
                om <= MAX_WEIGHT,
        ;
        assert((t + 1) * max_preference() <= MAX_COUNT * max_preference()) by (nonlinear_arith)
            requires
                t + 1 <= MAX_COUNT,
        ;
        assert(t * max_preference() + max_preference() == (t + 1) * max_preference())
            by (nonlinear_arith);
        assert(inc@.take(t + 1).drop_last() =~= inc@.take(t as int));
        s = s + x * om;
        t += 1;
    }
    assert(inc@.take(t as int) =~= inc@);
    assert(t * max_preference() <= MAX_COUNT * max_preference()) by (nonlinear_arith)
        requires
            t <= MAX_COUNT,
    ;
    s
}

proof fn lemma_preference_total_bound(sim: Seq<Vec<u64>>, edges: Seq<HyperEdge>, a: int, inc: Seq<usize>)
    requires
        similarity_table(sim, edges.len() as int),
        edges_bounded(edges),
        0 <= a < edges.len(),
        forall|t: int| 0 <= t < inc.len() ==> #[trigger] inc[t] < edges.len(),
    ensures
        0 <= preference_total(sim, edges, a, inc) <= inc.len() * max_preference(),
    decreases inc.len(),
{
    if inc.len() > 0 {
        let prev = inc.drop_last();
        assert forall|t: int| 0 <= t < prev.len() implies #[trigger] prev[t] < edges.len() by {
            assert(prev[t] == inc[t]);
        }
        lemma_preference_total_bound(sim, edges, a, prev);
        let b = inc.last() as int;
        assert(inc[inc.len() - 1] < edges.len());
        let x = sim[a]@[b];
        let om = edges[b].omega;
        assert(x <= SIMILARITY_UNIT);
        assert(0 <= x * om <= max_preference()) by (nonlinear_arith)
            requires
                0 <= x <= SIMILARITY_UNIT,
                0 <= om <= MAX_WEIGHT,
                max_preference() == SIMILARITY_UNIT * MAX_WEIGHT,
        ;
        assert((inc.len() - 1) * max_preference() + max_preference() == inc.len() * max_preference())
            by (nonlinear_arith);
    }
}

/// A weight that `similarity_term` yields is exact in 128 bits, so it reaches the threshold.
proof fn lemma_similarity_term_kept(
    g: &HyperGraph,
    sim: Seq<Vec<u64>>,
    a: int,
    j: int,
    b: int,
    v: NodeId,
    lazy: bool,
)
    requires
        g.wf(),
        similarity_table(sim, g.edges.len() as int),
        0 <= a < g.edges.len(),
        0 <= j < g.edges@[a].nodes.len(),
        0 <= b < g.edges.len(),
    ensures
        similarity_term(g.edges@, g.weights@, sim, a, j, b, v, lazy) matches Some(r) ==> kept(
            r.num as int,
            r.den as int,
        ),
{
    let edges = g.edges@;
    let w = g.weights@;
    let alpha = edges[a];
    let beta = edges[b];
    let u = alpha.nodes@[j];
    if similarity_term(edges, w, sim, a, j, b, v, lazy) is Some {
        let de = step_denominator(w, beta, u, lazy);
        let ga = gamma_of(w, alpha.id, u);
        let gv = gamma_of(w, beta.id, v);
        let inc = incident(edges, u);
        let total = preference_total(sim, edges, a, inc);
        let pref = preference(sim, edges, a, b);
        let num = state_rate(w, alpha, j) * pref * gv;
        let den = UNIT * UNIT * total * de;
        lemma_incident_members(edges, u);
        lemma_preference_total_bound(sim, edges, a, inc);
        lemma_edge_strength_bound(w, beta);
        lemma_gamma_bound(w, beta.id, v);
        lemma_gamma_bound(w, alpha.id, u);
        assert(sim[a]@[b] <= SIMILARITY_UNIT);
        assert(max_preference() == 0x100_0000_0000);
        assert(0 <= pref <= max_preference()) by (nonlinear_arith)
            requires
                pref == sim[a]@[b] * beta.omega,
                0 <= sim[a]@[b] <= SIMILARITY_UNIT,
                0 <= beta.omega <= MAX_WEIGHT,
                max_preference() == SIMILARITY_UNIT * MAX_WEIGHT,
        ;
        assert(inc.len() * max_preference() <= MAX_COUNT * max_preference()) by (nonlinear_arith)
            requires
                inc.len() <= MAX_COUNT,
        ;
        assert(0 <= num <= MAX_WEIGHT * MAX_WEIGHT * max_preference() * MAX_WEIGHT) by (nonlinear_arith)
            requires
                num == alpha.omega * ga * pref * gv,
                0 <= alpha.omega <= MAX_WEIGHT,
                0 <= ga <= MAX_WEIGHT,
                0 <= pref <= max_preference(),
                0 <= gv <= MAX_WEIGHT,
        ;
        assert(0 <= den <= 100_000_000 * 0x80_0000_0000_0000 * 550_083_493_888) by (nonlinear_arith)
            requires
                den == UNIT * UNIT * total * de,
                0 <= total <= 0x80_0000_0000_0000,
                0 < de <= 550_083_493_888,
        ;
    }
}

proof fn lemma_similar_targets_kept(
    g: &HyperGraph,
    sim: Seq<Vec<u64>>,
    a: int,
    j: int,
    b: int,
    k: int,
    lazy: bool,
)
    requires
        g.wf(),
        similarity_table(sim, g.edges.len() as int),
        0 <= a < g.edges.len(),
        0 <= j < g.edges@[a].nodes.len(),
        0 <= b < g.edges.len(),
        k <= g.edges@[b].nodes.len(),
    ensures
        all_kept(similar_targets(g.edges@, g.weights@, sim, a, j, b, k, lazy)),
    decreases k,
{
    if k > 0 {
        lemma_similar_targets_kept(g, sim, a, j, b, k - 1, lazy);
        lemma_similarity_term_kept(g, sim, a, j, b, g.edges@[b].nodes@[k - 1], lazy);
        let prev = similar_targets(g.edges@, g.weights@, sim, a, j, b, k - 1, lazy);
        let cur = similar_targets(g.edges@, g.weights@, sim, a, j, b, k, lazy);
        assert forall|i: int| 0 <= i < cur.len() implies kept(
            (#[trigger] cur[i]).weight.num as int,
            cur[i].weight.den as int,
        ) by {
            if i < prev.len() {
                assert(cur[i] == prev[i]);
            }
        }
    }
}

proof fn lemma_similar_member_links_kept(
    g: &HyperGraph,
    sim: Seq<Vec<u64>>,
    a: int,
    j: int,
    t: int,
    lazy: bool,
)
    requires
        g.wf(),
        similarity_table(sim, g.edges.len() as int),
        0 <= a < g.edges.len(),
        0 <= j < g.edges@[a].nodes.len(),
        t <= incident(g.edges@, g.edges@[a].nodes@[j]).len(),
    ensures
        all_kept(similar_member_links(g.edges@, g.weights@, sim, a, j, t, lazy)),
    decreases t,
{
    if t > 0 {
        let edges = g.edges@;
        let u = edges[a].nodes@[j];
        lemma_similar_member_links_kept(g, sim, a, j, t - 1, lazy);
        lemma_incident_members(edges, u);
        let b = incident(edges, u)[t - 1] as int;
        lemma_similar_targets_kept(g, sim, a, j, b, edges[b].nodes.len() as int, lazy);
        lemma_all_kept_concat(
            similar_member_links(edges, g.weights@, sim, a, j, t - 1, lazy),
            similar_targets(edges, g.weights@, sim, a, j, b, edges[b].nodes.len() as int, lazy),
        );
    }
}

proof fn lemma_similar_layer_links_kept(g: &HyperGraph, sim: Seq<Vec<u64>>, a: int, j: int, lazy: bool)
    requires
        g.wf(),
        similarity_table(sim, g.edges.len() as int),
        0 <= a < g.edges.len(),
        j <= g.edges@[a].nodes.len(),
    ensures
        all_kept(similar_layer_links(g.edges@, g.weights@, sim, a, j, lazy)),
    decreases j,
{
    if j > 0 {
        let edges = g.edges@;
        let u = edges[a].nodes@[j - 1];
        lemma_similar_layer_links_kept(g, sim, a, j - 1, lazy);
        lemma_similar_member_links_kept(g, sim, a, j - 1, incident(edges, u).len() as int, lazy);
        lemma_all_kept_concat(
            similar_layer_links(edges, g.weights@, sim, a, j - 1, lazy),
            similar_member_links(edges, g.weights@, sim, a, j - 1, incident(edges, u).len() as int, lazy),
        );
    }
}

/// Every link of the first `n` layers of a hyperedge-similarity network weighs at least
/// `1 / 10^10`.
pub proof fn lemma_similarity_pruned(g: &HyperGraph, sim: Seq<Vec<u64>>, n: int, lazy: bool)
    requires
        g.wf(),
        similarity_table(sim, g.edges.len() as int),
        n <= g.edges.len(),
    ensures
        all_kept(similarity_links(g.edges@, g.weights@, sim, n, lazy)),
    decreases n,
{
    if n > 0 {
        let edges = g.edges@;
        lemma_similarity_pruned(g, sim, n - 1, lazy);
        lemma_similar_layer_links_kept(g, sim, n - 1, edges[n - 1].nodes.len() as int, lazy);
        lemma_all_kept_concat(
            similarity_links(edges, g.weights@, sim, n - 1, lazy),
            similar_layer_links(edges, g.weights@, sim, n - 1, edges[n - 1].nodes.len() as int, lazy),
        );
    }
}

proof fn lemma_similar_targets_keep(
    edges: Seq<HyperEdge>,
    w: Seq<Gamma>,
    sim: Seq<Vec<u64>>,
    a: int,
    j: int,
    b: int,
    k: int,
    m: int,
    lazy: bool,
)
    requires
        0 <= k < m,
        similarity_term(edges, w, sim, a, j, b, edges[b].nodes@[k], lazy) is Some,
    ensures
        similar_targets(edges, w, sim, a, j, b, m, lazy).contains(
            MultilayerLink {
                layer1: edges[a].id,
                source: edges[a].nodes@[j],
                layer2: edges[b].id,
                target: edges[b].nodes@[k],
                weight: similarity_term(edges, w, sim, a, j, b, edges[b].nodes@[k], lazy)->Some_0,
            },
        ),
    decreases m,
{
    let x = MultilayerLink {
        layer1: edges[a].id,
        source: edges[a].nodes@[j],
        layer2: edges[b].id,
        target: edges[b].nodes@[k],
        weight: similarity_term(edges, w, sim, a, j, b, edges[b].nodes@[k], lazy)->Some_0,
    };
    let cur = similar_targets(edges, w, sim, a, j, b, m, lazy);
    if m == k + 1 {
        assert(cur[cur.len() - 1] == x);
    } else {
        lemma_similar_targets_keep(edges, w, sim, a, j, b, k, m - 1, lazy);
        let prev = similar_targets(edges, w, sim, a, j, b, m - 1, lazy);
        let i = choose|i: int| 0 <= i < prev.len() && prev[i] == x;
        assert(cur[i] == x);
    }
}

proof fn lemma_similar_member_links_keep(
    edges: Seq<HyperEdge>,
    w: Seq<Gamma>,
    sim: Seq<Vec<u64>>,
    a: int,
    j: int,
    t: int,
    m: int,
    x: MultilayerLink,
    lazy: bool,
)
    requires
        0 <= t < m,
        ({
            let b = incident(edges, edges[a].nodes@[j])[t] as int;
            similar_targets(edges, w, sim, a, j, b, edges[b].nodes.len() as int, lazy).contains(x)
        }),
    ensures
        similar_member_links(edges, w, sim, a, j, m, lazy).contains(x),
    decreases m,
{
    let b = incident(edges, edges[a].nodes@[j])[m - 1] as int;
    let tail = similar_targets(edges, w, sim, a, j, b, edges[b].nodes.len() as int, lazy);
    if m > t + 1 {
        lemma_similar_member_links_keep(edges, w, sim, a, j, t, m - 1, x, lazy);
    }
    lemma_contains_concat(similar_member_links(edges, w, sim, a, j, m - 1, lazy), tail, x);
}

proof fn lemma_similar_layer_links_keep(
    edges: Seq<HyperEdge>,
    w: Seq<Gamma>,
    sim: Seq<Vec<u64>>,
    a: int,
    j: int,
    m: int,
    x: MultilayerLink,
    lazy: bool,
)
    requires
        0 <= j < m,
        similar_member_links(
            edges,
            w,
            sim,
            a,
            j,
            incident(edges, edges[a].nodes@[j]).len() as int,
            lazy,
        ).contains(x),
    ensures
        similar_layer_links(edges, w, sim, a, m, lazy).contains(x),
    decreases m,
{
    let tail = similar_member_links(
        edges,
        w,
        sim,
        a,
        m - 1,
        incident(edges, edges[a].nodes@[m - 1]).len() as int,
        lazy,
    );
    if m > j + 1 {
        lemma_similar_layer_links_keep(edges, w, sim, a, j, m - 1, x, lazy);
    }
    lemma_contains_concat(similar_layer_links(edges, w, sim, a, m - 1, lazy), tail, x);
}

proof fn lemma_similarity_links_keep(
    edges: Seq<HyperEdge>,
    w: Seq<Gamma>,
    sim: Seq<Vec<u64>>,
    a: int,
    n: int,
    x: MultilayerLink,
    lazy: bool,
)
    requires
        0 <= a < n,
        similar_layer_links(edges, w, sim, a, edges[a].nodes.len() as int, lazy).contains(x),
    ensures
        similarity_links(edges, w, sim, n, lazy).contains(x),
    decreases n,
{
    let tail = similar_layer_links(edges, w, sim, n - 1, edges[n - 1].nodes.len() as int, lazy);
    if n > a + 1 {
        lemma_similarity_links_keep(edges, w, sim, a, n - 1, x, lazy);
    }
    lemma_contains_concat(similarity_links(edges, w, sim, n - 1, lazy), tail, x);
}

/// No step is dropped but by the pruning rules: for every member `u` (position `j`) of
/// every layer `a`, every hyperedge `b` holding `u` and every member `v` of `b` whose step
/// `similarity_term` keeps (so its weight reaches the threshold), the network holds the
/// link `(a, u) -> (b, v)` with that weight.
pub proof fn lemma_similarity_complete(
    g: &HyperGraph,
    sim: Seq<Vec<u64>>,
    a: int,
    j: int,
    t: int,
    k: int,
    lazy: bool,
)
    requires
        g.wf(),
        0 <= a < g.edges.len(),
        0 <= j < g.edges@[a].nodes.len(),
        0 <= t < incident(g.edges@, g.edges@[a].nodes@[j]).len(),
        0 <= k < g.edges@[incident(g.edges@, g.edges@[a].nodes@[j])[t] as int].nodes.len(),
        similarity_term(
            g.edges@,
            g.weights@,
            sim,
            a,
            j,
            incident(g.edges@, g.edges@[a].nodes@[j])[t] as int,
            g.edges@[incident(g.edges@, g.edges@[a].nodes@[j])[t] as int].nodes@[k],
            lazy,
        ) is Some,
    ensures
        ({
            let edges = g.edges@;
            let b = incident(edges, edges[a].nodes@[j])[t] as int;
            similarity_links(edges, g.weights@, sim, edges.len() as int, lazy).contains(
                MultilayerLink {
                    layer1: edges[a].id,
                    source: edges[a].nodes@[j],
                    layer2: edges[b].id,
                    target: edges[b].nodes@[k],
                    weight: similarity_term(edges, g.weights@, sim, a, j, b, edges[b].nodes@[k], lazy)->Some_0,
                },
            )
        }),
{
    let edges = g.edges@;
    let w = g.weights@;
    let b = incident(edges, edges[a].nodes@[j])[t] as int;
    let x = MultilayerLink {
        layer1: edges[a].id,
        source: edges[a].nodes@[j],
        layer2: edges[b].id,
        target: edges[b].nodes@[k],
        weight: similarity_term(edges, w, sim, a, j, b, edges[b].nodes@[k], lazy)->Some_0,
    };
    lemma_similar_targets_keep(edges, w, sim, a, j, b, k, edges[b].nodes.len() as int, lazy);
    lemma_similar_member_links_keep(
        edges,
        w,
        sim,
        a,
        j,
        t,
        incident(edges, edges[a].nodes@[j]).len() as int,
        x,
        lazy,
    );
    lemma_similar_layer_links_keep(edges, w, sim, a, j, edges[a].nodes.len() as int, x, lazy);
    lemma_similarity_links_keep(edges, w, sim, a, edges.len() as int, x, lazy);
}

/// The weight of the step from member `j` of layer `a` to member `k` of layer `b`,
/// given the affinity `gub` of that member in layer `b` and `S_alpha` as `total`.
fn similarity_step(
    g: &HyperGraph,
    pre: &PreprocessResult,
    sim: &Vec<Vec<u64>>,
    a: usize,
    j: usize,
    b: usize,
    k: usize,
    gub: u64,
    total: u64,
    lazy: bool,
) -> (r: Option<Ratio>)
    requires
        g.wf(),
        pre.describes(g),
        similarity_table(sim@, g.edges.len() as int),
        a < g.edges.len(),
        j < g.edges@[a as int].nodes.len(),
        b < g.edges.len(),
        k < g.edges@[b as int].nodes.len(),
        gub == gamma_of(g.weights@, g.edges@[b as int].id, g.edges@[a as int].nodes@[j as int]),
        total == preference_total(
            sim@,
            g.edges@,
            a as int,
            incident(g.edges@, g.edges@[a as int].nodes@[j as int]),
        ),
        total <= MAX_COUNT * max_preference(),
    ensures
        r == similarity_term(
            g.edges@,
            g.weights@,
            sim@,
            a as int,
            j as int,
            b as int,
            g.edges@[b as int].nodes@[k as int],
            lazy,
        ),
{
    let alpha = &g.edges[a];
    let beta = &g.edges[b];
    let u = alpha.nodes[j];
    let v = beta.nodes[k];
    if !lazy && u == v {
        return None;
    }
    let pa = pre.pi_alpha[a][j];
    let gv = pre.gamma[b][k];
    let ga = pre.gamma[a][j];
    let delta = pre.delta[b];
    proof {
        lemma_edge_strength_bound(g.weights@, *beta);
        lemma_gamma_bound(g.weights@, beta.id, v);
        lemma_gamma_bound(g.weights@, alpha.id, u);
    }
    let de: u64 = if lazy && delta > 0 {
        delta
    } else if lazy {
        return None;
    } else if delta > gub {
        delta - gub
    } else {
        return None;
    };
    let x = sim[a][b];
    assert(x <= SIMILARITY_UNIT);
    assert(max_preference() == 0x100_0000_0000);
    assert(x * beta.omega <= max_preference()) by (nonlinear_arith)
        requires
            x <= SIMILARITY_UNIT,
            beta.omega <= MAX_WEIGHT,
            max_preference() == SIMILARITY_UNIT * MAX_WEIGHT,
    ;
    let pref = x * beta.omega;
    assert(pa <= MAX_WEIGHT * MAX_WEIGHT) by (nonlinear_arith)
        requires
            pa == alpha.omega * ga,
            alpha.omega <= MAX_WEIGHT,
            ga <= MAX_WEIGHT,
    ;
    assert(pa as u128 * pref as u128 <= MAX_WEIGHT * MAX_WEIGHT * max_preference())
        by (nonlinear_arith)
        requires
            pa <= MAX_WEIGHT * MAX_WEIGHT,
            pref <= max_preference(),
    ;
    let partial = pa as u128 * pref as u128;
    assert(partial * gv <= MAX_WEIGHT * MAX_WEIGHT * max_preference() * MAX_WEIGHT) by (nonlinear_arith)
        requires
            partial <= MAX_WEIGHT * MAX_WEIGHT * max_preference(),
            gv <= MAX_WEIGHT,
    ;
    let num = partial * gv as u128;
    let u2 = (UNIT as u128) * (UNIT as u128);
    assert(MAX_COUNT * max_preference() == 0x80_0000_0000_0000);
    assert(MAX_COUNT * MAX_WEIGHT + MAX_COUNT * DEFAULT_GAMMA == 550_083_493_888);
    assert(u2 * total <= 100_000_000 * 0x80_0000_0000_0000) by (nonlinear_arith)
        requires
            u2 == 100_000_000,
            total <= 0x80_0000_0000_0000,
    ;
    let scaled = u2 * total as u128;
    assert(scaled * de <= 100_000_000 * 0x80_0000_0000_0000 * 550_083_493_888) by (nonlinear_arith)
        requires
            scaled <= 100_000_000 * 0x80_0000_0000_0000,
            de <= 550_083_493_888,
    ;
    let den = scaled * de as u128;
    assert(num == state_rate(g.weights@, *alpha, j as int) * preference(
        sim@,
        g.edges@,
        a as int,
        b as int,
    ) * gamma_of(g.weights@, beta.id, v)) by (nonlinear_arith)
        requires
            num == partial * gv,
            partial == pa * pref,
            pa == state_rate(g.weights@, *alpha, j as int),
            pref == preference(sim@, g.edges@, a as int, b as int),
            gv == gamma_of(g.weights@, beta.id, v),
    ;
    assert(de == step_denominator(g.weights@, *beta, u, lazy));
    assert(den == UNIT * UNIT * total * de) by (nonlinear_arith)
        requires
            den == scaled * de,
            scaled == u2 * total,
            u2 == UNIT * UNIT,
    ;
    if reaches_threshold(num, den) {
        assert(ratio(num as int, den as int) == Ratio { num, den });
        Some(Ratio { num, den })
    } else {
        None
    }
}

/// Builds the hyperedge-similarity projection.
pub struct HyperEdgeSimilarity;

impl HyperEdgeSimilarity {
    /// The links whose source layer is hyperedge `a`, given the similarity of every
    /// ordered pair of hyperedges in `similarity` (`similarity[a][b]` for `a`, `b`).
    pub fn links_from_layer(
        hypergraph: &HyperGraph,
        preprocessed: &PreprocessResult,
        similarity: &Vec<Vec<u64>>,
        a: usize,
        random_walk: RandomWalk,
    ) -> (r: Vec<MultilayerLink>)
        requires
            hypergraph.wf(),
            preprocessed.describes(hypergraph),
            similarity_table(similarity@, hypergraph.edges.len() as int),
            a < hypergraph.edges.len(),
        ensures
            r@ == similar_layer_links(
                hypergraph.edges@,
                hypergraph.weights@,
                similarity@,
                a as int,
                hypergraph.edges@[a as int].nodes.len() as int,
                random_walk == RandomWalk::Lazy,
            ),
    {
        let g = hypergraph;
        let pre = preprocessed;
        let sim = similarity;
        let lazy = random_walk == RandomWalk::Lazy;
        let ghost edges = g.edges@;
        let ghost w = g.weights@;
        let mut links: Vec<MultilayerLink> = Vec::new();
        let n = g.edges[a].nodes.len();
        let mut j: usize = 0;
        while j < n
            invariant
                g.wf(),
                pre.describes(g),
                similarity_table(sim@, g.edges.len() as int),
                edges == g.edges@,
                w == g.weights@,
                a < g.edges.len(),
                n == edges[a as int].nodes.len(),
                j <= n,
                links@ == similar_layer_links(edges, w, sim@, a as int, j as int, lazy),
            decreases n - j,
        {
            let u = g.edges[a].nodes[j];
            assert(declared_node(g.nodes@, g.edges@[a as int].nodes@[j as int]));
            let ku = g.node_position(u);
            let inc = &pre.E[ku];
            assert(inc@ == incident(edges, u));
            proof {
                lemma_incident_members(edges, u);
            }
            let total = preference_sum(g, sim, a, inc);
            let ghost before = links@;
            let mut t: usize = 0;
            while t < inc.len()
                invariant
                    g.wf(),
                    pre.describes(g),
                    similarity_table(sim@, g.edges.len() as int),
                    edges == g.edges@,
                    w == g.weights@,
                    a < g.edges.len(),
                    n == edges[a as int].nodes.len(),
                    j < n,
                    u == edges[a as int].nodes@[j as int],
                    inc@ == incident(edges, u),
                    forall|t: int|
                        0 <= t < incident(edges, u).len() ==> (#[trigger] incident(edges, u)[t])
                            < edges.len(),
                    total == preference_total(sim@, edges, a as int, incident(edges, u)),
                    total <= MAX_COUNT * max_preference(),
                    t <= inc.len(),
                    links@ == before + similar_member_links(edges, w, sim@, a as int, j as int, t as int, lazy),
                decreases inc.len() - t,
            {
                let b = inc[t];
                assert(b == incident(edges, u)[t as int]);
                let gub = affinity(g, g.edges[b].id, u);
                let m = g.edges[b].nodes.len();
                let ghost mid = links@;
                let mut k: usize = 0;
                while k < m
                    invariant
                        g.wf(),
                        pre.describes(g),
                        similarity_table(sim@, g.edges.len() as int),
                        edges == g.edges@,
                        w == g.weights@,
                        a < g.edges.len(),
                        b < g.edges.len(),
                        j < edges[a as int].nodes.len(),
                        u == edges[a as int].nodes@[j as int],
                        gub == gamma_of(w, edges[b as int].id, u),
                        total == preference_total(sim@, edges, a as int, incident(edges, u)),
                        total <= MAX_COUNT * max_preference(),
                        m == edges[b as int].nodes.len(),
                        k <= m,
                        links@ == mid + similar_targets(edges, w, sim@, a as int, j as int, b as int, k as int, lazy),
                    decreases m - k,
                {
                    match similarity_step(g, pre, sim, a, j, b, k, gub, total, lazy) {
                        Some(r) => {
                            links.push(
                                MultilayerLink {
                                    layer1: g.edges[a].id,
                                    source: u,
                                    layer2: g.edges[b].id,
                                    target: g.edges[b].nodes[k],
                                    weight: r,
                                },
                            );
                        },
                        None => {},
                    }
                    k += 1;
                }
                assert(before + similar_member_links(edges, w, sim@, a as int, j as int, t + 1, lazy)
                    =~= mid + similar_targets(edges, w, sim@, a as int, j as int, b as int, m as int, lazy));
                t += 1;
            }
            assert(similar_layer_links(edges, w, sim@, a as int, j + 1, lazy) =~= before
                + similar_member_links(edges, w, sim@, a as int, j as int, inc.len() as int, lazy));
            j += 1;
        }
        links
    }

    /// The hyperedge-similarity network: the links of every source layer, layer by
    /// layer in declaration order.
    pub fn create(
        hypergraph: &HyperGraph,
        preprocessed: &PreprocessResult,
        similarity: &Vec<Vec<u64>>,
        random_walk: RandomWalk,
    ) -> (r: Vec<MultilayerLink>)
        requires
            hypergraph.wf(),
            preprocessed.describes(hypergraph),
            similarity_table(similarity@, hypergraph.edges.len() as int),
        ensures
            r@ == similarity_links(
                hypergraph.edges@,
                hypergraph.weights@,
                similarity@,
                hypergraph.edges.len() as int,
                random_walk == RandomWalk::Lazy,
            ),
    {
        let ghost lazy = random_walk == RandomWalk::Lazy;
        let mut links: Vec<MultilayerLink> = Vec::new();
        let mut a: usize = 0;
        while a < hypergraph.edges.len()
            invariant
                hypergraph.wf(),
                preprocessed.describes(hypergraph),
                similarity_table(similarity@, hypergraph.edges.len() as int),
                lazy == (random_walk == RandomWalk::Lazy),
                a <= hypergraph.edges.len(),
                links@ == similarity_links(
                    hypergraph.edges@,
                    hypergraph.weights@,
                    similarity@,
                    a as int,
                    lazy,
                ),
            decreases hypergraph.edges.len() - a,
        {
            let mut layer = Self::links_from_layer(
                hypergraph,
                preprocessed,
                similarity,
                a,
                random_walk,
            );
            links.append(&mut layer);
            a += 1;
        }
        links
    }
}

} // verus!
