//! The unipartite projection: the two-step walk collapsed onto the hypergraph's nodes.
use crate::config::RandomWalk;
use crate::hypergraph::{
    declared_node, gamma_of, valid_weight, HyperEdge, HyperGraph, Gamma, NodeId, MAX_COUNT,
    MAX_WEIGHT, UNIT, DEFAULT_GAMMA,
};
use crate::network::{kept, lemma_contains_concat, ratio, reaches_threshold, Ratio, SummedLink};
use crate::preprocess::{
    edge_strength, lemma_edge_strength_bound, lemma_gamma_bound, lemma_strength_bound,
    lemma_visit_rate_bound, strength, visit_rate, PreprocessResult,
};
use vstd::prelude::*;

verus! {

/// A weight contributed to the link from `.0` to `.1`.
pub type Contribution = (NodeId, NodeId, Ratio);

/// Strength of hyperedge `e` as seen by a walk leaving `u`: all of it for a lazy
/// walk, all but `u`'s own affinity for a non-lazy one.
pub open spec fn step_denominator(w: Seq<Gamma>, e: HyperEdge, u: NodeId, lazy: bool) -> int {
    if lazy {
        edge_strength(w, e)
    } else {
        edge_strength(w, e) - gamma_of(w, e.id, u)
    }
}

/// The weight that hyperedge `e` contributes to the link `u -> v`:
/// `pi[u] * (omega(e) / d[u]) * (gamma(e, v) / delta_e)`, in whole units.
/// Nothing when a non-lazy walk would stay, when `delta_e` is not positive,
/// or when the weight is below the pruning threshold.
pub open spec fn unipartite_term(
    edges: Seq<HyperEdge>,
    w: Seq<Gamma>,
    e: HyperEdge,
    u: NodeId,
    v: NodeId,
    lazy: bool,
) -> Option<Ratio> {
    let de = step_denominator(w, e, u, lazy);
    let num = visit_rate(edges, w, u) * e.omega * gamma_of(w, e.id, v);
    let den = UNIT * UNIT * strength(edges, u) * de;
    if (!lazy && u == v) || de <= 0 || !kept(num, den) {
        None
    } else {
        Some(ratio(num, den))
    }
}

/// Contributions of `e` to links leaving `u`, over the first `k` members of `e`.
pub open spec fn row_terms(
    edges: Seq<HyperEdge>,
    w: Seq<Gamma>,
    e: HyperEdge,
    u: NodeId,
    k: int,
    lazy: bool,
) -> Seq<Contribution>
    decreases k,
{
    if k <= 0 {
        seq![]
    } else {
        let v = e.nodes@[k - 1];
        match unipartite_term(edges, w, e, u, v, lazy) {
            Some(r) => row_terms(edges, w, e, u, k - 1, lazy).push((u, v, r)),
            None => row_terms(edges, w, e, u, k - 1, lazy),
        }
    }
}

/// Contributions of `e` to links leaving its first `j` members.
pub open spec fn edge_terms(
    edges: Seq<HyperEdge>,
    w: Seq<Gamma>,
    e: HyperEdge,
    j: int,
    lazy: bool,
) -> Seq<Contribution>
    decreases j,
{
    if j <= 0 {
        seq![]
    } else {
        edge_terms(edges, w, e, j - 1, lazy) + row_terms(
            edges,
            w,
            e,
            e.nodes@[j - 1],
            e.nodes.len() as int,
            lazy,
        )
    }
}

/// Contributions of the first `n` hyperedges, in declaration order.
pub open spec fn unipartite_terms(edges: Seq<HyperEdge>, w: Seq<Gamma>, n: int, lazy: bool) -> Seq<
    Contribution,
>
    decreases n,
{
    if n <= 0 {
        seq![]
    } else {
        unipartite_terms(edges, w, n - 1, lazy) + edge_terms(
            edges,
            w,
            edges[n - 1],
            edges[n - 1].nodes.len() as int,
            lazy,
        )
    }
}

/// `links[i]` joins `s` to `t`.
pub open spec fn joins(links: Seq<(NodeId, NodeId, Seq<Ratio>)>, i: int, s: NodeId, t: NodeId) -> bool {
    0 <= i < links.len() && links[i].0 == s && links[i].1 == t
}

/// No two links join the same ordered pair.
pub open spec fn pairs_unique(links: Seq<(NodeId, NodeId, Seq<Ratio>)>) -> bool {
    forall|i: int, j: int|
        0 <= i < links.len() && 0 <= j < links.len() && i != j ==> !(links[i].0 == links[j].0
            && links[i].1 == links[j].1)
}

/// Adds a contribution to the link of its pair, or appends a new link for it.
pub open spec fn add_term(links: Seq<(NodeId, NodeId, Seq<Ratio>)>, c: Contribution) -> Seq<
    (NodeId, NodeId, Seq<Ratio>),
> {
    if exists|i: int| joins(links, i, c.0, c.1) {
        let i = choose|i: int| joins(links, i, c.0, c.1);
        links.update(i, (c.0, c.1, links[i].2.push(c.2)))
    } else {
        links.push((c.0, c.1, seq![c.2]))
    }
}

/// One link per distinct pair, in order of the pair's first contribution,
/// with the pair's contributions in order.
pub open spec fn aggregate(cs: Seq<Contribution>) -> Seq<(NodeId, NodeId, Seq<Ratio>)>
    decreases cs.len(),
{
    if cs.len() == 0 {
        seq![]
    } else {
        add_term(aggregate(cs.drop_last()), cs.last())
    }
}

/// The unipartite network of a hypergraph.
pub open spec fn unipartite(g: &HyperGraph, lazy: bool) -> Seq<(NodeId, NodeId, Seq<Ratio>)> {
    aggregate(unipartite_terms(g.edges@, g.weights@, g.edges.len() as int, lazy))
}

pub open spec fn summed_view(links: Seq<SummedLink>) -> Seq<(NodeId, NodeId, Seq<Ratio>)> {
    links.map_values(|l: SummedLink| l@)
}

proof fn lemma_add_term_unique(links: Seq<(NodeId, NodeId, Seq<Ratio>)>, c: Contribution)
    requires
        pairs_unique(links),
    ensures
        pairs_unique(add_term(links, c)),
{
    let r = add_term(links, c);
    if exists|i: int| joins(links, i, c.0, c.1) {
        let i = choose|i: int| joins(links, i, c.0, c.1);
        assert forall|p: int| 0 <= p < r.len() implies r[p].0 == links[p].0 && r[p].1
            == links[p].1 by {}
    } else {
        assert forall|p: int, q: int|
            0 <= p < r.len() && 0 <= q < r.len() && p != q implies !(r[p].0 == r[q].0 && r[p].1
            == r[q].1) by {
            if p == links.len() {
                assert(!joins(links, q, c.0, c.1));
            } else if q == links.len() {
                assert(!joins(links, p, c.0, c.1));
            }
        }
    }
}

/// Every link of `aggregate(cs)` has at least one part, and each of its parts, taken
/// with the link's pair, satisfies whatever every contribution satisfies.
pub proof fn lemma_aggregate_parts(cs: Seq<Contribution>, p: spec_fn(Contribution) -> bool)
    requires
        forall|i: int| 0 <= i < cs.len() ==> #[trigger] p(cs[i]),
    ensures
        forall|l: int|
            0 <= l < aggregate(cs).len() ==> {
                &&& (#[trigger] aggregate(cs)[l]).2.len() > 0
                &&& forall|t: int|
                    0 <= t < aggregate(cs)[l].2.len() ==> p(
                        (aggregate(cs)[l].0, aggregate(cs)[l].1, #[trigger] aggregate(cs)[l].2[t]),
                    )
            },
    decreases cs.len(),
{
    if cs.len() > 0 {
        let prev = cs.drop_last();
        assert forall|i: int| 0 <= i < prev.len() implies #[trigger] p(prev[i]) by {
            assert(prev[i] == cs[i]);
        }
        lemma_aggregate_parts(prev, p);
        let links = aggregate(prev);
        let c = cs.last();
        assert(p(cs[cs.len() - 1]));
        let r = aggregate(cs);
        assert(r == add_term(links, c));
        if exists|i: int| joins(links, i, c.0, c.1) {
            let i = choose|i: int| joins(links, i, c.0, c.1);
            assert forall|l: int| 0 <= l < r.len() implies {
                &&& (#[trigger] r[l]).2.len() > 0
                &&& forall|t: int| 0 <= t < r[l].2.len() ==> p((r[l].0, r[l].1, #[trigger] r[l].2[t]))
            } by {
                if l != i {
                    assert(r[l] == links[l]);
                } else {
                    assert forall|t: int| 0 <= t < r[l].2.len() implies p(
                        (r[l].0, r[l].1, #[trigger] r[l].2[t]),
                    ) by {
                        if t < links[i].2.len() {
                            assert(r[l].2[t] == links[i].2[t]);
                        }
                    }
                }
            }
        } else {
            assert forall|l: int| 0 <= l < r.len() implies {
                &&& (#[trigger] r[l]).2.len() > 0
                &&& forall|t: int| 0 <= t < r[l].2.len() ==> p((r[l].0, r[l].1, #[trigger] r[l].2[t]))
            } by {
                if l < links.len() {
                    assert(r[l] == links[l]);
                } else {
                    assert forall|t: int| 0 <= t < r[l].2.len() implies p(
                        (r[l].0, r[l].1, #[trigger] r[l].2[t]),
                    ) by {
                        assert(r[l].2[t] == c.2);
                    }
                }
            }
        }
    }
}

/// Each contribution of the first `k` members of row `u` of hyperedge `e` satisfies `p`
/// when every contribution that `unipartite_term` yields does.
proof fn lemma_row_terms(
    edges: Seq<HyperEdge>,
    w: Seq<Gamma>,
    e: HyperEdge,
    u: NodeId,
    k: int,
    lazy: bool,
    p: spec_fn(Contribution) -> bool,
)
    requires
        forall|v: NodeId|
            #[trigger] unipartite_term(edges, w, e, u, v, lazy) is Some ==> p(
                (u, v, unipartite_term(edges, w, e, u, v, lazy)->0),
            ),
    ensures
        forall|i: int|
            0 <= i < row_terms(edges, w, e, u, k, lazy).len() ==> #[trigger] p(
                row_terms(edges, w, e, u, k, lazy)[i],
            ),
    decreases k,
{
    if k > 0 {
        lemma_row_terms(edges, w, e, u, k - 1, lazy, p);
        let v = e.nodes@[k - 1];
        let prev = row_terms(edges, w, e, u, k - 1, lazy);
        let cur = row_terms(edges, w, e, u, k, lazy);
        match unipartite_term(edges, w, e, u, v, lazy) {
            Some(r) => {
                assert forall|i: int| 0 <= i < cur.len() implies #[trigger] p(cur[i]) by {
                    if i < prev.len() {
                        assert(cur[i] == prev[i]);
                    } else {
                        assert(cur[i] == (u, v, r));
                    }
                }
            },
            None => {},
        }
    }
}

/// Every contribution of the first `n` hyperedges satisfies `p` when every contribution
/// that `unipartite_term` yields for their members does.
proof fn lemma_unipartite_terms(
    edges: Seq<HyperEdge>,
    w: Seq<Gamma>,
    n: int,
    lazy: bool,
    p: spec_fn(Contribution) -> bool,
)
    requires
        n <= edges.len(),
        forall|a: int, u: NodeId, v: NodeId|
            0 <= a < edges.len() && #[trigger] unipartite_term(edges, w, edges[a], u, v, lazy) is Some
                ==> p((u, v, unipartite_term(edges, w, edges[a], u, v, lazy)->0)),
    ensures
        forall|i: int|
            0 <= i < unipartite_terms(edges, w, n, lazy).len() ==> #[trigger] p(
                unipartite_terms(edges, w, n, lazy)[i],
            ),
    decreases n,
{
    if n > 0 {
        lemma_unipartite_terms(edges, w, n - 1, lazy, p);
        let e = edges[n - 1];
        let prev = unipartite_terms(edges, w, n - 1, lazy);
        lemma_edge_terms(edges, w, e, e.nodes.len() as int, lazy, p);
        let rows = edge_terms(edges, w, e, e.nodes.len() as int, lazy);
        let cur = unipartite_terms(edges, w, n, lazy);
        assert(cur == prev + rows);
        assert forall|i: int| 0 <= i < cur.len() implies #[trigger] p(cur[i]) by {
            if i < prev.len() {
                assert(cur[i] == prev[i]);
            } else {
                assert(cur[i] == rows[i - prev.len()]);
            }
        }
    }
}

proof fn lemma_edge_terms(
    edges: Seq<HyperEdge>,
    w: Seq<Gamma>,
    e: HyperEdge,
    j: int,
    lazy: bool,
    p: spec_fn(Contribution) -> bool,
)
    requires
        forall|u: NodeId, v: NodeId|
            #[trigger] unipartite_term(edges, w, e, u, v, lazy) is Some ==> p(
                (u, v, unipartite_term(edges, w, e, u, v, lazy)->0),
            ),
    ensures
        forall|i: int|
            0 <= i < edge_terms(edges, w, e, j, lazy).len() ==> #[trigger] p(
                edge_terms(edges, w, e, j, lazy)[i],
            ),
    decreases j,
{
    if j > 0 {
        lemma_edge_terms(edges, w, e, j - 1, lazy, p);
        let u = e.nodes@[j - 1];
        lemma_row_terms(edges, w, e, u, e.nodes.len() as int, lazy, p);
        let prev = edge_terms(edges, w, e, j - 1, lazy);
        let row = row_terms(edges, w, e, u, e.nodes.len() as int, lazy);
        let cur = edge_terms(edges, w, e, j, lazy);
        assert forall|i: int| 0 <= i < cur.len() implies #[trigger] p(cur[i]) by {
            if i < prev.len() {
                assert(cur[i] == prev[i]);
            } else {
                assert(cur[i] == row[i - prev.len()]);
            }
        }
    }
}

/// A non-lazy unipartite network has no link from a node to itself.
pub proof fn lemma_non_lazy_no_self_links(g: &HyperGraph)
    ensures
        forall|l: int|
            0 <= l < unipartite(g, false).len() ==> (#[trigger] unipartite(g, false)[l]).0
                != unipartite(g, false)[l].1,
{
    let p = |c: Contribution| c.0 != c.1;
    let edges = g.edges@;
    let w = g.weights@;
    assert forall|a: int, u: NodeId, v: NodeId|
        0 <= a < edges.len() && #[trigger] unipartite_term(edges, w, edges[a], u, v, false) is Some
        implies p((u, v, unipartite_term(edges, w, edges[a], u, v, false)->0)) by {}
    lemma_unipartite_terms(edges, w, edges.len() as int, false, p);
    let cs = unipartite_terms(edges, w, edges.len() as int, false);
    lemma_aggregate_parts(cs, p);
    let out = unipartite(g, false);
    assert forall|l: int| 0 <= l < out.len() implies (#[trigger] out[l]).0 != out[l].1 by {
        assert(p((out[l].0, out[l].1, out[l].2[0])));
    }
}

/// A weight that `unipartite_term` yields is exact in 128 bits, so it reaches the threshold.
proof fn lemma_unipartite_term_kept(g: &HyperGraph, a: int, u: NodeId, v: NodeId, lazy: bool)
    requires
        g.wf(),
        0 <= a < g.edges.len(),
    ensures
        unipartite_term(g.edges@, g.weights@, g.edges@[a], u, v, lazy) matches Some(r) ==> kept(
            r.num as int,
            r.den as int,
        ),
{
    let edges = g.edges@;
    let w = g.weights@;
    let e = edges[a];
    if unipartite_term(edges, w, e, u, v, lazy) is Some {
        let de = step_denominator(w, e, u, lazy);
        let pi = visit_rate(edges, w, u);
        let gv = gamma_of(w, e.id, v);
        let d = strength(edges, u);
        let num = pi * e.omega * gv;
        let den = UNIT * UNIT * d * de;
        lemma_strength_bound(edges, u);
        lemma_visit_rate_bound(edges, w, u);
        lemma_edge_strength_bound(w, e);
        lemma_gamma_bound(w, e.id, v);
        lemma_gamma_bound(w, e.id, u);
        assert(edges.len() * (MAX_COUNT * MAX_WEIGHT) <= MAX_COUNT * (MAX_COUNT * MAX_WEIGHT))
            by (nonlinear_arith)
            requires
                edges.len() <= MAX_COUNT,
        ;
        assert(edges.len() * (MAX_WEIGHT * MAX_WEIGHT) <= MAX_COUNT * (MAX_WEIGHT * MAX_WEIGHT))
            by (nonlinear_arith)
            requires
                edges.len() <= MAX_COUNT,
        ;
        assert(0 <= num <= 0x8000_0000_0000_0000 * MAX_WEIGHT * MAX_WEIGHT) by (nonlinear_arith)
            requires
                num == pi * e.omega * gv,
                0 <= pi <= 0x8000_0000_0000_0000,
                0 <= e.omega <= MAX_WEIGHT,
                0 <= gv <= MAX_WEIGHT,
        ;
        assert(0 <= den <= 100_000_000 * 0x40_0000_0000_0000 * 550_083_493_888) by (nonlinear_arith)
            requires
                den == UNIT * UNIT * d * de,
                0 <= d <= 0x40_0000_0000_0000,
                0 < de <= 550_083_493_888,
        ;
    }
}

/// Every weight of a unipartite network reaches the pruning threshold: each part of
/// each link is at least `1 / 10^10`.
pub proof fn lemma_unipartite_pruned(g: &HyperGraph, lazy: bool)
    requires
        g.wf(),
    ensures
        forall|l: int, t: int|
            0 <= l < unipartite(g, lazy).len() && 0 <= t < unipartite(g, lazy)[l].2.len() ==> kept(
                (#[trigger] unipartite(g, lazy)[l].2[t]).num as int,
                unipartite(g, lazy)[l].2[t].den as int,
            ),
{
    let p = |c: Contribution| kept(c.2.num as int, c.2.den as int);
    let edges = g.edges@;
    let w = g.weights@;
    assert forall|a: int, u: NodeId, v: NodeId|
        0 <= a < edges.len() && #[trigger] unipartite_term(edges, w, edges[a], u, v, lazy) is Some
        implies p((u, v, unipartite_term(edges, w, edges[a], u, v, lazy)->0)) by {
        lemma_unipartite_term_kept(g, a, u, v, lazy);
    }
    lemma_unipartite_terms(edges, w, edges.len() as int, lazy, p);
    let cs = unipartite_terms(edges, w, edges.len() as int, lazy);
    lemma_aggregate_parts(cs, p);
    let out = unipartite(g, lazy);
    assert forall|l: int, t: int| 0 <= l < out.len() && 0 <= t < out[l].2.len() implies kept(
        (#[trigger] out[l].2[t]).num as int,
        out[l].2[t].den as int,
    ) by {
        assert(p((out[l].0, out[l].1, out[l].2[t])));
    }
}

/// Every contribution reaches its pair's link in `aggregate(cs)`.
pub proof fn lemma_aggregate_keeps(cs: Seq<Contribution>, c: Contribution)
    requires
        cs.contains(c),
    ensures
        exists|l: int|
            0 <= l < aggregate(cs).len() && #[trigger] aggregate(cs)[l].0 == c.0 && aggregate(cs)[l].1
                == c.1 && aggregate(cs)[l].2.contains(c.2),
    decreases cs.len(),
{
    let prev = cs.drop_last();
    let links = aggregate(prev);
    let last = cs.last();
    let r = aggregate(cs);
    assert(r == add_term(links, last));
    if prev.contains(c) {
        lemma_aggregate_keeps(prev, c);
        let l = choose|l: int|
            0 <= l < links.len() && #[trigger] links[l].0 == c.0 && links[l].1 == c.1
                && links[l].2.contains(c.2);
        let t = choose|t: int| 0 <= t < links[l].2.len() && links[l].2[t] == c.2;
        if exists|i: int| joins(links, i, last.0, last.1) {
            let i = choose|i: int| joins(links, i, last.0, last.1);
            if i == l {
                assert(r[l].2[t] == c.2);
            } else {
                assert(r[l] == links[l]);
            }
        } else {
            assert(r[l] == links[l]);
        }
        assert(r[l].2.contains(c.2));
        assert(0 <= l < aggregate(cs).len() && aggregate(cs)[l].0 == c.0 && aggregate(cs)[l].1 == c.1
            && aggregate(cs)[l].2.contains(c.2));
    } else {
        let i0 = choose|i: int| 0 <= i < cs.len() && cs[i] == c;
        if i0 < prev.len() {
            assert(prev[i0] == c);
        }
        assert(c == last);
        if exists|i: int| joins(links, i, last.0, last.1) {
            let i = choose|i: int| joins(links, i, last.0, last.1);
            assert(r[i].2[r[i].2.len() - 1] == c.2);
            assert(r[i].2.contains(c.2));
            assert(0 <= i < aggregate(cs).len() && aggregate(cs)[i].0 == c.0 && aggregate(cs)[i].1
                == c.1 && aggregate(cs)[i].2.contains(c.2));
        } else {
            let l = links.len() as int;
            assert(r[l].2[0] == c.2);
            assert(r[l].2.contains(c.2));
            assert(0 <= l < aggregate(cs).len() && aggregate(cs)[l].0 == c.0 && aggregate(cs)[l].1
                == c.1 && aggregate(cs)[l].2.contains(c.2));
        }
    }
}

proof fn lemma_row_terms_keep(
    edges: Seq<HyperEdge>,
    w: Seq<Gamma>,
    e: HyperEdge,
    u: NodeId,
    k: int,
    m: int,
    lazy: bool,
)
    requires
        0 <= k < m,
        unipartite_term(edges, w, e, u, e.nodes@[k], lazy) is Some,
    ensures
        row_terms(edges, w, e, u, m, lazy).contains(
            (u, e.nodes@[k], unipartite_term(edges, w, e, u, e.nodes@[k], lazy)->Some_0),
        ),
    decreases m,
{
    let x = (u, e.nodes@[k], unipartite_term(edges, w, e, u, e.nodes@[k], lazy)->Some_0);
    let cur = row_terms(edges, w, e, u, m, lazy);
    if m == k + 1 {
        assert(cur[cur.len() - 1] == x);
    } else {
        lemma_row_terms_keep(edges, w, e, u, k, m - 1, lazy);
        let prev = row_terms(edges, w, e, u, m - 1, lazy);
        let i = choose|i: int| 0 <= i < prev.len() && prev[i] == x;
        assert(cur[i] == x);
    }
}

proof fn lemma_edge_terms_keep(
    edges: Seq<HyperEdge>,
    w: Seq<Gamma>,
    e: HyperEdge,
    j: int,
    m: int,
    x: Contribution,
    lazy: bool,
)
    requires
        0 <= j < m,
        row_terms(edges, w, e, e.nodes@[j], e.nodes.len() as int, lazy).contains(x),
    ensures
        edge_terms(edges, w, e, m, lazy).contains(x),
    decreases m,
{
    if m > j + 1 {
        lemma_edge_terms_keep(edges, w, e, j, m - 1, x, lazy);
    }
    lemma_contains_concat(
        edge_terms(edges, w, e, m - 1, lazy),
        row_terms(edges, w, e, e.nodes@[m - 1], e.nodes.len() as int, lazy),
        x,
    );
}

proof fn lemma_unipartite_terms_keep(
    edges: Seq<HyperEdge>,
    w: Seq<Gamma>,
    a: int,
    n: int,
    x: Contribution,
    lazy: bool,
)
    requires
        0 <= a < n,
        edge_terms(edges, w, edges[a], edges[a].nodes.len() as int, lazy).contains(x),
    ensures
        unipartite_terms(edges, w, n, lazy).contains(x),
    decreases n,
{
    if n > a + 1 {
        lemma_unipartite_terms_keep(edges, w, a, n - 1, x, lazy);
    }
    lemma_contains_concat(
        unipartite_terms(edges, w, n - 1, lazy),
        edge_terms(edges, w, edges[n - 1], edges[n - 1].nodes.len() as int, lazy),
        x,
    );
}

/// No step is dropped but by the pruning rules: for every hyperedge and every ordered
/// pair `(u, v)` of its members whose step `unipartite_term` keeps (so its weight reaches
/// the threshold), the unipartite network has a link from `u` to `v` that counts that
/// weight among its parts.
pub proof fn lemma_unipartite_complete(g: &HyperGraph, a: int, j: int, k: int, lazy: bool)
    requires
        0 <= a < g.edges.len(),
        0 <= j < g.edges@[a].nodes.len(),
        0 <= k < g.edges@[a].nodes.len(),
        unipartite_term(
            g.edges@,
            g.weights@,
            g.edges@[a],
            g.edges@[a].nodes@[j],
            g.edges@[a].nodes@[k],
            lazy,
        ) is Some,
    ensures
        ({
            let e = g.edges@[a];
            let u = e.nodes@[j];
            let v = e.nodes@[k];
            let out = unipartite(g, lazy);
            exists|l: int|
                0 <= l < out.len() && #[trigger] out[l].0 == u && out[l].1 == v && out[l].2.contains(
                    unipartite_term(g.edges@, g.weights@, e, u, v, lazy)->Some_0,
                )
        }),
{
    let edges = g.edges@;
    let w = g.weights@;
    let e = edges[a];
    let u = e.nodes@[j];
    let x = (u, e.nodes@[k], unipartite_term(edges, w, e, u, e.nodes@[k], lazy)->Some_0);
    lemma_row_terms_keep(edges, w, e, u, k, e.nodes.len() as int, lazy);
    lemma_edge_terms_keep(edges, w, e, j, e.nodes.len() as int, x, lazy);
    lemma_unipartite_terms_keep(edges, w, a, edges.len() as int, x, lazy);
    let cs = unipartite_terms(edges, w, edges.len() as int, lazy);
    lemma_aggregate_keeps(cs, x);
    let out = unipartite(g, lazy);
    assert(out == aggregate(cs));
    let l = choose|l: int|
        0 <= l < aggregate(cs).len() && #[trigger] aggregate(cs)[l].0 == x.0 && aggregate(cs)[l].1
            == x.1 && aggregate(cs)[l].2.contains(x.2);
    assert(0 <= l < out.len() && out[l].0 == x.0 && out[l].1 == x.1 && out[l].2.contains(x.2));
}

/// Adds contribution `c` to `links`.
fn add_contribution(links: &mut Vec<SummedLink>, c: (NodeId, NodeId, Ratio))
    requires
        pairs_unique(summed_view(old(links)@)),
    ensures
        summed_view(final(links)@) == add_term(summed_view(old(links)@), c),
        pairs_unique(summed_view(final(links)@)),
{
    let ghost before = summed_view(links@);
    proof {
        lemma_add_term_unique(before, c);
    }
    let mut i: usize = 0;
    while i < links.len() && !(links[i].source == c.0 && links[i].target == c.1)
        invariant
            i <= links.len(),
            summed_view(links@) == before,
            pairs_unique(before),
            forall|m: int| 0 <= m < i ==> !joins(before, m, c.0, c.1),
        decreases links.len() - i,
    {
        assert(summed_view(links@)[i as int] == links@[i as int]@);
        i += 1;
    }
    if i < links.len() && links[i].source == c.0 && links[i].target == c.1 {
        assert(summed_view(links@)[i as int] == links@[i as int]@);
        assert(joins(before, i as int, c.0, c.1));
        let ghost chosen = choose|m: int| joins(before, m, c.0, c.1);
        assert(chosen == i);
        let ghost old_links = links@;
        links[i].weight.push(c.2);
        assert(links@ == old_links.update(i as int, links@[i as int]));
        assert(links@[i as int]@ == (c.0, c.1, before[i as int].2.push(c.2)));
        let ghost after = add_term(before, c);
        assert(after == before.update(i as int, (c.0, c.1, before[i as int].2.push(c.2))));
        assert forall|m: int| 0 <= m < links.len() implies summed_view(links@)[m] == after[m] by {
            if m != i {
                assert(links@[m] == old_links[m]);
            }
        }
        assert(summed_view(links@) =~= after);
        return;
    }
    let ghost old_links = links@;
    let mut weight: Vec<Ratio> = Vec::new();
    weight.push(c.2);
    assert(weight@ =~= seq![c.2]);
    links.push(SummedLink { source: c.0, target: c.1, weight });
    assert(i == old_links.len());
    assert(!exists|m: int| joins(before, m, c.0, c.1));
    let ghost after = add_term(before, c);
    assert forall|m: int| 0 <= m < links.len() implies summed_view(links@)[m] == after[m] by {
        if m < old_links.len() {
            assert(links@[m] == old_links[m]);
        }
    }
    assert(summed_view(links@) =~= after);
}

/// The contribution of hyperedge `a` to the link from its member `j` to its member `k`.
fn unipartite_step(
    g: &HyperGraph,
    pre: &PreprocessResult,
    a: usize,
    j: usize,
    k: usize,
    lazy: bool,
) -> (r: Option<Ratio>)
    requires
        g.wf(),
        pre.describes(g),
        a < g.edges.len(),
        j < g.edges@[a as int].nodes.len(),
        k < g.edges@[a as int].nodes.len(),
    ensures
        r == unipartite_term(
            g.edges@,
            g.weights@,
            g.edges@[a as int],
            g.edges@[a as int].nodes@[j as int],
            g.edges@[a as int].nodes@[k as int],
            lazy,
        ),
{
    let e = &g.edges[a];
    let u = e.nodes[j];
    let v = e.nodes[k];
    if !lazy && u == v {
        return None;
    }
    assert(declared_node(g.nodes@, g.edges@[a as int].nodes@[j as int]));
    let ku = g.node_position(u);
    let du = pre.d[ku];
    let piu = pre.pi[ku];
    let gu = pre.gamma[a][j];
    let gv = pre.gamma[a][k];
    let delta = pre.delta[a];
    proof {
        lemma_strength_bound(g.edges@, u);
        lemma_visit_rate_bound(g.edges@, g.weights@, u);
        lemma_edge_strength_bound(g.weights@, *e);
        lemma_gamma_bound(g.weights@, e.id, v);
        lemma_gamma_bound(g.weights@, e.id, u);
    }
    let de: u64 = if lazy && delta > 0 {
        delta
    } else if lazy {
        return None;
    } else if delta > gu {
        delta - gu
    } else {
        return None;
    };
    assert(MAX_COUNT * (MAX_COUNT * MAX_WEIGHT) == 0x40_0000_0000_0000);
    assert(MAX_COUNT * (MAX_WEIGHT * MAX_WEIGHT) == 0x8000_0000_0000_0000);
    assert(g.edges.len() * (MAX_COUNT * MAX_WEIGHT) <= MAX_COUNT * (MAX_COUNT * MAX_WEIGHT))
        by (nonlinear_arith)
        requires
            g.edges.len() <= MAX_COUNT,
    ;
    assert(g.edges.len() * (MAX_WEIGHT * MAX_WEIGHT) <= MAX_COUNT * (MAX_WEIGHT * MAX_WEIGHT))
        by (nonlinear_arith)
        requires
            g.edges.len() <= MAX_COUNT,
    ;
    assert(piu as u128 * e.omega as u128 <= 0x8000_0000_0000_0000 * MAX_WEIGHT)
        by (nonlinear_arith)
        requires
            piu <= 0x8000_0000_0000_0000,
            e.omega <= MAX_WEIGHT,
    ;
    let partial = piu as u128 * e.omega as u128;
    assert(partial * gv <= 0x8000_0000_0000_0000 * MAX_WEIGHT * MAX_WEIGHT) by (nonlinear_arith)
        requires
            partial <= 0x8000_0000_0000_0000 * MAX_WEIGHT,
            gv <= MAX_WEIGHT,
    ;
    let num = partial * gv as u128;
    let u2 = (UNIT as u128) * (UNIT as u128);
    assert(u2 * du <= 100_000_000 * 0x40_0000_0000_0000) by (nonlinear_arith)
        requires
            u2 == 100_000_000,
            du <= 0x40_0000_0000_0000,
    ;
    let scaled = u2 * du as u128;
    assert(scaled * de <= 100_000_000 * 0x40_0000_0000_0000 * (MAX_COUNT * MAX_WEIGHT + MAX_COUNT
        * DEFAULT_GAMMA)) by (nonlinear_arith)
        requires
            scaled <= 100_000_000 * 0x40_0000_0000_0000,
            de <= MAX_COUNT * MAX_WEIGHT + MAX_COUNT * DEFAULT_GAMMA,
    ;
    let den = scaled * de as u128;
    assert(num == visit_rate(g.edges@, g.weights@, u) * e.omega * gamma_of(g.weights@, e.id, v))
        by (nonlinear_arith)
        requires
            num == partial * gv,
            partial == piu * e.omega,
            piu == visit_rate(g.edges@, g.weights@, u),
            gv == gamma_of(g.weights@, e.id, v),
    ;
    assert(de == step_denominator(g.weights@, *e, u, lazy));
    assert(den == UNIT * UNIT * strength(g.edges@, u) * de) by (nonlinear_arith)
        requires
            den == scaled * de,
            scaled == u2 * du,
            u2 == UNIT * UNIT,
            du == strength(g.edges@, u),
    ;
    if reaches_threshold(num, den) {
        assert(ratio(num as int, den as int) == Ratio { num, den });
        Some(Ratio { num, den })
    } else {
        None
    }
}

/// Builds the unipartite projection.
pub struct Unipartite;

impl Unipartite {
    /// The unipartite network of `hypergraph`: for each hyperedge and each ordered
    /// pair of its members, the step's weight is added to the link of that pair.
    pub fn create(
        hypergraph: &HyperGraph,
        preprocessed: &PreprocessResult,
        random_walk: RandomWalk,
    ) -> (r: Vec<SummedLink>)
        requires
            hypergraph.wf(),
            preprocessed.describes(hypergraph),
        ensures
            summed_view(r@) == unipartite(hypergraph, random_walk == RandomWalk::Lazy),
    {
        let g = hypergraph;
        let lazy = random_walk == RandomWalk::Lazy;
        let ghost edges = g.edges@;
        let ghost w = g.weights@;
        let mut links: Vec<SummedLink> = Vec::new();
        let mut a: usize = 0;
        while a < g.edges.len()
            invariant
                g.wf(),
                preprocessed.describes(g),
                edges == g.edges@,
                w == g.weights@,
                a <= g.edges.len(),
                pairs_unique(summed_view(links@)),
                summed_view(links@) == aggregate(unipartite_terms(edges, w, a as int, lazy)),
            decreases g.edges.len() - a,
        {
            let ghost done = unipartite_terms(edges, w, a as int, lazy);
            let ghost e = edges[a as int];
            let n = g.edges[a].nodes.len();
            let mut j: usize = 0;
            while j < n
                invariant
                    g.wf(),
                    preprocessed.describes(g),
                    edges == g.edges@,
                    w == g.weights@,
                    a < g.edges.len(),
                    e == edges[a as int],
                    n == e.nodes.len(),
                    j <= n,
                    pairs_unique(summed_view(links@)),
                    summed_view(links@) == aggregate(done + edge_terms(edges, w, e, j as int, lazy)),
                decreases n - j,
            {
                let ghost rows = done + edge_terms(edges, w, e, j as int, lazy);
                let ghost u = e.nodes@[j as int];
                let mut k: usize = 0;
                while k < n
                    invariant
                        g.wf(),
                        preprocessed.describes(g),
                        edges == g.edges@,
                        w == g.weights@,
                        a < g.edges.len(),
                        e == edges[a as int],
                        n == e.nodes.len(),
                        j < n,
                        k <= n,
                        u == e.nodes@[j as int],
                        pairs_unique(summed_view(links@)),
                        summed_view(links@) == aggregate(rows + row_terms(edges, w, e, u, k as int, lazy)),
                    decreases n - k,
                {
                    let ghost cur = rows + row_terms(edges, w, e, u, k as int, lazy);
                    match unipartite_step(g, preprocessed, a, j, k, lazy) {
                        Some(r) => {
                            let c = (g.edges[a].nodes[j], g.edges[a].nodes[k], r);
                            add_contribution(&mut links, c);
                            assert(cur.push(c).drop_last() =~= cur);
                            assert(rows + row_terms(edges, w, e, u, k + 1, lazy) =~= cur.push(c));
                        },
                        None => {
                            assert(rows + row_terms(edges, w, e, u, k + 1, lazy) =~= cur);
                        },
                    }
                    k += 1;
                }
                assert(done + edge_terms(edges, w, e, j + 1, lazy) =~= rows + row_terms(
                    edges,
                    w,
                    e,
                    u,
                    n as int,
                    lazy,
                ));
                j += 1;
            }
            assert(unipartite_terms(edges, w, a + 1, lazy) =~= done + edge_terms(
                edges,
                w,
                e,
                n as int,
                lazy,
            ));
            a += 1;
        }
        links
    }
}

} // verus!
