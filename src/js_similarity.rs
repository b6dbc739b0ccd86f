//! The node-composition profiles that the Jensen–Shannon similarity of two
//! hyperedges compares.
use crate::hypergraph::{gamma_of, valid_weight, weights_bounded, Gamma, HyperEdge, HyperGraph, NodeId};
use crate::preprocess::lemma_gamma_bound;
use crate::preprocess::PreprocessResult;
use itertools::Itertools;
use vstd::prelude::*;

verus! {

/// The items of `s` without repeats, each where it first occurs.
pub open spec fn distinct(s: Seq<NodeId>) -> Seq<NodeId>
    decreases s.len(),
{
    if s.len() == 0 {
        seq![]
    } else if distinct(s.drop_last()).contains(s.last()) {
        distinct(s.drop_last())
    } else {
        distinct(s.drop_last()).push(s.last())
    }
}

/// Affinities of `e` over `support`: its affinity for each of its members, zero elsewhere.
pub open spec fn profile(w: Seq<Gamma>, e: HyperEdge, support: Seq<NodeId>) -> Seq<u64> {
    Seq::new(
        support.len(),
        |k: int|
            if e.nodes@.contains(support[k]) {
                gamma_of(w, e.id, support[k])
            } else {
                0
            },
    )
}

proof fn lemma_distinct_members(s: Seq<NodeId>)
    ensures
        forall|k: int| 0 <= k < distinct(s).len() ==> s.contains(#[trigger] distinct(s)[k]),
    decreases s.len(),
{
    if s.len() > 0 {
        let prev = s.drop_last();
        lemma_distinct_members(prev);
        let d = distinct(s);
        assert forall|k: int| 0 <= k < d.len() implies s.contains(#[trigger] d[k]) by {
            if k < distinct(prev).len() {
                assert(d[k] == distinct(prev)[k]);
                let i = choose|i: int| 0 <= i < prev.len() && prev[i] == d[k];
                assert(s[i] == d[k]);
            } else {
                assert(d[k] == s.last());
                assert(s[s.len() - 1] == d[k]);
            }
        }
    }
}

/// The profile of a hyperedge over its own members has no zero entry. Compared with
/// itself, `profiles` returns this same profile twice, so the two distributions that
/// the similarity compares coincide.
pub proof fn lemma_self_profiles(w: Seq<Gamma>, e: HyperEdge)
    requires
        weights_bounded(w),
    ensures
        ({
            let support = distinct(e.nodes@ + e.nodes@);
            let p = profile(w, e, support);
            forall|k: int| 0 <= k < p.len() ==> valid_weight(#[trigger] p[k])
        }),
{
    let s = e.nodes@ + e.nodes@;
    let support = distinct(s);
    lemma_distinct_members(s);
    let p = profile(w, e, support);
    assert forall|k: int| 0 <= k < p.len() implies valid_weight(#[trigger] p[k]) by {
        assert(s.contains(support[k]));
        let i = choose|i: int| 0 <= i < s.len() && s[i] == support[k];
        if i < e.nodes@.len() {
            assert(e.nodes@[i] == support[k]);
        } else {
            assert(e.nodes@[i - e.nodes@.len()] == support[k]);
        }
        assert(e.nodes@.contains(support[k]));
        lemma_gamma_bound(w, e.id, support[k]);
    }
}

/// Relies on `Itertools::unique`, which yields each item of the chained members
/// the first time it occurs, in order.
#[verifier::external_body]
fn union_members(a: &Vec<NodeId>, b: &Vec<NodeId>) -> (r: Vec<NodeId>)
    ensures
        r@ == distinct(a@ + b@),
{
    a.iter().chain(b.iter()).unique().copied().collect()
}

/// Position of the first occurrence of `u` in `nodes`, if any.
fn first_position(nodes: &Vec<NodeId>, u: NodeId) -> (r: Option<usize>)
    ensures
        r is None <==> !nodes@.contains(u),
        r matches Some(p) ==> p < nodes.len() && nodes@[p as int] == u,
{
    let mut p: usize = 0;
    while p < nodes.len()
        invariant
            p <= nodes.len(),
            forall|i: int| 0 <= i < p ==> nodes@[i] != u,
        decreases nodes.len() - p,
    {
        if nodes[p] == u {
            return Some(p);
        }
        p += 1;
    }
    None
}

/// The profile of hyperedge `a` over `support`.
fn profile_of(g: &HyperGraph, pre: &PreprocessResult, a: usize, support: &Vec<NodeId>) -> (r: Vec<
    u64,
>)
    requires
        g.wf(),
        pre.describes(g),
        a < g.edges.len(),
    ensures
        r@ == profile(g.weights@, g.edges@[a as int], support@),
{
    let mut r: Vec<u64> = Vec::new();
    let mut k: usize = 0;
    while k < support.len()
        invariant
            g.wf(),
            pre.describes(g),
            a < g.edges.len(),
            k <= support.len(),
            r@ =~= profile(g.weights@, g.edges@[a as int], support@.take(k as int)),
        decreases support.len() - k,
    {
        match first_position(&g.edges[a].nodes, support[k]) {
            Some(p) => r.push(pre.gamma[a][p]),
            None => r.push(0),
        }
        k += 1;
        assert(r@ =~= profile(g.weights@, g.edges@[a as int], support@.take(k as int)));
    }
    assert(support@.take(k as int) =~= support@);
    r
}

/// The affinity profiles of hyperedges `a` and `b` over the members of either, in
/// order of first occurrence (members of `a` first). Normalised to sum to one, they
/// are the distributions whose Jensen–Shannon divergence measures how far apart the
/// two hyperedges are.
pub fn profiles(hypergraph: &HyperGraph, preprocessed: &PreprocessResult, a: usize, b: usize) -> (r: (
    Vec<u64>,
    Vec<u64>,
))
    requires
        hypergraph.wf(),
        preprocessed.describes(hypergraph),
        a < hypergraph.edges.len(),
        b < hypergraph.edges.len(),
    ensures
        ({
            let edges = hypergraph.edges@;
            let support = distinct(edges[a as int].nodes@ + edges[b as int].nodes@);
            &&& r.0@ == profile(hypergraph.weights@, edges[a as int], support)
            &&& r.1@ == profile(hypergraph.weights@, edges[b as int], support)
        }),
{
    let support = union_members(&hypergraph.edges[a].nodes, &hypergraph.edges[b].nodes);
    let p = profile_of(hypergraph, preprocessed, a, &support);
    let q = profile_of(hypergraph, preprocessed, b, &support);
    (p, q)
}

} // verus!
