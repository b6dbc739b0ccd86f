//! Identities between the derived quantities of a hypergraph.
use crate::hypergraph::{
    declared_node, explicit_gamma, gamma_of, EdgeId, Gamma, HyperEdge, Node, NodeId, DEFAULT_GAMMA,
};
use crate::preprocess::{default_count, edge_strength, explicit_sum, visit_rate};
use vstd::prelude::*;

verus! {

/// Sum of the affinities of `nodes` in the hyperedge with id `e`.
pub open spec fn affinity_sum(w: Seq<Gamma>, e: EdgeId, nodes: Seq<NodeId>) -> int
    decreases nodes.len(),
{
    if nodes.len() == 0 {
        0
    } else {
        affinity_sum(w, e, nodes.drop_last()) + gamma_of(w, e, nodes.last())
    }
}

/// Sum of the explicit affinities of `nodes` in the hyperedge with id `e`.
pub open spec fn explicit_part(w: Seq<Gamma>, e: EdgeId, nodes: Seq<NodeId>) -> int
    decreases nodes.len(),
{
    if nodes.len() == 0 {
        0
    } else {
        explicit_part(w, e, nodes.drop_last()) + match explicit_gamma(w, e, nodes.last()) {
            Some(g) => g as int,
            None => 0,
        }
    }
}

/// Number of `nodes` without an explicit affinity in the hyperedge with id `e`.
pub open spec fn implicit_count(w: Seq<Gamma>, e: EdgeId, nodes: Seq<NodeId>) -> int
    decreases nodes.len(),
{
    if nodes.len() == 0 {
        0
    } else {
        implicit_count(w, e, nodes.drop_last()) + if explicit_gamma(w, e, nodes.last()) is None {
            1int
        } else {
            0
        }
    }
}

/// No item of `s` occurs twice.
pub open spec fn no_repeats(s: Seq<NodeId>) -> bool {
    forall|i: int, j: int| 0 <= i < j < s.len() ==> s[i] != s[j]
}

/// The explicit records of hyperedge `e` name distinct members of `nodes`.
pub open spec fn records_match(w: Seq<Gamma>, e: EdgeId, nodes: Seq<NodeId>) -> bool {
    &&& forall|r: int| 0 <= r < w.len() && (#[trigger] w[r]).edge == e ==> nodes.contains(w[r].node)
    &&& forall|r: int, s: int|
        0 <= r < s < w.len() && (#[trigger] w[r]).edge == e && (#[trigger] w[s]).edge == e ==> w[r].node
            != w[s].node
}

proof fn lemma_affinity_split(w: Seq<Gamma>, e: EdgeId, nodes: Seq<NodeId>)
    ensures
        affinity_sum(w, e, nodes) == explicit_part(w, e, nodes) + DEFAULT_GAMMA * implicit_count(
            w,
            e,
            nodes,
        ),
    decreases nodes.len(),
{
    if nodes.len() > 0 {
        lemma_affinity_split(w, e, nodes.drop_last());
    }
}

proof fn lemma_default_count_distinct(w: Seq<Gamma>, e: EdgeId, nodes: Seq<NodeId>)
    requires
        no_repeats(nodes),
    ensures
        default_count(w, e, nodes) == implicit_count(w, e, nodes),
    decreases nodes.len(),
{
    if nodes.len() > 0 {
        let prev = nodes.drop_last();
        assert(no_repeats(prev));
        lemma_default_count_distinct(w, e, prev);
        assert(!prev.contains(nodes.last())) by {
            if prev.contains(nodes.last()) {
                let i = choose|i: int| 0 <= i < prev.len() && prev[i] == nodes.last();
                assert(nodes[i] == nodes[nodes.len() - 1]);
            }
        }
    }
}

proof fn lemma_no_record(w: Seq<Gamma>, e: EdgeId, x: NodeId)
    requires
        forall|r: int| 0 <= r < w.len() ==> !((#[trigger] w[r]).edge == e && w[r].node == x),
    ensures
        explicit_gamma(w, e, x) is None,
    decreases w.len(),
{
    if w.len() > 0 {
        let prev = w.drop_last();
        assert forall|r: int| 0 <= r < prev.len() implies !((#[trigger] prev[r]).edge == e && prev[r].node
            == x) by {
            assert(prev[r] == w[r]);
        }
        lemma_no_record(prev, e, x);
        assert(w[w.len() - 1] == w.last());
    }
}

/// Adding a record for `x0` leaves the explicit part of nodes other than `x0` unchanged.
proof fn lemma_part_unchanged(w: Seq<Gamma>, e: EdgeId, nodes: Seq<NodeId>)
    requires
        w.len() > 0,
        !nodes.contains(w.last().node),
    ensures
        explicit_part(w, e, nodes) == explicit_part(w.drop_last(), e, nodes),
    decreases nodes.len(),
{
    if nodes.len() > 0 {
        let prev = nodes.drop_last();
        assert(!prev.contains(w.last().node)) by {
            if prev.contains(w.last().node) {
                let i = choose|i: int| 0 <= i < prev.len() && prev[i] == w.last().node;
                assert(nodes[i] == w.last().node);
            }
        }
        lemma_part_unchanged(w, e, prev);
        assert(nodes.last() != w.last().node) by {
            assert(nodes[nodes.len() - 1] == nodes.last());
        }
    }
}

/// Adding the first record of hyperedge `e` for a member that `nodes` lists once adds
/// that record's affinity to the explicit part.
proof fn lemma_part_grows(w: Seq<Gamma>, e: EdgeId, nodes: Seq<NodeId>)
    requires
        w.len() > 0,
        w.last().edge == e,
        explicit_gamma(w.drop_last(), e, w.last().node) is None,
        nodes.contains(w.last().node),
        no_repeats(nodes),
    ensures
        explicit_part(w, e, nodes) == explicit_part(w.drop_last(), e, nodes) + w.last().gamma,
    decreases nodes.len(),
{
    let x0 = w.last().node;
    let prev = nodes.drop_last();
    assert(no_repeats(prev));
    if nodes.last() == x0 {
        assert(!prev.contains(x0)) by {
            if prev.contains(x0) {
                let i = choose|i: int| 0 <= i < prev.len() && prev[i] == x0;
                assert(nodes[i] == nodes[nodes.len() - 1]);
            }
        }
        lemma_part_unchanged(w, e, prev);
    } else {
        assert(prev.contains(x0)) by {
            let i = choose|i: int| 0 <= i < nodes.len() && nodes[i] == x0;
            assert(i != nodes.len() - 1);
            assert(prev[i] == x0);
        }
        lemma_part_grows(w, e, prev);
    }
}

proof fn lemma_explicit_part_is_sum(w: Seq<Gamma>, e: EdgeId, nodes: Seq<NodeId>)
    requires
        no_repeats(nodes),
        records_match(w, e, nodes),
    ensures
        explicit_part(w, e, nodes) == explicit_sum(w, e),
    decreases w.len(),
{
    if w.len() == 0 {
        lemma_part_empty(w, e, nodes);
    } else {
        let prev = w.drop_last();
        assert(records_match(prev, e, nodes)) by {
            assert forall|r: int| 0 <= r < prev.len() && (#[trigger] prev[r]).edge == e implies nodes.contains(
                prev[r].node,
            ) by {
                assert(prev[r] == w[r]);
            }
            assert forall|r: int, s: int|
                0 <= r < s < prev.len() && (#[trigger] prev[r]).edge == e && (#[trigger] prev[s]).edge == e
                implies prev[r].node != prev[s].node by {
                assert(prev[r] == w[r]);
                assert(prev[s] == w[s]);
            }
        }
        lemma_explicit_part_is_sum(prev, e, nodes);
        let last = w.last();
        assert(last == w[w.len() - 1]);
        if last.edge == e {
            assert forall|r: int| 0 <= r < prev.len() implies !((#[trigger] prev[r]).edge == e
                && prev[r].node == last.node) by {
                assert(prev[r] == w[r]);
            }
            lemma_no_record(prev, e, last.node);
            lemma_part_grows(w, e, nodes);
        } else {
            lemma_part_other_edge(w, e, nodes);
        }
    }
}

proof fn lemma_part_empty(w: Seq<Gamma>, e: EdgeId, nodes: Seq<NodeId>)
    requires
        w.len() == 0,
    ensures
        explicit_part(w, e, nodes) == 0,
    decreases nodes.len(),
{
    if nodes.len() > 0 {
        lemma_part_empty(w, e, nodes.drop_last());
    }
}

proof fn lemma_part_other_edge(w: Seq<Gamma>, e: EdgeId, nodes: Seq<NodeId>)
    requires
        w.len() > 0,
        w.last().edge != e,
    ensures
        explicit_part(w, e, nodes) == explicit_part(w.drop_last(), e, nodes),
    decreases nodes.len(),
{
    if nodes.len() > 0 {
        lemma_part_other_edge(w, e, nodes.drop_last());
    }
}

/// The strength of a hyperedge is the sum of its members' affinities, when it lists each
/// member once and its explicit affinity records name distinct members of it.
pub proof fn lemma_edge_strength_is_affinity_sum(w: Seq<Gamma>, e: HyperEdge)
    requires
        no_repeats(e.nodes@),
        records_match(w, e.id, e.nodes@),
    ensures
        edge_strength(w, e) == affinity_sum(w, e.id, e.nodes@),
{
    lemma_affinity_split(w, e.id, e.nodes@);
    lemma_default_count_distinct(w, e.id, e.nodes@);
    lemma_explicit_part_is_sum(w, e.id, e.nodes@);
}

/// Sum of the visit rates of `nodes`.
pub open spec fn rate_total(nodes: Seq<Node>, edges: Seq<HyperEdge>, w: Seq<Gamma>) -> int
    decreases nodes.len(),
{
    if nodes.len() == 0 {
        0
    } else {
        rate_total(nodes.drop_last(), edges, w) + visit_rate(edges, w, nodes.last().id)
    }
}

/// `omega(e) * sum of gamma(e, v) over the members v of e`, summed over `edges`.
pub open spec fn walk_mass(edges: Seq<HyperEdge>, w: Seq<Gamma>) -> int
    decreases edges.len(),
{
    if edges.len() == 0 {
        0
    } else {
        walk_mass(edges.drop_last(), w) + edges.last().omega * affinity_sum(
            w,
            edges.last().id,
            edges.last().nodes@,
        )
    }
}

/// `omega(e) * gamma(e, u)` summed over the nodes `u` of `nodes` that `members` holds.
pub open spec fn edge_share(nodes: Seq<Node>, e: HyperEdge, w: Seq<Gamma>, members: Seq<NodeId>) -> int
    decreases nodes.len(),
{
    if nodes.len() == 0 {
        0
    } else {
        edge_share(nodes.drop_last(), e, w, members) + if members.contains(nodes.last().id) {
            e.omega * gamma_of(w, e.id, nodes.last().id)
        } else {
            0
        }
    }
}

/// `omega(e) * gamma(e, x)` summed over the nodes of `nodes` whose id is `x`.
pub open spec fn edge_pick(nodes: Seq<Node>, e: HyperEdge, w: Seq<Gamma>, x: NodeId) -> int
    decreases nodes.len(),
{
    if nodes.len() == 0 {
        0
    } else {
        edge_pick(nodes.drop_last(), e, w, x) + if nodes.last().id == x {
            e.omega * gamma_of(w, e.id, x)
        } else {
            0
        }
    }
}

/// No two nodes share an id.
pub open spec fn ids_distinct(nodes: Seq<Node>) -> bool {
    forall|k: int, l: int| 0 <= k < l < nodes.len() ==> nodes[k].id != nodes[l].id
}

proof fn lemma_rate_total_split(nodes: Seq<Node>, edges: Seq<HyperEdge>, w: Seq<Gamma>)
    requires
        edges.len() > 0,
    ensures
        rate_total(nodes, edges, w) == rate_total(nodes, edges.drop_last(), w) + edge_share(
            nodes,
            edges.last(),
            w,
            edges.last().nodes@,
        ),
    decreases nodes.len(),
{
    if nodes.len() > 0 {
        lemma_rate_total_split(nodes.drop_last(), edges, w);
    }
}

proof fn lemma_pick_absent(nodes: Seq<Node>, e: HyperEdge, w: Seq<Gamma>, x: NodeId)
    requires
        !declared_node(nodes, x),
    ensures
        edge_pick(nodes, e, w, x) == 0,
    decreases nodes.len(),
{
    if nodes.len() > 0 {
        let prev = nodes.drop_last();
        assert(!declared_node(prev, x)) by {
            if declared_node(prev, x) {
                let k = choose|k: int| 0 <= k < prev.len() && prev[k].id == x;
                assert(nodes[k].id == x);
            }
        }
        lemma_pick_absent(prev, e, w, x);
        assert(nodes[nodes.len() - 1].id != x);
    }
}

proof fn lemma_pick_once(nodes: Seq<Node>, e: HyperEdge, w: Seq<Gamma>, x: NodeId)
    requires
        ids_distinct(nodes),
        declared_node(nodes, x),
    ensures
        edge_pick(nodes, e, w, x) == e.omega * gamma_of(w, e.id, x),
    decreases nodes.len(),
{
    let prev = nodes.drop_last();
    assert(ids_distinct(prev));
    if nodes.last().id == x {
        assert(!declared_node(prev, x)) by {
            if declared_node(prev, x) {
                let k = choose|k: int| 0 <= k < prev.len() && prev[k].id == x;
                assert(nodes[k].id == nodes[nodes.len() - 1].id);
            }
        }
        lemma_pick_absent(prev, e, w, x);
    } else {
        assert(declared_node(prev, x)) by {
            let k = choose|k: int| 0 <= k < nodes.len() && nodes[k].id == x;
            assert(k != nodes.len() - 1);
            assert(prev[k].id == x);
        }
        lemma_pick_once(prev, e, w, x);
    }
}

proof fn lemma_share_push(nodes: Seq<Node>, e: HyperEdge, w: Seq<Gamma>, members: Seq<NodeId>)
    requires
        members.len() > 0,
        !members.drop_last().contains(members.last()),
    ensures
        edge_share(nodes, e, w, members) == edge_share(nodes, e, w, members.drop_last()) + edge_pick(
            nodes,
            e,
            w,
            members.last(),
        ),
    decreases nodes.len(),
{
    if nodes.len() > 0 {
        lemma_share_push(nodes.drop_last(), e, w, members);
        let x = nodes.last().id;
        let prev = members.drop_last();
        assert(members.contains(x) == (prev.contains(x) || x == members.last())) by {
            if members.contains(x) {
                let i = choose|i: int| 0 <= i < members.len() && members[i] == x;
                if i < prev.len() {
                    assert(prev[i] == x);
                }
            }
            if prev.contains(x) {
                let i = choose|i: int| 0 <= i < prev.len() && prev[i] == x;
                assert(members[i] == x);
            }
            if x == members.last() {
                assert(members[members.len() - 1] == x);
            }
        }
    }
}

proof fn lemma_share_is_mass(nodes: Seq<Node>, e: HyperEdge, w: Seq<Gamma>, members: Seq<NodeId>)
    requires
        ids_distinct(nodes),
        no_repeats(members),
        forall|i: int| 0 <= i < members.len() ==> declared_node(nodes, #[trigger] members[i]),
    ensures
        edge_share(nodes, e, w, members) == e.omega * affinity_sum(w, e.id, members),
    decreases members.len(),
{
    if members.len() == 0 {
        lemma_share_empty(nodes, e, w, members);
    } else {
        let prev = members.drop_last();
        assert(no_repeats(prev));
        assert forall|i: int| 0 <= i < prev.len() implies declared_node(nodes, #[trigger] prev[i]) by {
            assert(prev[i] == members[i]);
        }
        lemma_share_is_mass(nodes, e, w, prev);
        assert(!prev.contains(members.last())) by {
            if prev.contains(members.last()) {
                let i = choose|i: int| 0 <= i < prev.len() && prev[i] == members.last();
                assert(members[i] == members[members.len() - 1]);
            }
        }
        lemma_share_push(nodes, e, w, members);
        assert(declared_node(nodes, members[members.len() - 1]));
        lemma_pick_once(nodes, e, w, members.last());
        let a = affinity_sum(w, e.id, prev);
        let g = gamma_of(w, e.id, members.last());
        assert(e.omega * (a + g) == e.omega * a + e.omega * g) by (nonlinear_arith);
    }
}

proof fn lemma_share_empty(nodes: Seq<Node>, e: HyperEdge, w: Seq<Gamma>, members: Seq<NodeId>)
    requires
        members.len() == 0,
    ensures
        edge_share(nodes, e, w, members) == 0,
    decreases nodes.len(),
{
    if nodes.len() > 0 {
        lemma_share_empty(nodes.drop_last(), e, w, members);
    }
}

proof fn lemma_rate_total_empty(nodes: Seq<Node>, edges: Seq<HyperEdge>, w: Seq<Gamma>)
    requires
        edges.len() == 0,
    ensures
        rate_total(nodes, edges, w) == 0,
    decreases nodes.len(),
{
    if nodes.len() > 0 {
        lemma_rate_total_empty(nodes.drop_last(), edges, w);
    }
}

/// The visit rates of all nodes sum to the total walk mass
/// `sum over e of omega(e) * sum over v in e of gamma(e, v)`, when node ids are unique,
/// every member is a declared node and no hyperedge lists a member twice.
pub proof fn lemma_visit_rates_sum(nodes: Seq<Node>, edges: Seq<HyperEdge>, w: Seq<Gamma>)
    requires
        ids_distinct(nodes),
        forall|a: int| 0 <= a < edges.len() ==> no_repeats(#[trigger] edges[a].nodes@),
        forall|a: int, j: int|
            0 <= a < edges.len() && 0 <= j < edges[a].nodes.len() ==> declared_node(
                nodes,
                #[trigger] edges[a].nodes@[j],
            ),
    ensures
        rate_total(nodes, edges, w) == walk_mass(edges, w),
    decreases edges.len(),
{
    if edges.len() == 0 {
        lemma_rate_total_empty(nodes, edges, w);
    } else {
        let prev = edges.drop_last();
        assert forall|a: int| 0 <= a < prev.len() implies no_repeats(#[trigger] prev[a].nodes@) by {
            assert(prev[a] == edges[a]);
        }
        assert forall|a: int, j: int|
            0 <= a < prev.len() && 0 <= j < prev[a].nodes.len() implies declared_node(
            nodes,
            #[trigger] prev[a].nodes@[j],
        ) by {
            assert(prev[a] == edges[a]);
        }
        lemma_visit_rates_sum(nodes, prev, w);
        lemma_rate_total_split(nodes, edges, w);
        let e = edges.last();
        assert(e == edges[edges.len() - 1]);
        assert(no_repeats(e.nodes@));
        assert forall|i: int| 0 <= i < e.nodes@.len() implies declared_node(nodes, #[trigger] e.nodes@[i]) by {
            assert(declared_node(nodes, edges[edges.len() - 1].nodes@[i]));
        }
        lemma_share_is_mass(nodes, e, w, e.nodes@);
    }
}

} // verus!
