//! Links, states and exact weights of the projected networks.
use crate::hypergraph::NodeId;
use vstd::prelude::*;

verus! {

pub type LayerId = usize;

/// Inverse of the pruning threshold: links lighter than `1 / 10^10` are dropped.
pub const INVERSE_THRESHOLD: u128 = 10_000_000_000;

/// Numerators from this bound on reach the threshold over any denominator below `2^127`.
pub const LARGE_NUMERATOR: u128 = 0x4000_0000_0000_0000_0000_0000;

/// The exact non-negative fraction `num / den`.
#[derive(Clone, Copy, PartialEq, Eq, Structural, Debug)]
pub struct Ratio {
    pub num: u128,
    pub den: u128,
}

/// `num / den` is a proper fraction of at least `1 / 10^10`.
pub open spec fn kept(num: int, den: int) -> bool {
    den > 0 && num * INVERSE_THRESHOLD >= den
}

/// The fraction `num / den`, which must fit in 128 bits.
pub open spec fn ratio(num: int, den: int) -> Ratio {
    Ratio { num: num as u128, den: den as u128 }
}

/// Whether `num / den` reaches the pruning threshold.
pub fn reaches_threshold(num: u128, den: u128) -> (r: bool)
    requires
        den < 0x8000_0000_0000_0000_0000_0000_0000_0000,
    ensures
        r == kept(num as int, den as int),
{
    if den == 0 {
        false
    } else if num >= LARGE_NUMERATOR {
        assert(num * INVERSE_THRESHOLD >= den) by (nonlinear_arith)
            requires
                num >= LARGE_NUMERATOR,
                den < 0x8000_0000_0000_0000_0000_0000_0000_0000,
        ;
        true
    } else {
        assert(num * INVERSE_THRESHOLD < 0x1_0000_0000_0000_0000_0000_0000_0000_0000)
            by (nonlinear_arith)
            requires
                num < LARGE_NUMERATOR,
        ;
        num * INVERSE_THRESHOLD >= den
    }
}

/// Every link of `links` weighs at least `1 / 10^10`.
pub open spec fn all_kept(links: Seq<MultilayerLink>) -> bool {
    forall|i: int| 0 <= i < links.len() ==> kept((#[trigger] links[i]).weight.num as int, links[i].weight.den as int)
}

pub proof fn lemma_all_kept_concat(a: Seq<MultilayerLink>, b: Seq<MultilayerLink>)
    requires
        all_kept(a),
        all_kept(b),
    ensures
        all_kept(a + b),
{
    assert forall|i: int| 0 <= i < (a + b).len() implies kept(
        (#[trigger] (a + b)[i]).weight.num as int,
        (a + b)[i].weight.den as int,
    ) by {
        if i < a.len() {
            assert((a + b)[i] == a[i]);
        } else {
            assert((a + b)[i] == b[i - a.len()]);
        }
    }
}

pub proof fn lemma_contains_concat<T>(s: Seq<T>, t: Seq<T>, x: T)
    ensures
        s.contains(x) ==> (s + t).contains(x),
        t.contains(x) ==> (s + t).contains(x),
{
    if s.contains(x) {
        let i = choose|i: int| 0 <= i < s.len() && s[i] == x;
        assert((s + t)[i] == x);
    }
    if t.contains(x) {
        let i = choose|i: int| 0 <= i < t.len() && t[i] == x;
        assert((s + t)[s.len() + i] == x);
    }
}

/// Every link of `links` weighs at least `1 / 10^10`.
pub open spec fn links_kept(links: Seq<Link>) -> bool {
    forall|i: int| 0 <= i < links.len() ==> kept((#[trigger] links[i]).weight.num as int, links[i].weight.den as int)
}

pub proof fn lemma_links_kept_concat(a: Seq<Link>, b: Seq<Link>)
    requires
        links_kept(a),
        links_kept(b),
    ensures
        links_kept(a + b),
{
    assert forall|i: int| 0 <= i < (a + b).len() implies kept(
        (#[trigger] (a + b)[i]).weight.num as int,
        (a + b)[i].weight.den as int,
    ) by {
        if i < a.len() {
            assert((a + b)[i] == a[i]);
        } else {
            assert((a + b)[i] == b[i - a.len()]);
        }
    }
}

/// A directed link with one exact weight.
#[derive(Clone, Copy, PartialEq, Eq, Structural, Debug)]
pub struct Link {
    pub source: NodeId,
    pub target: NodeId,
    pub weight: Ratio,
}

/// A directed link whose exact weight is the sum of the fractions in `weight`.
#[derive(Clone, Debug, PartialEq, Eq)]
pub struct SummedLink {
    pub source: NodeId,
    pub target: NodeId,
    pub weight: Vec<Ratio>,
}

impl View for SummedLink {
    type V = (NodeId, NodeId, Seq<Ratio>);

    open spec fn view(&self) -> (NodeId, NodeId, Seq<Ratio>) {
        (self.source, self.target, self.weight@)
    }
}

/// A state of a state-space network: `state_id` stands for a visit of `node_id`.
#[derive(Clone, Copy, PartialEq, Eq, Structural, Debug)]
pub struct StateNode {
    pub state_id: NodeId,
    pub node_id: NodeId,
}

/// A link from node `source` in layer `layer1` to node `target` in layer `layer2`.
#[derive(Clone, Copy, PartialEq, Eq, Structural, Debug)]
pub struct MultilayerLink {
    pub layer1: LayerId,
    pub source: NodeId,
    pub layer2: LayerId,
    pub target: NodeId,
    pub weight: Ratio,
}

} // verus!
