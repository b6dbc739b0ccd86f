//! The hypergraph model: nodes, weighted hyperedges and explicit affinities.
use vstd::prelude::*;

verus! {

pub type NodeId = usize;

pub type EdgeId = usize;

/// Number of weight units in one whole unit of weight (four decimal places).
pub const UNIT: u64 = 10000;

/// Affinity of a node in a hyperedge when no explicit record gives one: 1.0.
pub const DEFAULT_GAMMA: u64 = 10000;

/// Largest edge weight or affinity accepted, in weight units.
pub const MAX_WEIGHT: u64 = 0x100_0000;

/// Largest number of nodes, hyperedges, affinity records or members of one hyperedge.
pub const MAX_COUNT: usize = 0x8000;

/// Largest node id accepted.
pub const MAX_ID: usize = 0x7fff_ffff;

#[derive(Clone, Debug, PartialEq, Eq)]
pub struct Node {
    pub id: NodeId,
    pub name: String,
}

#[derive(Clone, Debug, PartialEq, Eq)]
pub struct HyperEdge {
    pub id: EdgeId,
    pub nodes: Vec<NodeId>,
    /// Total weight of the hyperedge, in weight units.
    pub omega: u64,
}

/// An explicit affinity of `node` in hyperedge `edge`, in weight units.
#[derive(Clone, Copy, PartialEq, Eq, Structural, Debug)]
pub struct Gamma {
    pub edge: EdgeId,
    pub node: NodeId,
    pub gamma: u64,
}

#[derive(Clone, Debug, PartialEq, Eq)]
pub struct HyperGraph {
    pub nodes: Vec<Node>,
    pub edges: Vec<HyperEdge>,
    pub weights: Vec<Gamma>,
}

/// Why a hypergraph cannot be projected.
#[derive(Clone, Copy, PartialEq, Eq, Structural, Debug)]
pub enum ModelError {
    /// Too many nodes, hyperedges, affinity records or members of one hyperedge.
    TooLarge,
    /// Two nodes share this id.
    DuplicateNode(NodeId),
    /// A node id is larger than `MAX_ID`.
    NodeIdTooLarge(NodeId),
    /// Two hyperedges share this id.
    DuplicateEdge(EdgeId),
    /// A hyperedge or an affinity record names this undeclared node.
    UnknownNode(NodeId),
    /// An affinity record names this undeclared hyperedge.
    UnknownEdge(EdgeId),
    /// A weight is zero or larger than `MAX_WEIGHT`.
    BadWeight,
}

/// `u` is the id of some node of `nodes`.
pub open spec fn declared_node(nodes: Seq<Node>, u: NodeId) -> bool {
    exists|k: int| 0 <= k < nodes.len() && nodes[k].id == u
}

/// `e` is the id of some hyperedge of `edges`.
pub open spec fn declared_edge(edges: Seq<HyperEdge>, e: EdgeId) -> bool {
    exists|a: int| 0 <= a < edges.len() && edges[a].id == e
}

pub open spec fn valid_weight(w: u64) -> bool {
    1 <= w <= MAX_WEIGHT
}

/// The last explicit affinity recorded for `node` in hyperedge `edge`, if any.
pub open spec fn explicit_gamma(w: Seq<Gamma>, edge: EdgeId, node: NodeId) -> Option<u64>
    decreases w.len(),
{
    if w.len() == 0 {
        None
    } else if w.last().edge == edge && w.last().node == node {
        Some(w.last().gamma)
    } else {
        explicit_gamma(w.drop_last(), edge, node)
    }
}

/// Affinity of `node` in hyperedge `edge`: the explicit one, or `DEFAULT_GAMMA`.
pub open spec fn gamma_of(w: Seq<Gamma>, edge: EdgeId, node: NodeId) -> u64 {
    match explicit_gamma(w, edge, node) {
        Some(g) => g,
        None => DEFAULT_GAMMA,
    }
}

/// Every hyperedge is small enough and carries a valid weight.
pub open spec fn edges_bounded(edges: Seq<HyperEdge>) -> bool {
    forall|a: int|
        0 <= a < edges.len() ==> {
            &&& (#[trigger] edges[a]).nodes.len() <= MAX_COUNT
            &&& valid_weight(edges[a].omega)
        }
}

/// Every explicit affinity is valid.
pub open spec fn weights_bounded(w: Seq<Gamma>) -> bool {
    forall|r: int| 0 <= r < w.len() ==> valid_weight(#[trigger] w[r].gamma)
}

impl HyperGraph {
    /// Ids are unique, every reference is declared, and sizes and weights are
    /// small enough for exact arithmetic.
    pub open spec fn wf(&self) -> bool {
        &&& self.nodes.len() <= MAX_COUNT
        &&& self.edges.len() <= MAX_COUNT
        &&& self.weights.len() <= MAX_COUNT
        &&& forall|k: int| 0 <= k < self.nodes.len() ==> self.nodes@[k].id <= MAX_ID
        &&& forall|k: int, l: int|
            0 <= k < l < self.nodes.len() ==> self.nodes@[k].id != self.nodes@[l].id
        &&& forall|a: int, b: int|
            0 <= a < b < self.edges.len() ==> self.edges@[a].id != self.edges@[b].id
        &&& edges_bounded(self.edges@)
        &&& forall|a: int, j: int|
            0 <= a < self.edges.len() && 0 <= j < self.edges@[a].nodes.len() ==> declared_node(
                self.nodes@,
                #[trigger] self.edges@[a].nodes@[j],
            )
        &&& weights_bounded(self.weights@)
        &&& forall|r: int|
            0 <= r < self.weights.len() ==> {
                &&& declared_node(self.nodes@, #[trigger] self.weights@[r].node)
                &&& declared_edge(self.edges@, self.weights@[r].edge)
            }
    }
}


impl HyperGraph {
    /// Index of the node whose id is `u`.
    pub fn node_position(&self, u: NodeId) -> (r: usize)
        requires
            declared_node(self.nodes@, u),
        ensures
            r < self.nodes.len(),
            self.nodes@[r as int].id == u,
    {
        let mut k: usize = 0;
        while k < self.nodes.len()
            invariant
                k <= self.nodes.len(),
                declared_node(self.nodes@, u),
                forall|i: int| 0 <= i < k ==> self.nodes@[i].id != u,
            decreases self.nodes.len() - k,
        {
            if self.nodes[k].id == u {
                return k;
            }
            k += 1;
        }
        k
    }

    /// Whether some node has id `u`.
    pub fn has_node(&self, u: NodeId) -> (r: bool)
        ensures
            r == declared_node(self.nodes@, u),
    {
        let mut k: usize = 0;
        while k < self.nodes.len()
            invariant
                k <= self.nodes.len(),
                forall|i: int| 0 <= i < k ==> self.nodes@[i].id != u,
            decreases self.nodes.len() - k,
        {
            if self.nodes[k].id == u {
                return true;
            }
            k += 1;
        }
        false
    }

    /// Whether some hyperedge has id `e`.
    pub fn has_edge(&self, e: EdgeId) -> (r: bool)
        ensures
            r == declared_edge(self.edges@, e),
    {
        let mut a: usize = 0;
        while a < self.edges.len()
            invariant
                a <= self.edges.len(),
                forall|i: int| 0 <= i < a ==> self.edges@[i].id != e,
            decreases self.edges.len() - a,
        {
            if self.edges[a].id == e {
                return true;
            }
            a += 1;
        }
        false
    }

    /// Checks that the hypergraph can be projected: `Ok` exactly when it is well formed,
    /// otherwise the first problem found.
    pub fn check(&self) -> (r: Result<(), ModelError>)
        ensures
            r is Ok <==> self.wf(),
            r matches Err(ModelError::DuplicateNode(u)) ==> exists|k: int, l: int|
                0 <= k < l < self.nodes.len() && self.nodes@[k].id == u && self.nodes@[l].id == u,
            r matches Err(ModelError::NodeIdTooLarge(u)) ==> u > MAX_ID,
            r matches Err(ModelError::DuplicateEdge(e)) ==> exists|a: int, b: int|
                0 <= a < b < self.edges.len() && self.edges@[a].id == e && self.edges@[b].id == e,
            r matches Err(ModelError::UnknownNode(u)) ==> !declared_node(self.nodes@, u),
            r matches Err(ModelError::UnknownEdge(e)) ==> !declared_edge(self.edges@, e),
    {
        if self.nodes.len() > MAX_COUNT || self.edges.len() > MAX_COUNT || self.weights.len()
            > MAX_COUNT {
            return Err(ModelError::TooLarge);
        }
        let mut k: usize = 0;
        while k < self.nodes.len()
            invariant
                k <= self.nodes.len(),
                forall|i: int| 0 <= i < k ==> self.nodes@[i].id <= MAX_ID,
                forall|i: int, l: int| 0 <= i < l < k ==> self.nodes@[i].id != self.nodes@[l].id,
            decreases self.nodes.len() - k,
        {
            let u = self.nodes[k].id;
            if u > MAX_ID {
                return Err(ModelError::NodeIdTooLarge(u));
            }
            let mut i: usize = 0;
            while i < k
                invariant
                    k < self.nodes.len(),
                    u == self.nodes@[k as int].id,
                    i <= k,
                    forall|m: int| 0 <= m < i ==> self.nodes@[m].id != u,
                decreases k - i,
            {
                if self.nodes[i].id == u {
                    return Err(ModelError::DuplicateNode(u));
                }
                i += 1;
            }
            k += 1;
        }
        let mut a: usize = 0;
        while a < self.edges.len()
            invariant
                self.nodes.len() <= MAX_COUNT,
                self.edges.len() <= MAX_COUNT,
                self.weights.len() <= MAX_COUNT,
                forall|i: int| 0 <= i < self.nodes.len() ==> self.nodes@[i].id <= MAX_ID,
                forall|i: int, l: int|
                    0 <= i < l < self.nodes.len() ==> self.nodes@[i].id != self.nodes@[l].id,
                a <= self.edges.len(),
                forall|i: int, l: int| 0 <= i < l < a ==> self.edges@[i].id != self.edges@[l].id,
                forall|i: int|
                    0 <= i < a ==> {
                        &&& (#[trigger] self.edges@[i]).nodes.len() <= MAX_COUNT
                        &&& valid_weight(self.edges@[i].omega)
                    },
                forall|i: int, j: int|
                    0 <= i < a && 0 <= j < self.edges@[i].nodes.len() ==> declared_node(
                        self.nodes@,
                        #[trigger] self.edges@[i].nodes@[j],
                    ),
            decreases self.edges.len() - a,
        {
            let e = &self.edges[a];
            let mut i: usize = 0;
            while i < a
                invariant
                    a < self.edges.len(),
                    e == &self.edges@[a as int],
                    i <= a,
                    forall|m: int| 0 <= m < i ==> self.edges@[m].id != e.id,
                decreases a - i,
            {
                if self.edges[i].id == e.id {
                    return Err(ModelError::DuplicateEdge(e.id));
                }
                i += 1;
            }
            if e.nodes.len() > MAX_COUNT {
                return Err(ModelError::TooLarge);
            }
            if e.omega < 1 || e.omega > MAX_WEIGHT {
                return Err(ModelError::BadWeight);
            }
            let mut j: usize = 0;
            while j < e.nodes.len()
                invariant
                    a < self.edges.len(),
                    e == &self.edges@[a as int],
                    j <= e.nodes.len(),
                    forall|m: int| 0 <= m < j ==> declared_node(self.nodes@, #[trigger] e.nodes@[m]),
                decreases e.nodes.len() - j,
            {
                if !self.has_node(e.nodes[j]) {
                    return Err(ModelError::UnknownNode(e.nodes[j]));
                }
                j += 1;
            }
            a += 1;
        }
        let mut r: usize = 0;
        while r < self.weights.len()
            invariant
                self.nodes.len() <= MAX_COUNT,
                self.edges.len() <= MAX_COUNT,
                self.weights.len() <= MAX_COUNT,
                forall|i: int| 0 <= i < self.nodes.len() ==> self.nodes@[i].id <= MAX_ID,
                forall|i: int, l: int|
                    0 <= i < l < self.nodes.len() ==> self.nodes@[i].id != self.nodes@[l].id,
                forall|i: int, l: int|
                    0 <= i < l < self.edges.len() ==> self.edges@[i].id != self.edges@[l].id,
                edges_bounded(self.edges@),
                forall|i: int, j: int|
                    0 <= i < self.edges.len() && 0 <= j < self.edges@[i].nodes.len() ==> declared_node(
                        self.nodes@,
                        #[trigger] self.edges@[i].nodes@[j],
                    ),
                r <= self.weights.len(),
                forall|i: int| 0 <= i < r ==> valid_weight(#[trigger] self.weights@[i].gamma),
                forall|i: int|
                    0 <= i < r ==> {
                        &&& declared_node(self.nodes@, #[trigger] self.weights@[i].node)
                        &&& declared_edge(self.edges@, self.weights@[i].edge)
                    },
            decreases self.weights.len() - r,
        {
            let x = self.weights[r];
            if x.gamma < 1 || x.gamma > MAX_WEIGHT {
                return Err(ModelError::BadWeight);
            }
            if !self.has_node(x.node) {
                return Err(ModelError::UnknownNode(x.node));
            }
            if !self.has_edge(x.edge) {
                return Err(ModelError::UnknownEdge(x.edge));
            }
            assert(x == self.weights@[r as int]);
            assert forall|i: int| 0 <= i < r + 1 implies {
                &&& declared_node(self.nodes@, #[trigger] self.weights@[i].node)
                &&& declared_edge(self.edges@, self.weights@[i].edge)
            } by {
                if i == r {
                    assert(declared_node(self.nodes@, x.node));
                    assert(declared_edge(self.edges@, x.edge));
                }
            }
            r += 1;
        }
        Ok(())
    }
}

} // verus!
