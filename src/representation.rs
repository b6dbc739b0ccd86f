//! Builds the projection that a `Representation` names.
use crate::bipartite::{create as create_bipartite, BipartiteNetwork, StateNetwork};
use crate::config::{RandomWalk, Representation};
use crate::hyperedge_similarity::{similarity_links, similarity_table, HyperEdgeSimilarity};
use crate::hypergraph::HyperGraph;
use crate::multilayer::{multilayer_links, Multilayer};
use crate::network::{MultilayerLink, SummedLink};
use crate::preprocess::PreprocessResult;
use crate::unipartite::{summed_view, unipartite, Unipartite};
use vstd::prelude::*;

verus! {

/// A projected network.
#[derive(Clone, Debug, PartialEq, Eq)]
pub enum Network {
    /// The plain bipartite network and its non-backtracking expansion.
    Bipartite(BipartiteNetwork, StateNetwork),
    Unipartite(Vec<SummedLink>),
    /// A multilayer network: of the multilayer or of the hyperedge-similarity projection.
    Multilayer(Vec<MultilayerLink>),
}

impl Representation {
    /// Whether this projection reads a similarity table.
    pub open spec fn uses_similarity(self) -> bool {
        self is HyperEdgeSimilarity
    }

    /// `r` is this projection of `g`, with `sim` as the similarity table.
    pub open spec fn produces(self, g: &HyperGraph, sim: Seq<Vec<u64>>, r: Network) -> bool {
        &&& self is Bipartite ==> (r matches Network::Bipartite(b, s) && b.is_bipartite_of(g)
            && s.is_non_backtracking_of(g))
        &&& self matches Representation::Unipartite(walk) ==> (r matches Network::Unipartite(l)
            && summed_view(l@) == unipartite(g, walk == RandomWalk::Lazy))
        &&& self matches Representation::Multilayer(walk) ==> (r matches Network::Multilayer(l)
            && l@ == multilayer_links(
            g.edges@,
            g.weights@,
            g.edges.len() as int,
            walk == RandomWalk::Lazy,
        ))
        &&& self matches Representation::HyperEdgeSimilarity(walk) ==> (r matches Network::Multilayer(
            l,
        ) && l@ == similarity_links(
            g.edges@,
            g.weights@,
            sim,
            g.edges.len() as int,
            walk == RandomWalk::Lazy,
        ))
    }

    /// Builds the projection of `hypergraph`. `similarity` is read only by the
    /// hyperedge-similarity projection: `similarity[a][b]` is the similarity of the
    /// hyperedges at indices `a` and `b`, in units of `1 / SIMILARITY_UNIT`.
    pub fn create(
        self,
        hypergraph: &HyperGraph,
        preprocessed: &PreprocessResult,
        similarity: &Vec<Vec<u64>>,
    ) -> (r: Network)
        requires
            hypergraph.wf(),
            preprocessed.describes(hypergraph),
            self.uses_similarity() ==> similarity_table(similarity@, hypergraph.edges.len() as int),
        ensures
            self.produces(hypergraph, similarity@, r),
    {
        match self {
            Representation::Bipartite(_) => {
                let (b, s) = create_bipartite(hypergraph, preprocessed);
                Network::Bipartite(b, s)
            },
            Representation::Unipartite(walk) => {
                Network::Unipartite(Unipartite::create(hypergraph, preprocessed, walk))
            },
            Representation::Multilayer(walk) => {
                Network::Multilayer(Multilayer::create(hypergraph, preprocessed, walk))
            },
            Representation::HyperEdgeSimilarity(walk) => {
                Network::Multilayer(
                    HyperEdgeSimilarity::create(hypergraph, preprocessed, similarity, walk),
                )
            },
        }
    }
}

/// The two networks have the same states and links, in the same order.
pub open spec fn same_network(x: Network, y: Network) -> bool {
    match (x, y) {
        (Network::Bipartite(b1, s1), Network::Bipartite(b2, s2)) => {
            &&& b1.first_feature == b2.first_feature
            &&& b1.links@ == b2.links@
            &&& s1.first_feature_state == s2.first_feature_state
            &&& s1.states@ == s2.states@
            &&& s1.links@ == s2.links@
        },
        (Network::Unipartite(l1), Network::Unipartite(l2)) => summed_view(l1@) == summed_view(l2@),
        (Network::Multilayer(l1), Network::Multilayer(l2)) => l1@ == l2@,
        _ => false,
    }
}

/// A projection depends on its inputs alone: any two networks that are the same
/// projection of the same hypergraph, with the same similarity table, hold the same
/// states and links in the same order.
pub proof fn lemma_projection_deterministic(
    rep: Representation,
    g: &HyperGraph,
    sim: Seq<Vec<u64>>,
    x: Network,
    y: Network,
)
    requires
        rep.produces(g, sim, x),
        rep.produces(g, sim, y),
    ensures
        same_network(x, y),
{
}

} // verus!
