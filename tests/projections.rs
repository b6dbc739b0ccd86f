use create_representations::bipartite::create as create_bipartite;
use create_representations::config::{FlagError, RandomWalk, Representation};
use create_representations::hyperedge_similarity::{HyperEdgeSimilarity, SIMILARITY_UNIT};
use create_representations::hypergraph::{
    Gamma, HyperEdge, HyperGraph, ModelError, Node, DEFAULT_GAMMA, MAX_ID, MAX_WEIGHT, UNIT,
};
use create_representations::js_similarity::profiles;
use create_representations::multilayer::Multilayer;
use create_representations::network::{MultilayerLink, Ratio, StateNode, SummedLink};
use create_representations::preprocess::{Preprocess, PreprocessResult};
use create_representations::representation::Network;
use create_representations::unipartite::Unipartite;

fn node(id: usize) -> Node {
    Node { id, name: format!("n{}", id) }
}

fn edge(id: usize, nodes: Vec<usize>, omega: u64) -> HyperEdge {
    HyperEdge { id, nodes, omega }
}

fn graph(nodes: Vec<usize>, edges: Vec<HyperEdge>, weights: Vec<Gamma>) -> HyperGraph {
    HyperGraph { nodes: nodes.into_iter().map(node).collect(), edges, weights }
}

fn value(r: &Ratio) -> f64 {
    r.num as f64 / r.den as f64
}

fn total(l: &SummedLink) -> f64 {
    l.weight.iter().map(value).sum()
}

fn close(x: f64, y: f64) -> bool {
    (x - y).abs() < 1e-12
}

/// Two nodes {1, 2}, one hyperedge {0: [1, 2], omega 1.0}, no explicit weights.
fn pair_graph() -> HyperGraph {
    graph(vec![1, 2], vec![edge(0, vec![1, 2], UNIT)], vec![])
}

fn prepared(g: &HyperGraph) -> PreprocessResult {
    assert_eq!(g.check(), Ok(()));
    Preprocess::run(g)
}

fn pairs(links: &[SummedLink]) -> Vec<(usize, usize, f64)> {
    links.iter().map(|l| (l.source, l.target, total(l))).collect()
}

#[test]
fn pair_graph_derived_quantities() {
    let g = pair_graph();
    let p = prepared(&g);
    assert_eq!(p.gamma, vec![vec![DEFAULT_GAMMA, DEFAULT_GAMMA]]);
    assert_eq!(p.delta, vec![2 * UNIT]);
    assert_eq!(p.d, vec![UNIT, UNIT]);
    assert_eq!(p.pi, vec![UNIT * UNIT, UNIT * UNIT]);
    assert_eq!(p.pi_alpha, vec![vec![UNIT * UNIT, UNIT * UNIT]]);
    assert_eq!(p.E, vec![vec![0], vec![0]]);
}

#[test]
fn pair_graph_unipartite_lazy() {
    let g = pair_graph();
    let p = prepared(&g);
    let links = Unipartite::create(&g, &p, RandomWalk::Lazy);
    let got = pairs(&links);
    assert_eq!(got.len(), 4);
    let want = [(1, 1, 0.5), (1, 2, 0.5), (2, 1, 0.5), (2, 2, 0.5)];
    for (i, (s, t, w)) in want.iter().enumerate() {
        assert_eq!((got[i].0, got[i].1), (*s, *t));
        assert!(close(got[i].2, *w));
    }
}

#[test]
fn pair_graph_unipartite_non_lazy() {
    let g = pair_graph();
    let p = prepared(&g);
    let links = Unipartite::create(&g, &p, RandomWalk::NonLazy);
    let got = pairs(&links);
    assert_eq!(got.len(), 2);
    assert_eq!((got[0].0, got[0].1), (1, 2));
    assert!(close(got[0].2, 1.0));
    assert_eq!((got[1].0, got[1].1), (2, 1));
    assert!(close(got[1].2, 1.0));
}

#[test]
fn unipartite_sums_contributions_of_shared_hyperedges() {
    let g = graph(vec![1, 2], vec![edge(0, vec![1, 2], UNIT), edge(1, vec![1, 2], UNIT)], vec![]);
    let p = prepared(&g);
    let links = Unipartite::create(&g, &p, RandomWalk::NonLazy);
    assert_eq!(links.len(), 2);
    assert_eq!(links[0].weight.len(), 2);
    // pi[1] = 2.0, each hyperedge is chosen with probability 1/2 and then leads to 2.
    assert!(close(total(&links[0]), 2.0));
}

#[test]
fn non_lazy_unipartite_has_no_self_links() {
    let g = graph(
        vec![1, 2, 3],
        vec![edge(0, vec![1, 2, 3], UNIT), edge(1, vec![2, 3], 3 * UNIT)],
        vec![Gamma { edge: 1, node: 3, gamma: 2 * UNIT }],
    );
    let p = prepared(&g);
    let links = Unipartite::create(&g, &p, RandomWalk::NonLazy);
    assert!(!links.is_empty());
    assert!(links.iter().all(|l| l.source != l.target));
    let lazy = Unipartite::create(&g, &p, RandomWalk::Lazy);
    assert!(lazy.iter().any(|l| l.source == l.target));
}

#[test]
fn non_lazy_skips_a_member_holding_the_whole_hyperedge() {
    // Node 1 alone in hyperedge 0: excluding it leaves nothing to walk to.
    let g = graph(vec![1, 2], vec![edge(0, vec![1], UNIT), edge(1, vec![1, 2], UNIT)], vec![]);
    let p = prepared(&g);
    let links = Unipartite::create(&g, &p, RandomWalk::NonLazy);
    assert_eq!(links.len(), 2);
    assert_eq!((links[0].source, links[0].target), (1, 2));
    assert_eq!(links[0].weight.len(), 1);
}

#[test]
fn pruning_drops_light_links_only() {
    let g = graph(
        vec![1, 2, 3],
        vec![edge(0, vec![1, 2], 1), edge(1, vec![1, 3], MAX_WEIGHT)],
        vec![
            Gamma { edge: 0, node: 1, gamma: MAX_WEIGHT },
            Gamma { edge: 0, node: 2, gamma: 1 },
            Gamma { edge: 1, node: 1, gamma: 1 },
        ],
    );
    let p = prepared(&g);
    let links = Unipartite::create(&g, &p, RandomWalk::Lazy);
    // 1 -> 2 weighs about 1.2e-15 and is dropped; 2 -> 1 weighs about 1e-8 and stays.
    assert!(!links.iter().any(|l| l.source == 1 && l.target == 2));
    assert!(links.iter().any(|l| l.source == 2 && l.target == 1));
    for l in &links {
        for r in &l.weight {
            assert!(value(r) >= 1e-10);
        }
    }
}

#[test]
fn pair_graph_bipartite() {
    let g = pair_graph();
    let p = prepared(&g);
    let (b, s) = create_bipartite(&g, &p);
    assert_eq!(b.first_feature, 3);
    let got: Vec<(usize, usize, f64)> =
        b.links.iter().map(|l| (l.source, l.target, value(&l.weight))).collect();
    assert_eq!(got.len(), 4);
    let want = [(1, 3, 1.0), (3, 1, 1.0), (2, 3, 1.0), (3, 2, 1.0)];
    for (i, (x, y, w)) in want.iter().enumerate() {
        assert_eq!((got[i].0, got[i].1), (*x, *y));
        assert!(close(got[i].2, *w));
    }
    assert_eq!(s.first_feature_state, 2);
    assert_eq!(
        s.states,
        vec![
            StateNode { state_id: 0, node_id: 1 },
            StateNode { state_id: 1, node_id: 2 },
            StateNode { state_id: 2, node_id: 3 },
            StateNode { state_id: 3, node_id: 3 },
        ]
    );
    let got: Vec<(usize, usize)> = s.links.iter().map(|l| (l.source, l.target)).collect();
    assert_eq!(got, vec![(0, 2), (3, 0), (1, 3), (2, 1)]);
}

#[test]
fn non_backtracking_never_returns_to_origin() {
    let g = graph(
        vec![4, 7, 9],
        vec![edge(0, vec![4, 7, 9], UNIT), edge(5, vec![7, 9], 2 * UNIT)],
        vec![],
    );
    let p = prepared(&g);
    let (b, s) = create_bipartite(&g, &p);
    assert_eq!(b.first_feature, 10);
    assert_eq!(s.first_feature_state, 3);
    assert_eq!(s.states.len(), 3 + 3 + 2);
    assert_eq!(s.states[3], StateNode { state_id: 3, node_id: 10 });
    assert_eq!(s.states[6], StateNode { state_id: 6, node_id: 11 });
    // Member state of position i of hyperedge 0 is 3 + i; of hyperedge 5 it is 6 + i.
    let origin = [(3, 0), (4, 1), (5, 2), (6, 1), (7, 2)];
    for l in &s.links {
        for (state, node_state) in origin.iter() {
            assert!(!(l.source == *state && l.target == *node_state));
        }
    }
    assert!(s.links.iter().any(|l| l.source == 4 && l.target == 0));
}

#[test]
fn pair_graph_multilayer() {
    let g = pair_graph();
    let p = prepared(&g);
    let links = Multilayer::create(&g, &p, RandomWalk::Lazy);
    let got: Vec<(usize, usize, usize, usize, f64)> = links
        .iter()
        .map(|l| (l.layer1, l.source, l.layer2, l.target, value(&l.weight)))
        .collect();
    assert_eq!(got.len(), 4);
    let want = [(0, 1, 0, 1), (0, 1, 0, 2), (0, 2, 0, 1), (0, 2, 0, 2)];
    for (i, w) in want.iter().enumerate() {
        assert_eq!((got[i].0, got[i].1, got[i].2, got[i].3), *w);
        assert!(close(got[i].4, 0.5));
    }
    let non_lazy = Multilayer::create(&g, &p, RandomWalk::NonLazy);
    assert_eq!(non_lazy.len(), 2);
    assert!(close(value(&non_lazy[0].weight), 1.0));
}

#[test]
fn multilayer_crosses_layers() {
    let g = graph(vec![1, 2, 3], vec![edge(0, vec![1, 2], UNIT), edge(1, vec![2, 3], UNIT)], vec![]);
    let p = prepared(&g);
    let layer = Multilayer::links_from_layer(&g, &p, 0, RandomWalk::NonLazy);
    // From (0, 1): only to (0, 2). From (0, 2): to (0, 1) and (1, 3), each half.
    let got: Vec<(usize, usize, usize, usize, f64)> = layer
        .iter()
        .map(|l| (l.layer1, l.source, l.layer2, l.target, value(&l.weight)))
        .collect();
    assert_eq!(got.len(), 3);
    assert_eq!((got[0].0, got[0].1, got[0].2, got[0].3), (0, 1, 0, 2));
    assert!(close(got[0].4, 1.0));
    assert_eq!((got[1].0, got[1].1, got[1].2, got[1].3), (0, 2, 0, 1));
    assert!(close(got[1].4, 0.5));
    assert_eq!((got[2].0, got[2].1, got[2].2, got[2].3), (0, 2, 1, 3));
    assert!(close(got[2].4, 0.5));
}

#[test]
fn similarity_projection_weights_by_similarity() {
    let g = graph(vec![1, 2, 3], vec![edge(0, vec![1, 2], UNIT), edge(1, vec![2, 3], UNIT)], vec![]);
    let p = prepared(&g);
    let sim = vec![vec![SIMILARITY_UNIT, SIMILARITY_UNIT / 4], vec![SIMILARITY_UNIT / 4, SIMILARITY_UNIT]];
    let links: Vec<MultilayerLink> = HyperEdgeSimilarity::create(&g, &p, &sim, RandomWalk::NonLazy);
    // From (0, 2): D = 1 for layer 0 and 1/4 for layer 1, so 4/5 and 1/5.
    let from_two: Vec<&MultilayerLink> =
        links.iter().filter(|l| l.layer1 == 0 && l.source == 2).collect();
    assert_eq!(from_two.len(), 2);
    assert_eq!((from_two[0].layer2, from_two[0].target), (0, 1));
    assert!(close(value(&from_two[0].weight), 0.8));
    assert_eq!((from_two[1].layer2, from_two[1].target), (1, 3));
    assert!(close(value(&from_two[1].weight), 0.2));
}

#[test]
fn similarity_projection_with_full_similarity_matches_multilayer() {
    let g = pair_graph();
    let p = prepared(&g);
    let sim = vec![vec![SIMILARITY_UNIT]];
    let a = HyperEdgeSimilarity::create(&g, &p, &sim, RandomWalk::Lazy);
    let b = Multilayer::create(&g, &p, RandomWalk::Lazy);
    let va: Vec<f64> = a.iter().map(|l| value(&l.weight)).collect();
    let vb: Vec<f64> = b.iter().map(|l| value(&l.weight)).collect();
    assert_eq!(va.len(), vb.len());
    for (x, y) in va.iter().zip(vb.iter()) {
        assert!(close(*x, *y));
    }
}

#[test]
fn similarity_profiles_cover_both_hyperedges() {
    let g = graph(
        vec![1, 2, 3],
        vec![edge(0, vec![2, 1], UNIT), edge(1, vec![3, 2], UNIT)],
        vec![Gamma { edge: 1, node: 2, gamma: 3 * UNIT }],
    );
    let p = prepared(&g);
    let (x, y) = profiles(&g, &p, 0, 1);
    // Support in order of first occurrence: 2, 1, 3.
    assert_eq!(x, vec![UNIT, UNIT, 0]);
    assert_eq!(y, vec![3 * UNIT, 0, UNIT]);
    let (s, t) = profiles(&g, &p, 1, 1);
    assert_eq!(s, t);
    assert_eq!(s, vec![UNIT, 3 * UNIT]);
}

#[test]
fn explicit_weights_set_gamma_and_delta() {
    let g = graph(
        vec![1, 2, 3],
        vec![edge(0, vec![1, 2, 3], 2 * UNIT)],
        vec![Gamma { edge: 0, node: 2, gamma: 5 * UNIT }],
    );
    let p = prepared(&g);
    assert_eq!(p.gamma[0], vec![UNIT, 5 * UNIT, UNIT]);
    assert_eq!(p.delta[0], p.gamma[0].iter().sum::<u64>());
    assert_eq!(p.pi[1], 2 * UNIT * 5 * UNIT);
    assert_eq!(p.pi_alpha[0], vec![2 * UNIT * UNIT, 10 * UNIT * UNIT, 2 * UNIT * UNIT]);
}

#[test]
fn duplicated_record_overwrites_gamma_but_adds_to_delta() {
    let g = graph(
        vec![1, 2],
        vec![edge(0, vec![1, 2], UNIT)],
        vec![Gamma { edge: 0, node: 1, gamma: 2 * UNIT }, Gamma { edge: 0, node: 1, gamma: 3 * UNIT }],
    );
    let p = prepared(&g);
    assert_eq!(p.gamma[0], vec![3 * UNIT, UNIT]);
    assert_eq!(p.delta[0], 2 * UNIT + 3 * UNIT + UNIT);
}

#[test]
fn visit_rates_sum_to_walk_mass() {
    let g = graph(
        vec![1, 2, 3, 4],
        vec![edge(0, vec![1, 2, 3], 2 * UNIT), edge(1, vec![3, 4], 7 * UNIT)],
        vec![Gamma { edge: 1, node: 4, gamma: 3 * UNIT }],
    );
    let p = prepared(&g);
    let rates: u64 = p.pi.iter().sum();
    let mut mass: u64 = 0;
    for (a, e) in g.edges.iter().enumerate() {
        mass += e.omega * p.gamma[a].iter().sum::<u64>();
    }
    assert_eq!(rates, mass);
    assert_eq!(p.d, vec![2 * UNIT, 2 * UNIT, 9 * UNIT, 7 * UNIT]);
    assert_eq!(p.E[2], vec![0, 1]);
    assert_eq!(p.E[3], vec![1]);
}

#[test]
fn disconnected_node_gets_zero_entries() {
    let g = graph(vec![1, 2, 5], vec![edge(0, vec![1, 2], UNIT)], vec![]);
    let p = prepared(&g);
    assert_eq!(p.E[2], Vec::<usize>::new());
    assert_eq!(p.d[2], 0);
    assert_eq!(p.pi[2], 0);
}

#[test]
fn projections_are_repeatable() {
    let g = graph(
        vec![1, 2, 3],
        vec![edge(0, vec![1, 2, 3], UNIT), edge(1, vec![3, 1], 2 * UNIT)],
        vec![Gamma { edge: 0, node: 3, gamma: 4 * UNIT }],
    );
    let p = prepared(&g);
    let sim = vec![vec![SIMILARITY_UNIT, 100], vec![100, SIMILARITY_UNIT]];
    for rep in [
        Representation::Bipartite(RandomWalk::Lazy),
        Representation::Unipartite(RandomWalk::NonLazy),
        Representation::Multilayer(RandomWalk::Lazy),
        Representation::HyperEdgeSimilarity(RandomWalk::NonLazy),
    ] {
        let x = rep.create(&g, &p, &sim);
        let y = rep.create(&g, &p, &sim);
        assert_eq!(x, y);
    }
    match Representation::Unipartite(RandomWalk::Lazy).create(&g, &p, &sim) {
        Network::Unipartite(l) => assert_eq!(l, Unipartite::create(&g, &p, RandomWalk::Lazy)),
        _ => panic!("wrong network"),
    }
}

#[test]
fn check_reports_each_problem() {
    assert_eq!(pair_graph().check(), Ok(()));
    let g = graph(vec![1, 1], vec![], vec![]);
    assert_eq!(g.check(), Err(ModelError::DuplicateNode(1)));
    let g = graph(vec![MAX_ID + 1], vec![], vec![]);
    assert_eq!(g.check(), Err(ModelError::NodeIdTooLarge(MAX_ID + 1)));
    let g = graph(vec![1], vec![edge(3, vec![1], UNIT), edge(3, vec![1], UNIT)], vec![]);
    assert_eq!(g.check(), Err(ModelError::DuplicateEdge(3)));
    let g = graph(vec![1], vec![edge(0, vec![1, 8], UNIT)], vec![]);
    assert_eq!(g.check(), Err(ModelError::UnknownNode(8)));
    let g = graph(vec![1], vec![edge(0, vec![1], UNIT)], vec![Gamma { edge: 0, node: 6, gamma: UNIT }]);
    assert_eq!(g.check(), Err(ModelError::UnknownNode(6)));
    let g = graph(vec![1], vec![edge(0, vec![1], UNIT)], vec![Gamma { edge: 4, node: 1, gamma: UNIT }]);
    assert_eq!(g.check(), Err(ModelError::UnknownEdge(4)));
    let g = graph(vec![1], vec![edge(0, vec![1], 0)], vec![]);
    assert_eq!(g.check(), Err(ModelError::BadWeight));
    let g = graph(vec![1], vec![edge(0, vec![1], UNIT)], vec![Gamma { edge: 0, node: 1, gamma: MAX_WEIGHT + 1 }]);
    assert_eq!(g.check(), Err(ModelError::BadWeight));
    let g = graph((0..40000).collect(), vec![], vec![]);
    assert_eq!(g.check(), Err(ModelError::TooLarge));
}

#[test]
fn flags_name_projections() {
    assert_eq!(Representation::from_flag("-b"), Ok(Representation::Bipartite(RandomWalk::Lazy)));
    assert_eq!(Representation::from_flag("-U"), Ok(Representation::Unipartite(RandomWalk::NonLazy)));
    assert_eq!(Representation::from_flag("-m"), Ok(Representation::Multilayer(RandomWalk::Lazy)));
    assert_eq!(
        Representation::from_flag("-S"),
        Ok(Representation::HyperEdgeSimilarity(RandomWalk::NonLazy))
    );
    assert_eq!(Representation::from_flag("u"), Err(FlagError::InvalidArgument));
    assert_eq!(Representation::from_flag(""), Err(FlagError::InvalidArgument));
    assert_eq!(Representation::from_flag("-x"), Err(FlagError::NoSuchRepresentation));
    assert_eq!(Representation::from_flag("-uu"), Err(FlagError::NoSuchRepresentation));
    assert_eq!(FlagError::InvalidArgument.message(), "Invalid argument");
}

#[test]
fn walk_names() {
    assert_eq!(RandomWalk::Lazy.to_string(), "lazy");
    assert_eq!(RandomWalk::NonLazy.to_string(), "non-lazy");
}
