use create_representations::hypergraph::{Gamma, HyperGraph, UNIT};
use create_representations::input::{ParseError, MAX_DIGITS};
use create_representations::preprocess::Preprocess;
use create_representations::config::RandomWalk;
use create_representations::unipartite::Unipartite;

#[test]
fn reads_the_pair_example() {
    let text = "*Vertices\n1 a\n2 b\n*Hyperedges\n0 1 2 1.0\n";
    let g = HyperGraph::new(text).unwrap();
    assert_eq!(g.nodes.len(), 2);
    assert_eq!((g.nodes[0].id, g.nodes[0].name.as_str()), (1, "a"));
    assert_eq!((g.nodes[1].id, g.nodes[1].name.as_str()), (2, "b"));
    assert_eq!(g.edges.len(), 1);
    assert_eq!((g.edges[0].id, g.edges[0].nodes.clone(), g.edges[0].omega), (0, vec![1, 2], UNIT));
    assert!(g.weights.is_empty());
    assert_eq!(g.check(), Ok(()));
    let p = Preprocess::run(&g);
    let links = Unipartite::create(&g, &p, RandomWalk::NonLazy);
    assert_eq!(links.len(), 2);
}

#[test]
fn reads_weights_comments_and_any_case() {
    let text = "# a comment\r\n*VERTICES 3\r\n1 first node\r\n2 zweiter Knoten\r\n#skip\r\n*HyperEdges\r\n7 1 2 0.25\r\n*weights\r\n7 2 1.23456 extra\r\n";
    let g = HyperGraph::new(text).unwrap();
    assert_eq!(g.nodes[0].name, "first node");
    assert_eq!(g.nodes[1].name, "zweiter Knoten");
    assert_eq!(g.edges[0].omega, 2500);
    assert_eq!(g.weights, vec![Gamma { edge: 7, node: 2, gamma: 12345 }]);
}

#[test]
fn reads_decimal_forms() {
    let text = "*hyperedges\n0 1 2\n1 1 .5\n2 1 3.\n3 1\t 0.0001\n";
    let g = HyperGraph::new(text).unwrap();
    let omegas: Vec<u64> = g.edges.iter().map(|e| e.omega).collect();
    assert_eq!(omegas, vec![2 * UNIT, 5000, 3 * UNIT, 1]);
    assert_eq!(g.edges[3].nodes, vec![1]);
}

#[test]
fn keeps_non_ascii_names() {
    let g = HyperGraph::new("*vertices\n4 Zoë Ångström\n").unwrap();
    assert_eq!(g.nodes[0].name, "Zoë Ångström");
}

#[test]
fn lines_outside_sections_are_ignored() {
    let g = HyperGraph::new("free text\n*unknown\nmore text\n").unwrap();
    assert!(g.nodes.is_empty() && g.edges.is_empty() && g.weights.is_empty());
}

#[test]
fn reports_bad_lines() {
    assert_eq!(HyperGraph::new("*vertices\n12\n"), Err(ParseError::BadVertex));
    assert_eq!(HyperGraph::new("*vertices\nx name\n"), Err(ParseError::BadVertex));
    assert_eq!(HyperGraph::new("*vertices\n\n"), Err(ParseError::BadVertex));
    assert_eq!(HyperGraph::new("*hyperedges\n0 1 2 abc\n"), Err(ParseError::BadHyperEdge));
    assert_eq!(HyperGraph::new("*hyperedges\n0 1 x 1.0\n"), Err(ParseError::BadHyperEdge));
    assert_eq!(HyperGraph::new("*hyperedges\n5\n"), Err(ParseError::BadHyperEdge));
    assert_eq!(HyperGraph::new("*hyperedges\n0 1 1e-3\n"), Err(ParseError::BadHyperEdge));
    assert_eq!(HyperGraph::new("*weights\n0 1\n"), Err(ParseError::BadWeight));
    let long = format!("*vertices\n{} n\n", "1".repeat(MAX_DIGITS + 1));
    assert_eq!(HyperGraph::new(&long), Err(ParseError::BadVertex));
}
