use citation_centrality::centrality::{Centrality, CentralityRank};
use citation_centrality::degree_centrality::{calculate_degree_centrality, DegreeCentrality};
use citation_centrality::network::CitationNetwork;
use citation_centrality::pagerank::{keep_iterating, MAX_ITERATIONS};

fn sample() -> CitationNetwork {
    let mut graph = CitationNetwork::new();
    graph.add_edge(0, 1);
    graph.add_edge(0, 2);
    graph.add_edge(0, 3);
    graph.add_edge(1, 2);
    graph.add_edge(1, 3);
    graph.add_edge(2, 3);
    graph
}

fn entries(r: &CentralityRank<DegreeCentrality>) -> Vec<(usize, usize)> {
    let mut out = Vec::new();
    for i in 0..r.len() {
        out.push((r.get(i).vertex(), r.get(i).score()));
    }
    out
}

#[test]
fn test_calculate_degree_centrality() {
    let graph = sample();
    let ranks = calculate_degree_centrality(&graph);
    assert_eq!(ranks.get(0).vertex(), 3);
    assert_eq!(ranks.get(0).score(), 3);
    assert_eq!(ranks.get(1).vertex(), 2);
    assert_eq!(ranks.get(1).score(), 2);
    assert_eq!(ranks.get(2).vertex(), 1);
    assert_eq!(ranks.get(2).score(), 1);
    assert_eq!(ranks.get(3).vertex(), 0);
    assert_eq!(ranks.get(3).score(), 0);
}

#[test]
fn degree_ranking_of_empty_network_is_empty() {
    let graph = CitationNetwork::new();
    let ranks = calculate_degree_centrality(&graph);
    assert_eq!(ranks.len(), 0);
    assert_eq!(ranks.render(), "");
}

#[test]
fn degree_ties_keep_node_order() {
    let mut graph = CitationNetwork::new();
    graph.add_edge(1, 2);
    graph.add_edge(3, 4);
    graph.add_edge(5, 4);
    graph.add_edge(6, 2);
    graph.add_edge(7, 8);
    assert_eq!(
        entries(&calculate_degree_centrality(&graph)),
        vec![(2, 2), (4, 2), (8, 1), (1, 0), (3, 0), (5, 0), (6, 0), (7, 0)]
    );
}

#[test]
fn degree_counts_parallel_citations() {
    let mut graph = CitationNetwork::new();
    graph.add_edge(1, 9);
    graph.add_edge(1, 9);
    graph.add_edge(2, 8);
    assert_eq!(
        entries(&calculate_degree_centrality(&graph)),
        vec![(9, 2), (8, 1), (1, 0), (2, 0)]
    );
}

#[test]
fn degree_ranking_is_repeatable() {
    let mut graph = CitationNetwork::new();
    graph.add_edge(1, 2);
    graph.add_edge(3, 2);
    graph.add_edge(3, 1);
    graph.add_edge(4, 5);
    let first = calculate_degree_centrality(&graph);
    let second = calculate_degree_centrality(&graph);
    assert_eq!(entries(&first), entries(&second));
    assert_eq!(first.render(), second.render());
}

#[test]
fn top_keeps_leading_entries_in_order() {
    let ranks = calculate_degree_centrality(&sample());
    let top2 = ranks.top(2);
    assert_eq!(entries(&top2), vec![(3, 3), (2, 2)]);
    assert_eq!(ranks.len(), 4);
    assert_eq!(entries(&ranks.top(10)), entries(&ranks));
    assert_eq!(ranks.top(0).len(), 0);
}

#[test]
fn top_is_idempotent() {
    let ranks = calculate_degree_centrality(&sample());
    for n in 0..6 {
        assert_eq!(entries(&ranks.top(n).top(n)), entries(&ranks.top(n)));
    }
}

#[test]
fn ranking_from_given_entries() {
    let ranks = CentralityRank::new(vec![DegreeCentrality::new(7, 5), DegreeCentrality::new(2, 1)]);
    assert_eq!(ranks.len(), 2);
    assert_eq!(ranks.get(1).vertex(), 2);
    assert_eq!(ranks.get(1).score(), 1);
}

#[test]
fn degree_entry_line() {
    assert_eq!(DegreeCentrality::new(3, 3).describe(), "vertex 3: in-degree 3");
    assert_eq!(DegreeCentrality::new(0, 0).describe(), "vertex 0: in-degree 0");
    assert_eq!(
        DegreeCentrality::new(9216704, 2414).describe(),
        "vertex 9216704: in-degree 2414"
    );
    assert_eq!(
        DegreeCentrality::new(usize::MAX, 10).describe(),
        format!("vertex {}: in-degree 10", usize::MAX)
    );
}

#[test]
fn ranking_renders_one_line_per_entry() {
    let ranks = calculate_degree_centrality(&sample());
    assert_eq!(
        ranks.top(2).render(),
        "vertex 3: in-degree 3\nvertex 2: in-degree 2\n"
    );
    assert_eq!(
        ranks.render(),
        "vertex 3: in-degree 3\nvertex 2: in-degree 2\nvertex 1: in-degree 1\nvertex 0: in-degree 0\n"
    );
}

#[test]
fn entries_compare_by_score_alone() {
    let a = DegreeCentrality::new(1, 4);
    let b = DegreeCentrality::new(2, 4);
    let c = DegreeCentrality::new(1, 7);
    assert!(a == b);
    assert!(a != c);
    assert_eq!(a.partial_cmp(&c), Some(std::cmp::Ordering::Less));
    assert_eq!(c.partial_cmp(&b), Some(std::cmp::Ordering::Greater));
    assert_eq!(a.partial_cmp(&b), Some(std::cmp::Ordering::Equal));
    assert!(c > a);
}

#[test]
fn pagerank_stops_on_convergence_or_cap() {
    assert_eq!(MAX_ITERATIONS, 100);
    assert!(keep_iterating(false, 0));
    assert!(keep_iterating(false, 99));
    assert!(!keep_iterating(false, 100));
    assert!(!keep_iterating(true, 0));
    assert!(!keep_iterating(true, 50));
}
