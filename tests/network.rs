use citation_centrality::network::CitationNetwork;

fn sample() -> CitationNetwork {
    let mut graph = CitationNetwork::new();
    graph.add_edge(0, 1);
    graph.add_edge(0, 2);
    graph.add_edge(0, 3);
    graph.add_edge(1, 2);
    graph.add_edge(1, 3);
    graph.add_edge(2, 3);
    graph
}

#[test]
fn test_add_edge() {
    let graph = sample();
    assert_eq!(graph.size(), 4);
    assert!(graph.contains(0));
    assert_eq!(*graph.edges(0), Vec::<usize>::new());
    assert!(graph.contains(1));
    assert_eq!(*graph.edges(1), vec![0]);
    assert!(graph.contains(2));
    assert_eq!(*graph.edges(2), vec![0, 1]);
    assert!(graph.contains(3));
    assert_eq!(*graph.edges(3), vec![0, 1, 2]);
    assert_eq!(graph.num_edges(), 6);
}

#[test]
fn empty_network_has_nothing() {
    let graph = CitationNetwork::new();
    assert_eq!(graph.size(), 0);
    assert_eq!(graph.num_edges(), 0);
    assert!(graph.nodes().is_empty());
    assert!(graph.iter().is_empty());
    assert!(graph.sink_nodes().is_empty());
    assert!(!graph.contains(0));
}

#[test]
fn size_counts_distinct_endpoints() {
    let mut graph = CitationNetwork::new();
    graph.add_edge(10, 20);
    graph.add_edge(20, 10);
    graph.add_edge(10, 20);
    graph.add_edge(7, 7);
    graph.add_edge(30, 20);
    assert_eq!(graph.size(), 4);
    assert!(graph.contains(7));
    assert!(graph.contains(30));
    assert!(!graph.contains(0));
}

#[test]
fn parallel_edges_are_counted_separately() {
    let mut graph = CitationNetwork::new();
    graph.add_edge(5, 6);
    graph.add_edge(5, 6);
    graph.add_edge(5, 6);
    assert_eq!(graph.num_edges(), 3);
    assert_eq!(graph.size(), 2);
    assert_eq!(*graph.edges(6), vec![5, 5, 5]);
    assert_eq!(graph.out_degree(5), 3);
    assert_eq!(graph.out_degree(6), 0);
}

#[test]
fn self_citation_is_one_node_and_one_edge() {
    let mut graph = CitationNetwork::new();
    graph.add_edge(4, 4);
    assert_eq!(graph.size(), 1);
    assert_eq!(graph.num_edges(), 1);
    assert_eq!(*graph.edges(4), vec![4]);
    assert_eq!(graph.out_degree(4), 1);
    assert!(graph.sink_nodes().is_empty());
}

#[test]
fn nodes_come_in_order_of_first_appearance() {
    let graph = sample();
    assert_eq!(graph.nodes(), vec![1, 0, 2, 3]);
    let pairs = graph.iter();
    assert_eq!(pairs.len(), 4);
    assert_eq!(pairs[0].0, 1);
    assert_eq!(*pairs[0].1, vec![0]);
    assert_eq!(pairs[1].0, 0);
    assert!(pairs[1].1.is_empty());
    assert_eq!(pairs[3].0, 3);
    assert_eq!(*pairs[3].1, vec![0, 1, 2]);
}

#[test]
fn out_degrees_count_citations_made() {
    let graph = sample();
    assert_eq!(graph.out_degree(0), 3);
    assert_eq!(graph.out_degree(1), 2);
    assert_eq!(graph.out_degree(2), 1);
    assert_eq!(graph.out_degree(3), 0);
}

#[test]
fn sinks_are_the_nodes_citing_nothing() {
    let mut graph = CitationNetwork::new();
    graph.add_edge(0, 1);
    graph.add_edge(0, 2);
    graph.add_edge(1, 2);
    graph.add_edge(3, 4);
    assert_eq!(graph.sink_nodes(), vec![2, 4]);
}

#[test]
fn summary_line_gives_nodes_and_edges() {
    assert_eq!(sample().describe(), "Nodes: 4 Edges: 6");
    assert_eq!(CitationNetwork::new().describe(), "Nodes: 0 Edges: 0");
}
