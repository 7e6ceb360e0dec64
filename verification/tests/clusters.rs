use layoffs::relation::RelationGraph;

fn neighbors<'a>(graph: &'a RelationGraph, name: &str) -> Option<&'a Vec<String>> {
    graph.adjacency.iter().find(|e| e.0 == name).map(|e| &e.1)
}

fn cluster_of<'a>(clusters: &'a [Vec<String>], name: &str) -> Option<&'a Vec<String>> {
    clusters.iter().find(|c| c.iter().any(|m| m == name))
}

#[test]
fn edges_are_symmetric() {
    let mut graph = RelationGraph::new();
    graph.add_edge("A".to_string(), "B".to_string());
    graph.add_edge("A".to_string(), "C".to_string());

    assert!(neighbors(&graph, "A").unwrap().contains(&"B".to_string()));
    assert!(neighbors(&graph, "B").unwrap().contains(&"A".to_string()));
    assert!(neighbors(&graph, "A").unwrap().contains(&"C".to_string()));
    assert!(neighbors(&graph, "C").unwrap().contains(&"A".to_string()));
    assert!(!neighbors(&graph, "B").unwrap().contains(&"C".to_string()));
}

#[test]
fn two_chains_make_two_clusters() {
    let mut graph = RelationGraph::new();
    graph.add_edge("A".to_string(), "B".to_string());
    graph.add_edge("B".to_string(), "C".to_string());
    graph.add_edge("D".to_string(), "E".to_string());

    let clusters = graph.get_clusters();
    assert_eq!(clusters.len(), 2);

    let abc = cluster_of(&clusters, "A").unwrap();
    let de = cluster_of(&clusters, "D").unwrap();
    assert_eq!(abc.len(), 3);
    assert_eq!(de.len(), 2);
    for name in ["A", "B", "C"] {
        assert!(abc.iter().any(|m| m == name));
    }
    for name in ["D", "E"] {
        assert!(de.iter().any(|m| m == name));
    }
}

#[test]
fn a_self_edge_makes_a_vertex_its_own_neighbor() {
    let mut graph = RelationGraph::new();
    graph.add_edge("A".to_string(), "A".to_string());

    assert!(neighbors(&graph, "A").unwrap().contains(&"A".to_string()));
    let clusters = graph.get_clusters();
    assert_eq!(clusters.len(), 1);
    assert_eq!(clusters[0], vec!["A".to_string()]);
}

#[test]
fn an_empty_graph_has_no_clusters() {
    let graph = RelationGraph::new();
    assert!(graph.get_clusters().is_empty());
}

#[test]
fn clusters_partition_all_mentioned_entities() {
    let mut graph = RelationGraph::new();
    graph.add_edge("A".to_string(), "B".to_string());
    graph.add_edge("C".to_string(), "D".to_string());
    graph.add_edge("B".to_string(), "D".to_string());
    graph.add_edge("E".to_string(), "E".to_string());

    let clusters = graph.get_clusters();
    // every mentioned entity appears exactly once across all clusters
    let mut seen: Vec<String> = clusters.iter().flatten().cloned().collect();
    seen.sort();
    assert_eq!(seen, vec!["A", "B", "C", "D", "E"]);
    assert_eq!(clusters.len(), 2);
    assert_eq!(cluster_of(&clusters, "A").unwrap().len(), 4);
    assert_eq!(cluster_of(&clusters, "E").unwrap().len(), 1);
}
