use cgp_crossover::utils::cycle_checker::CGPEdges;

#[test]
fn tracker_detects_closing_edge() {
    let mut edges = CGPEdges::new(4);
    edges.add_edge(2, 1);
    edges.add_edge(3, 2);
    assert!(edges.leads_to_cycle(1, 3));
    assert!(edges.leads_to_cycle(1, 2));
    assert!(edges.leads_to_cycle(2, 2));
    assert!(!edges.leads_to_cycle(3, 1));
    assert!(!edges.leads_to_cycle(3, 0));
    assert_eq!(edges.len(), 4);
}

#[test]
fn tracker_counts_parallel_edges() {
    let mut edges = CGPEdges::new(3);
    edges.add_edge(2, 1);
    edges.add_edge(2, 1);
    edges.remove_edge(2, 1);
    assert!(edges.leads_to_cycle(1, 2));
    edges.remove_edge(2, 1);
    assert!(!edges.leads_to_cycle(1, 2));
    edges.remove_edge(2, 1);
    assert!(!edges.leads_to_cycle(1, 2));
}

#[test]
fn tracker_query_changes_nothing() {
    let mut edges = CGPEdges::new(5);
    edges.add_edge(1, 0);
    edges.add_edge(2, 1);
    edges.add_edge(3, 2);
    edges.add_edge(4, 3);
    for _ in 0..3 {
        assert!(edges.leads_to_cycle(0, 4));
        assert!(!edges.leads_to_cycle(4, 0));
        assert!(edges.leads_to_cycle(3, 3));
    }
}

#[test]
fn tracker_follows_branches() {
    // 4 reads 2 and 3, 2 reads 0, 3 reads 1.
    let mut edges = CGPEdges::new(6);
    edges.add_edge(4, 2);
    edges.add_edge(4, 3);
    edges.add_edge(2, 0);
    edges.add_edge(3, 1);
    assert!(edges.leads_to_cycle(0, 4));
    assert!(edges.leads_to_cycle(1, 4));
    assert!(!edges.leads_to_cycle(0, 3));
    assert!(!edges.leads_to_cycle(1, 2));
    assert!(!edges.leads_to_cycle(5, 4));
    assert!(!edges.leads_to_cycle(4, 5));
}
