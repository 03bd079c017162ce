use cgp_crossover::dag::node_dag::NodeDAG;
use cgp_crossover::utils::cycle_checker::CGPEdges;
use cgp_crossover::utils::function_set::FunctionSet;
use cgp_crossover::utils::node_type::NodeType;

fn computational(position: usize, connection0: usize, connection1: usize, edges: &mut CGPEdges) -> NodeDAG {
    NodeDAG::with_genes(
        position,
        2,
        2,
        NodeType::ComputationalNode,
        FunctionSet::Boolean,
        0,
        connection0,
        connection1,
        edges,
    )
}

#[test]
fn mutate_connection_takes_the_one_legal_target() {
    // inputs 0 and 1, node 2 reads input 0 twice, node 3 reads node 2.
    // Node 2 may turn to 1 or 3, and 3 would close a cycle.
    let mut edges = CGPEdges::new(4);
    let mut node2 = computational(2, 0, 0, &mut edges);
    let _node3 = computational(3, 2, 2, &mut edges);
    for _ in 0..20 {
        let mut connection = 0;
        let mut trial = CGPEdges::new(4);
        computational(2, 0, 0, &mut trial);
        computational(3, 2, 2, &mut trial);
        NodeDAG::mutate_connection(&mut connection, 2, 4, &mut trial);
        assert_eq!(connection, 1);
        assert!(!trial.leads_to_cycle(3, 1));
        assert!(trial.leads_to_cycle(1, 2));
    }
    NodeDAG::mutate_connection(&mut node2.connection0, 2, 4, &mut edges);
    assert_eq!(node2.connection0, 1);
    assert_eq!(node2.connection1, 0);
}

#[test]
fn mutate_connection_without_legal_target_changes_nothing() {
    // one input, node 1 reads it, node 2 reads node 1: node 1 could only
    // turn to node 2, which reads it.
    let mut edges = CGPEdges::new(3);
    edges.add_edge(1, 0);
    edges.add_edge(1, 0);
    edges.add_edge(2, 1);
    edges.add_edge(2, 1);
    let mut connection = 0;
    NodeDAG::mutate_connection(&mut connection, 1, 3, &mut edges);
    assert_eq!(connection, 0);
    assert!(edges.leads_to_cycle(0, 1));
    assert!(edges.leads_to_cycle(1, 2));
    assert!(!edges.leads_to_cycle(2, 1));
}

#[test]
fn legal_connections_are_listed_in_order() {
    let mut edges = CGPEdges::new(6);
    edges.add_edge(3, 2);
    edges.add_edge(4, 3);
    assert_eq!(NodeDAG::legal_connections(0, 2, 6, &edges), vec![1, 5]);
    assert_eq!(NodeDAG::legal_connections(1, 2, 6, &edges), vec![0, 5]);
    assert_eq!(NodeDAG::legal_connections(2, 3, 6, &edges), vec![0, 1, 5]);
    assert_eq!(NodeDAG::legal_connections(3, 4, 5, &edges), vec![0, 1, 2]);
    assert_eq!(NodeDAG::legal_connections(2, 3, 0, &edges), Vec::<usize>::new());
}

#[test]
fn redirect_moves_the_edge() {
    let mut edges = CGPEdges::new(4);
    edges.add_edge(3, 1);
    edges.add_edge(3, 1);
    let mut connection = 1;
    NodeDAG::redirect(&mut connection, 3, 2, &mut edges);
    assert_eq!(connection, 2);
    assert!(edges.leads_to_cycle(2, 3));
    assert!(edges.leads_to_cycle(1, 3));
    NodeDAG::redirect(&mut connection, 3, 0, &mut edges);
    assert!(!edges.leads_to_cycle(2, 3));
    let mut other = 1;
    NodeDAG::redirect(&mut other, 3, 0, &mut edges);
    assert!(!edges.leads_to_cycle(1, 3));
    assert!(edges.leads_to_cycle(0, 3));
}

#[test]
fn mutate_function_draws_another_id() {
    let mut edges = CGPEdges::new(4);
    for id in 0..4 {
        for _ in 0..50 {
            let mut node = computational(2, 0, 1, &mut edges);
            node.function_id = id;
            node.mutate_function();
            assert!(node.function_id < 4);
            assert!(node.function_id != id);
        }
    }
    let mut node = computational(2, 0, 1, &mut edges);
    node.function_set = FunctionSet::Regression;
    node.function_id = 7;
    let mut seen = [false; 8];
    for _ in 0..400 {
        node.function_id = 7;
        node.mutate_function();
        seen[node.function_id] = true;
    }
    assert_eq!(seen, [true, true, true, true, true, true, true, false]);
}

#[test]
fn mutate_output_redraws_the_connection() {
    let mut edges = CGPEdges::new(4);
    let mut node = NodeDAG::with_genes(
        4,
        2,
        2,
        NodeType::OutputNode,
        FunctionSet::Boolean,
        0,
        3,
        usize::MAX,
        &mut edges,
    );
    for _ in 0..100 {
        let before = node;
        node.mutate(&mut edges);
        assert!(node.connection0 < 4);
        assert!(node.connection0 != before.connection0);
        assert_eq!(node.connection1, usize::MAX);
        assert_eq!(node.function_id, before.function_id);
        assert_eq!(node.position, 4);
    }
    assert!(!edges.leads_to_cycle(0, 3));
}

#[test]
fn mutate_computational_changes_exactly_one_gene() {
    for _ in 0..200 {
        let mut edges = CGPEdges::new(4);
        let mut node = computational(2, 0, 1, &mut edges);
        computational(3, 0, 1, &mut edges);
        let before = node;
        node.mutate(&mut edges);
        let changed = [
            node.connection0 != before.connection0,
            node.connection1 != before.connection1,
            node.function_id != before.function_id,
        ];
        assert_eq!(changed.iter().filter(|c| **c).count(), 1);
        assert!(node.connection0 < 4 && node.connection0 != 2);
        assert!(node.connection1 < 4 && node.connection1 != 2);
        assert!(edges.leads_to_cycle(node.connection0, 2));
        assert!(edges.leads_to_cycle(node.connection1, 2));
    }
}

#[test]
fn new_node_by_role() {
    let mut edges = CGPEdges::new(7);
    for _ in 0..50 {
        let input = NodeDAG::new(1, 2, 5, NodeType::InputNode, FunctionSet::Boolean, &mut edges);
        assert_eq!(input.connection0, usize::MAX);
        assert_eq!(input.connection1, usize::MAX);
        assert!(input.function_id < 4);
        let inner = NodeDAG::new(5, 2, 5, NodeType::ComputationalNode, FunctionSet::Regression, &mut edges);
        assert!(inner.connection0 < 5);
        assert!(inner.connection1 < 5);
        assert!(inner.function_id < 8);
        assert!(edges.leads_to_cycle(inner.connection0, 5));
        let output = NodeDAG::new(7, 2, 5, NodeType::OutputNode, FunctionSet::Boolean, &mut edges);
        assert!(output.connection0 < 7);
        assert_eq!(output.connection1, usize::MAX);
        assert_eq!(output.position, 7);
        assert_eq!(output.nbr_inputs, 2);
        assert_eq!(output.graph_width, 5);
    }
}

#[test]
fn execute_applies_the_boolean_operation() {
    let mut edges = CGPEdges::new(4);
    let mut node = computational(2, 0, 1, &mut edges);
    let a = vec![true, true, false, false];
    let b = vec![true, false, true, false];
    assert_eq!(node.execute(&a, &b), vec![true, false, false, false]);
    node.function_id = 1;
    assert_eq!(node.execute(&a, &b), vec![true, true, true, false]);
    node.function_id = 2;
    assert_eq!(node.execute(&a, &b), vec![false, true, true, true]);
    node.function_id = 3;
    assert_eq!(node.execute(&a, &b), vec![false, false, false, true]);
}
