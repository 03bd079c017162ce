use cgp_crossover::global_params::{CgpParameters, ParameterError};
use cgp_crossover::standard_cgp::chromosome::Chromosome;
use cgp_crossover::standard_cgp::node::Node;
use cgp_crossover::utils::function_set::FunctionSet;
use cgp_crossover::utils::node_type::NodeType;

fn settings(inputs: usize, computational: usize, outputs: usize, set: FunctionSet) -> CgpParameters {
    let mut params = CgpParameters::default();
    params.nbr_inputs = inputs;
    params.nbr_computational_nodes = computational;
    params.nbr_outputs = outputs;
    params.function_set = set;
    params
}

fn gene(
    params: &CgpParameters,
    position: usize,
    function_id: usize,
    connection0: usize,
    connection1: usize,
) -> Node {
    let node_type = if position < params.nbr_inputs {
        NodeType::InputNode
    } else if position < params.nbr_inputs + params.nbr_computational_nodes {
        NodeType::ComputationalNode
    } else {
        NodeType::OutputNode
    };
    Node {
        position,
        node_type,
        nbr_inputs: params.nbr_inputs,
        graph_width: params.nbr_computational_nodes,
        function_set: params.function_set,
        function_id,
        connection0,
        connection1,
    }
}

fn genotype(params: CgpParameters, nodes_grid: Vec<Node>) -> Chromosome {
    let inner = params.nbr_inputs + params.nbr_computational_nodes;
    Chromosome {
        params,
        nodes_grid,
        output_node_ids: (inner..inner + params.nbr_outputs).collect(),
        active_nodes: None,
    }
}

fn or_of_ands() -> Chromosome {
    // out = (in0 AND in1) OR in2; node 5 is read by nobody.
    let p = settings(3, 3, 1, FunctionSet::Boolean);
    let none = usize::MAX;
    let grid = vec![
        gene(&p, 0, 0, none, none),
        gene(&p, 1, 0, none, none),
        gene(&p, 2, 0, none, none),
        gene(&p, 3, 0, 0, 1),
        gene(&p, 4, 1, 3, 2),
        gene(&p, 5, 2, 4, 4),
        gene(&p, 6, 0, 4, none),
    ];
    genotype(p, grid)
}

fn three_bit_rows() -> Vec<Vec<bool>> {
    let mut rows = Vec::new();
    for a in [false, true] {
        for b in [false, true] {
            for c in [false, true] {
                rows.push(vec![a, b, c]);
            }
        }
    }
    rows
}

#[test]
fn standard_active_nodes_are_sorted() {
    let mut c = or_of_ands();
    c.get_active_nodes_id();
    assert_eq!(c.active_positions(), vec![0, 1, 2, 3, 4, 6]);
    assert_eq!(c.active_nodes, Some(vec![0, 1, 2, 3, 4, 6]));
}

#[test]
fn standard_evaluate_counts_errors() {
    let mut c = or_of_ands();
    let rows = three_bit_rows();
    let perfect: Vec<Vec<bool>> = rows.iter().map(|r| vec![(r[0] && r[1]) || r[2]]).collect();
    assert_eq!(c.evaluate(&rows, &perfect), 0);
    let all_false: Vec<Vec<bool>> = rows.iter().map(|_| vec![false]).collect();
    assert_eq!(c.evaluate(&rows, &all_false), 5);
    assert_eq!(c.evaluate(&rows, &all_false), 5);
    assert_eq!(c.predict(&rows), perfect);
}

#[test]
fn standard_regression_ignores_unused_operand() {
    // node 2 is a cosine of input 0; its second connection names node 1.
    let p = settings(1, 2, 1, FunctionSet::Regression);
    let none = usize::MAX;
    let grid = vec![
        gene(&p, 0, 0, none, none),
        gene(&p, 1, 0, 0, 0),
        gene(&p, 2, 5, 0, 1),
        gene(&p, 3, 0, 2, none),
    ];
    let mut c = genotype(p, grid);
    c.get_active_nodes_id();
    assert_eq!(c.active_positions(), vec![0, 2, 3]);
    c.nodes_grid[2].function_id = 3;
    c.get_active_nodes_id();
    assert_eq!(c.active_positions(), vec![0, 1, 2, 3]);
}

#[test]
fn standard_new_is_causal() {
    for _ in 0..20 {
        let c = Chromosome::new(settings(2, 30, 3, FunctionSet::Boolean)).unwrap();
        assert_eq!(c.nodes_grid.len(), 35);
        assert_eq!(c.output_node_ids, vec![32, 33, 34]);
        assert!(c.active_nodes.is_none());
        for (position, node) in c.nodes_grid.iter().enumerate() {
            assert_eq!(node.position, position);
            match node.node_type {
                NodeType::InputNode => assert!(position < 2),
                NodeType::ComputationalNode => {
                    assert!(node.connection0 < position);
                    assert!(node.connection1 < position);
                    assert!(node.function_id < 4);
                }
                NodeType::OutputNode => {
                    assert!(position >= 32);
                    assert!(node.connection0 < 32);
                }
            }
        }
    }
}

#[test]
fn standard_new_rejects_bad_settings() {
    assert_eq!(
        Chromosome::new(settings(0, 5, 1, FunctionSet::Boolean)).err(),
        Some(ParameterError::NoInputs)
    );
    assert_eq!(
        Chromosome::new(settings(1, 0, 1, FunctionSet::Boolean)).err(),
        Some(ParameterError::NoComputationalNodes)
    );
    assert_eq!(
        Chromosome::new(settings(1, 5, 0, FunctionSet::Boolean)).err(),
        Some(ParameterError::NoOutputs)
    );
    assert_eq!(
        Chromosome::new(settings(usize::MAX, 5, 1, FunctionSet::Boolean)).err(),
        Some(ParameterError::TooManyNodes)
    );
}

#[test]
fn standard_mutation_keeps_connections_backwards() {
    let mut c = Chromosome::new(settings(2, 20, 2, FunctionSet::Regression)).unwrap();
    let inputs = c.nodes_grid[..2].to_vec();
    for _ in 0..300 {
        c.get_active_nodes_id();
        c.mutate_single();
        for node in &c.nodes_grid {
            match node.node_type {
                NodeType::InputNode => {}
                NodeType::ComputationalNode => {
                    assert!(node.connection0 < node.position);
                    assert!(node.connection1 < node.position);
                    assert!(node.function_id < 8);
                }
                NodeType::OutputNode => assert!(node.connection0 < 22),
            }
        }
    }
    assert_eq!(&c.nodes_grid[..2], &inputs[..]);
}

#[test]
fn standard_mutate_node_is_local() {
    for round in 0..100 {
        let mut c = Chromosome::new(settings(2, 10, 1, FunctionSet::Boolean)).unwrap();
        c.get_active_nodes_id();
        let before = c.nodes_grid.clone();
        let position = 3 + round % 10;
        c.mutate_node(position);
        let mut differing = 0;
        for q in 0..13 {
            if c.nodes_grid[q] != before[q] {
                differing += 1;
                assert_eq!(q, position);
            }
        }
        assert_eq!(differing, 1);
        assert!(c.active_nodes.is_none());
    }
}

#[test]
fn standard_first_node_behind_one_input_cannot_turn() {
    let mut c = Chromosome::new(settings(1, 3, 1, FunctionSet::Boolean)).unwrap();
    for _ in 0..50 {
        c.mutate_node(1);
        assert_eq!(c.nodes_grid[1].connection0, 0);
        assert_eq!(c.nodes_grid[1].connection1, 0);
    }
}

#[test]
fn standard_clone_is_a_copy() {
    let mut c = or_of_ands();
    c.get_active_nodes_id();
    let mut copy = c.clone();
    assert_eq!(copy.nodes_grid, c.nodes_grid);
    assert_eq!(copy.active_nodes, c.active_nodes);
    assert_eq!(copy.output_node_ids, c.output_node_ids);
    copy.mutate_node(4);
    assert_eq!(c.nodes_grid[4], gene(&c.params, 4, 1, 3, 2));
    c.reorder();
    assert_eq!(c.active_positions(), vec![0, 1, 2, 3, 4, 6]);
}

#[test]
fn node_set_new_position() {
    let p = settings(2, 8, 1, FunctionSet::Boolean);
    let mut node = gene(&p, 7, 1, 6, 3);
    node.set_new_position(9, false);
    assert_eq!(node, gene(&p, 9, 1, 6, 3));
    node.set_new_position(9, true);
    assert_eq!(node, gene(&p, 9, 1, 6, 3));
    for _ in 0..50 {
        let mut moved = gene(&p, 7, 1, 6, 3);
        moved.set_new_position(5, true);
        assert_eq!(moved.position, 5);
        assert_eq!(moved.connection1, 3);
        assert!(moved.connection0 < 4);
        let mut low = gene(&p, 7, 1, 6, 5);
        low.set_new_position(2, true);
        assert_eq!(low.connection0, 0);
        assert_eq!(low.connection1, 0);
    }
    node.set_connection0(2);
    node.set_connection1(4);
    assert_eq!(node, gene(&p, 9, 1, 2, 4));
}

#[test]
fn node_mutation_and_execution() {
    let p = settings(2, 8, 1, FunctionSet::Boolean);
    for _ in 0..100 {
        let mut node = gene(&p, 6, 2, 1, 4);
        node.mutate();
        let changed = [node.connection0 != 1, node.connection1 != 4, node.function_id != 2];
        assert_eq!(changed.iter().filter(|c| **c).count(), 1);
        assert!(node.connection0 < 6 && node.connection1 < 6 && node.function_id < 4);
        let mut output = gene(&p, 10, 0, 9, usize::MAX);
        output.mutate();
        assert!(output.connection0 < 10 && output.connection0 != 9);
        let mut connection = 3;
        Node::mutate_connection(&mut connection, 5);
        assert!(connection < 5 && connection != 3);
        connection = 3;
        Node::mutate_connection(&mut connection, 1);
        assert_eq!(connection, 0);
        let made = Node::new(5, 2, 8, NodeType::ComputationalNode, FunctionSet::Boolean);
        assert!(made.connection0 < 5 && made.connection1 < 5);
        assert_eq!(made.to_dag().connection0, made.connection0);
    }
    let node = gene(&p, 6, 3, 1, 4);
    assert_eq!(node.execute(&vec![true, false], &vec![false, false]), vec![false, true]);
}

#[test]
fn validity_is_checked() {
    let mut c = or_of_ands();
    assert!(c.has_structure());
    assert!(c.is_valid());
    c.get_active_nodes_id();
    assert!(c.is_valid());

    // the cache does not follow a change made from outside
    c.nodes_grid[4].connection0 = 0;
    assert!(c.has_structure());
    assert!(!c.is_valid());
    c.active_nodes = None;
    assert!(c.is_valid());
    c.active_nodes = Some(vec![0, 2, 4, 6]);
    assert!(c.is_valid());
    c.active_nodes = Some(vec![2, 0, 4, 6]);
    assert!(!c.is_valid());
    c.active_nodes = Some(vec![0, 2, 4, 5, 6]);
    assert!(!c.is_valid());

    let mut forward = or_of_ands();
    forward.nodes_grid[3].connection0 = 4;
    assert!(!forward.has_structure());
    assert!(!forward.is_valid());

    let mut own = or_of_ands();
    own.nodes_grid[4].connection1 = 4;
    assert!(!own.is_valid());

    let mut input = or_of_ands();
    input.nodes_grid[1].connection0 = 0;
    assert!(!input.is_valid());

    let mut role = or_of_ands();
    role.nodes_grid[5].node_type = NodeType::OutputNode;
    assert!(!role.is_valid());

    let mut outputs = or_of_ands();
    outputs.output_node_ids = vec![6, 7];
    assert!(!outputs.is_valid());

    let mut settings_changed = or_of_ands();
    settings_changed.params.nbr_outputs = 0;
    assert!(!settings_changed.is_valid());
}

#[test]
fn library_made_genotypes_are_valid() {
    for cgp_type in 0..2 {
        for _ in 0..20 {
            let mut p = settings(2, 15, 2, FunctionSet::Regression);
            p.cgp_type = cgp_type;
            let mut c = Chromosome::new(p).unwrap();
            assert!(c.is_valid());
            for _ in 0..10 {
                c.get_active_nodes_id();
                c.mutate_single();
                assert!(c.is_valid());
                c.get_active_nodes_id();
                assert!(c.is_valid());
                c.reorder();
                assert!(c.is_valid());
            }
        }
    }
}

#[test]
fn standard_mutate_single_changes_one_active_node() {
    for _ in 0..200 {
        let mut c = or_of_ands();
        c.get_active_nodes_id();
        let active = c.active_positions();
        let before = c.nodes_grid.clone();
        c.mutate_single();
        let differing = active.iter().filter(|q| c.nodes_grid[**q] != before[**q]).count();
        assert_eq!(differing, 1);
        assert_eq!(&c.nodes_grid[..3], &before[..3]);
        assert!(c.is_valid());
    }
}
