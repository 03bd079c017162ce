use cgp_crossover::dag::chromosome_dag::Chromosome;
use cgp_crossover::dag::evaluation::EvaluationStep;
use cgp_crossover::dag::node_dag::NodeDAG;
use cgp_crossover::global_params::{CgpParameters, ParameterError};
use cgp_crossover::utils::cycle_checker::CGPEdges;
use cgp_crossover::utils::function_set::FunctionSet;
use cgp_crossover::utils::node_type::NodeType;

fn params(inputs: usize, computational: usize, outputs: usize, set: FunctionSet) -> CgpParameters {
    let mut params = CgpParameters::default();
    params.nbr_inputs = inputs;
    params.nbr_computational_nodes = computational;
    params.nbr_outputs = outputs;
    params.function_set = set;
    params
}

fn node(
    params: &CgpParameters,
    position: usize,
    function_id: usize,
    connection0: usize,
    connection1: usize,
) -> NodeDAG {
    let node_type = if position < params.nbr_inputs {
        NodeType::InputNode
    } else if position < params.nbr_inputs + params.nbr_computational_nodes {
        NodeType::ComputationalNode
    } else {
        NodeType::OutputNode
    };
    NodeDAG {
        position,
        node_type,
        nbr_inputs: params.nbr_inputs,
        graph_width: params.nbr_computational_nodes,
        function_set: params.function_set,
        function_id,
        connection0,
        connection1,
    }
}

fn chromosome(params: CgpParameters, nodes_grid: Vec<NodeDAG>) -> Chromosome {
    let inner = params.nbr_inputs + params.nbr_computational_nodes;
    let mut chromosome = Chromosome {
        params,
        nodes_grid,
        output_node_ids: (inner..inner + params.nbr_outputs).collect(),
        active_nodes: None,
        cgp_edges: CGPEdges::new(inner),
    };
    chromosome.renew_graph_dependencies();
    chromosome
}

/// Two inputs, three AND nodes of which the last is read by nobody, one
/// output: node 2 = in0 AND in1, node 3 = node 2 AND in0, output reads 3.
fn and_chain() -> Chromosome {
    let p = params(2, 3, 1, FunctionSet::Boolean);
    let none = usize::MAX;
    let grid = vec![
        node(&p, 0, 0, none, none),
        node(&p, 1, 0, none, none),
        node(&p, 2, 0, 0, 1),
        node(&p, 3, 0, 2, 0),
        node(&p, 4, 0, 0, 1),
        node(&p, 5, 0, 3, none),
    ];
    chromosome(p, grid)
}

fn truth_table() -> Vec<Vec<bool>> {
    vec![vec![true, true], vec![true, false], vec![false, true], vec![false, false]]
}

fn position_of(order: &[usize], wanted: usize) -> usize {
    order.iter().position(|p| *p == wanted).unwrap()
}

fn assert_valid(c: &Chromosome) {
    let p = &c.params;
    let inner = p.nbr_inputs + p.nbr_computational_nodes;
    assert_eq!(c.nodes_grid.len(), inner + p.nbr_outputs);
    for (position, node) in c.nodes_grid.iter().enumerate() {
        assert_eq!(node.position, position);
        match node.node_type {
            NodeType::InputNode => assert!(position < p.nbr_inputs),
            NodeType::ComputationalNode => {
                assert!(position >= p.nbr_inputs && position < inner);
                assert!(node.connection0 < inner);
                assert!(node.connection1 < inner);
            }
            NodeType::OutputNode => {
                assert!(position >= inner);
                assert!(node.connection0 < inner);
            }
        }
    }
    assert!(c.sorted_computational_nodes().len() == p.nbr_computational_nodes);
}

#[test]
fn and_chain_active_positions() {
    let mut c = and_chain();
    c.get_active_nodes_id();
    let active = c.active_positions();
    assert!(active.contains(&2));
    assert!(active.contains(&3));
    assert!(active.contains(&5));
    assert!(active.contains(&0));
    assert!(active.contains(&1));
    assert!(!active.contains(&4));
    assert_eq!(active.len(), 5);
}

#[test]
fn and_chain_fitness_is_zero() {
    let mut c = and_chain();
    let labels = vec![vec![true], vec![false], vec![false], vec![false]];
    assert_eq!(c.evaluate(&truth_table(), &labels), 0);
}

#[test]
fn and_chain_counts_wrong_cells() {
    let mut c = and_chain();
    let labels = vec![vec![false], vec![false], vec![true], vec![false]];
    assert_eq!(c.evaluate(&truth_table(), &labels), 2);
}

#[test]
fn active_order_puts_sources_first() {
    let mut c = and_chain();
    c.get_active_nodes_id();
    let order = c.active_positions();
    assert!(position_of(&order, 0) < position_of(&order, 2));
    assert!(position_of(&order, 1) < position_of(&order, 2));
    assert!(position_of(&order, 2) < position_of(&order, 3));
    assert!(position_of(&order, 3) < position_of(&order, 5));
}

#[test]
fn active_positions_is_empty_without_cache() {
    let c = and_chain();
    assert!(c.active_positions().is_empty());
}

#[test]
fn evaluate_twice_gives_the_same_fitness() {
    let mut c = Chromosome::new(params(2, 12, 2, FunctionSet::Boolean)).unwrap();
    let labels = vec![vec![true, false], vec![false, false], vec![false, true], vec![true, true]];
    let first = c.evaluate(&truth_table(), &labels);
    let second = c.evaluate(&truth_table(), &labels);
    assert_eq!(first, second);
    assert!(first <= 8);
}

#[test]
fn evaluate_keeps_the_cached_order() {
    let mut c = and_chain();
    c.get_active_nodes_id();
    let before = c.active_positions();
    let labels = vec![vec![true], vec![false], vec![false], vec![false]];
    c.evaluate(&truth_table(), &labels);
    assert_eq!(c.active_positions(), before);
}

#[test]
fn boolean_operations_of_the_table() {
    let p = params(2, 4, 4, FunctionSet::Boolean);
    let none = usize::MAX;
    let grid = vec![
        node(&p, 0, 0, none, none),
        node(&p, 1, 0, none, none),
        node(&p, 2, 0, 0, 1),
        node(&p, 3, 1, 0, 1),
        node(&p, 4, 2, 0, 1),
        node(&p, 5, 3, 0, 1),
        node(&p, 6, 0, 2, none),
        node(&p, 7, 0, 3, none),
        node(&p, 8, 0, 4, none),
        node(&p, 9, 0, 5, none),
    ];
    let mut c = chromosome(p, grid);
    c.get_active_nodes_id();
    let outs = c.predict(&truth_table());
    assert_eq!(
        outs,
        vec![
            vec![true, true, false, false],
            vec![false, true, true, false],
            vec![false, true, true, false],
            vec![false, false, true, true],
        ]
    );
}

#[test]
fn new_rejects_missing_nodes() {
    assert_eq!(
        Chromosome::new(params(0, 3, 1, FunctionSet::Boolean)).err(),
        Some(ParameterError::NoInputs)
    );
    assert_eq!(
        Chromosome::new(params(2, 0, 1, FunctionSet::Boolean)).err(),
        Some(ParameterError::NoComputationalNodes)
    );
    assert_eq!(
        Chromosome::new(params(2, 3, 0, FunctionSet::Boolean)).err(),
        Some(ParameterError::NoOutputs)
    );
    assert_eq!(
        Chromosome::new(params(2, usize::MAX, 1, FunctionSet::Boolean)).err(),
        Some(ParameterError::TooManyNodes)
    );
    assert_eq!(
        Chromosome::new(params(1, 0x7fff_ffff, 1, FunctionSet::Boolean)).err(),
        Some(ParameterError::TooManyNodes)
    );
}

#[test]
fn new_genotype_reads_from_earlier_positions() {
    for _ in 0..20 {
        let c = Chromosome::new(params(3, 20, 2, FunctionSet::Regression)).unwrap();
        assert_valid(&c);
        assert!(c.active_nodes.is_none());
        assert_eq!(c.output_node_ids, vec![23, 24]);
        for node in &c.nodes_grid {
            match node.node_type {
                NodeType::InputNode => {
                    assert_eq!(node.connection0, usize::MAX);
                    assert_eq!(node.connection1, usize::MAX);
                }
                NodeType::ComputationalNode => {
                    assert!(node.connection0 < node.position);
                    assert!(node.connection1 < node.position);
                    assert!(node.function_id < 8);
                }
                NodeType::OutputNode => {
                    assert!(node.connection0 < 23);
                    assert_eq!(node.connection1, usize::MAX);
                }
            }
        }
    }
}

#[test]
fn mutation_keeps_the_graph_acyclic() {
    let mut c = Chromosome::new(params(2, 15, 1, FunctionSet::Boolean)).unwrap();
    for _ in 0..200 {
        c.get_active_nodes_id();
        c.mutate_single();
        assert_valid(&c);
        for position in 2..17 {
            let node = c.nodes_grid[position];
            assert!(node.connection0 != position);
            assert!(node.connection1 != position);
            assert!(c.cgp_edges.leads_to_cycle(node.connection0, position));
            assert!(c.cgp_edges.leads_to_cycle(node.connection1, position));
        }
        c.get_active_nodes_id();
    }
}

#[test]
fn mutate_node_changes_one_gene_of_one_node() {
    for round in 0..100 {
        let mut c = Chromosome::new(params(3, 10, 2, FunctionSet::Boolean)).unwrap();
        let before = c.nodes_grid.clone();
        let position = 3 + round % 12;
        c.mutate_node(position);
        for q in 0..15 {
            if q != position {
                assert_eq!(c.nodes_grid[q], before[q]);
            }
        }
        let old = before[position];
        let new = c.nodes_grid[position];
        let changed = [
            old.connection0 != new.connection0,
            old.connection1 != new.connection1,
            old.function_id != new.function_id,
        ];
        assert_eq!(changed.iter().filter(|c| **c).count(), 1);
        assert_eq!(old.position, new.position);
        assert_eq!(old.node_type, new.node_type);
        assert!(c.active_nodes.is_none());
    }
}

#[test]
fn mutate_single_leaves_the_inputs_alone() {
    let mut c = Chromosome::new(params(4, 10, 1, FunctionSet::Regression)).unwrap();
    let before = c.nodes_grid.clone();
    for _ in 0..50 {
        c.get_active_nodes_id();
        c.mutate_single();
    }
    assert_eq!(&c.nodes_grid[..4], &before[..4]);
    assert_eq!(c.nodes_grid.len(), before.len());
}

#[test]
fn single_input_regression_skips_the_first_node() {
    let mut c = Chromosome::new(params(1, 6, 1, FunctionSet::Regression)).unwrap();
    assert_eq!(c.first_mutable(), 2);
    let first = c.nodes_grid[1];
    for _ in 0..100 {
        c.get_active_nodes_id();
        c.mutate_single();
        c.mutate_prob(16_777_216);
    }
    assert_eq!(c.nodes_grid[1], first);
    let b = Chromosome::new(params(1, 6, 1, FunctionSet::Boolean)).unwrap();
    assert_eq!(b.first_mutable(), 1);
    let r = Chromosome::new(params(2, 6, 1, FunctionSet::Regression)).unwrap();
    assert_eq!(r.first_mutable(), 2);
    let r3 = Chromosome::new(params(3, 6, 1, FunctionSet::Regression)).unwrap();
    assert_eq!(r3.first_mutable(), 3);
}

#[test]
fn mutate_prob_zero_changes_nothing() {
    let mut c = Chromosome::new(params(2, 10, 1, FunctionSet::Boolean)).unwrap();
    c.get_active_nodes_id();
    let nodes = c.nodes_grid.clone();
    let order = c.active_positions();
    c.mutate_prob(0);
    assert_eq!(c.nodes_grid, nodes);
    assert_eq!(c.active_positions(), order);
}

#[test]
fn mutate_prob_one_mutates_every_node() {
    let mut c = Chromosome::new(params(3, 10, 2, FunctionSet::Boolean)).unwrap();
    let nodes = c.nodes_grid.clone();
    c.mutate_prob(16_777_216);
    for position in 3..15 {
        assert!(c.nodes_grid[position] != nodes[position]);
    }
    assert_valid(&c);
}

#[test]
fn renumber_by_a_given_order() {
    // inputs 0 and 1; node 2 reads node 4, node 3 reads node 2, node 4 reads
    // the inputs; the output reads node 3.
    let p = params(2, 3, 1, FunctionSet::Boolean);
    let none = usize::MAX;
    let grid = vec![
        node(&p, 0, 0, none, none),
        node(&p, 1, 0, none, none),
        node(&p, 2, 1, 4, 0),
        node(&p, 3, 2, 2, 4),
        node(&p, 4, 3, 0, 1),
        node(&p, 5, 0, 3, none),
    ];
    let mut c = chromosome(p, grid);
    assert_eq!(c.sorted_computational_nodes(), vec![4, 2, 3]);
    c.renumber(&vec![4, 2, 3]);
    let expected = vec![
        node(&p, 0, 0, none, none),
        node(&p, 1, 0, none, none),
        node(&p, 2, 3, 0, 1),
        node(&p, 3, 1, 2, 0),
        node(&p, 4, 2, 3, 2),
        node(&p, 5, 0, 4, none),
    ];
    assert_eq!(c.nodes_grid, expected);
    assert_eq!(c.active_positions().len(), 6);
    assert!(c.cgp_edges.leads_to_cycle(2, 4));
    assert!(!c.cgp_edges.leads_to_cycle(4, 2));
}

#[test]
fn renumber_by_position_order_is_a_fixed_point() {
    let mut c = and_chain();
    let before = c.nodes_grid.clone();
    c.renumber(&vec![2, 3, 4]);
    assert_eq!(c.nodes_grid, before);
}

#[test]
fn unravel_makes_connections_point_backwards() {
    for _ in 0..30 {
        let mut c = Chromosome::new(params(2, 25, 2, FunctionSet::Boolean)).unwrap();
        for _ in 0..40 {
            c.get_active_nodes_id();
            c.mutate_single();
        }
        let labels = vec![vec![true, true], vec![false, true], vec![false, false], vec![false, true]];
        let fitness = c.evaluate(&truth_table(), &labels);
        c.unravel();
        assert_valid(&c);
        for node in &c.nodes_grid {
            match node.node_type {
                NodeType::InputNode => {}
                NodeType::ComputationalNode => {
                    assert!(node.connection0 < node.position);
                    assert!(node.connection1 < node.position);
                }
                NodeType::OutputNode => assert!(node.connection0 < node.position),
            }
        }
        assert!(c.active_nodes.is_some());
        assert_eq!(c.evaluate(&truth_table(), &labels), fitness);
    }
}

#[test]
fn reorder_does_nothing() {
    let mut c = and_chain();
    let before = c.nodes_grid.clone();
    c.reorder();
    assert_eq!(c.nodes_grid, before);
}

#[test]
fn regression_arity_decides_what_is_active() {
    // node 2 is a sine of input 0 and names node 3 as its unused second
    // connection; node 3 is read by nobody else.
    let p = params(1, 2, 1, FunctionSet::Regression);
    let none = usize::MAX;
    let grid = vec![
        node(&p, 0, 0, none, none),
        node(&p, 1, 4, 0, 2),
        node(&p, 2, 0, 0, 0),
        node(&p, 3, 0, 1, none),
    ];
    let mut c = chromosome(p, grid);
    c.get_active_nodes_id();
    assert_eq!(c.active_positions(), vec![0, 1, 3]);
    c.nodes_grid[1].function_id = 2;
    c.get_active_nodes_id();
    assert_eq!(c.active_positions(), vec![0, 2, 1, 3]);
}

#[test]
fn clone_copies_the_tracker() {
    let mut c = and_chain();
    c.get_active_nodes_id();
    let mut copy = c.clone();
    assert_eq!(copy.nodes_grid, c.nodes_grid);
    assert_eq!(copy.active_nodes, c.active_nodes);
    assert_eq!(copy.output_node_ids, c.output_node_ids);
    assert!(copy.cgp_edges.leads_to_cycle(2, 3));
    let mut connection = copy.nodes_grid[3].connection0;
    NodeDAG::redirect(&mut connection, 3, 1, &mut copy.cgp_edges);
    copy.nodes_grid[3].connection0 = connection;
    assert!(!copy.cgp_edges.leads_to_cycle(2, 3));
    assert!(c.cgp_edges.leads_to_cycle(2, 3));
    assert_eq!(c.nodes_grid[3].connection0, 2);
}

#[test]
fn evaluation_plan_follows_the_order() {
    let p = params(1, 2, 1, FunctionSet::Regression);
    let none = usize::MAX;
    let grid = vec![
        node(&p, 0, 0, none, none),
        node(&p, 1, 4, 0, 2),
        node(&p, 2, 1, 1, 0),
        node(&p, 3, 0, 2, none),
    ];
    let mut c = chromosome(p, grid);
    c.get_active_nodes_id();
    let plan = c.evaluation_plan();
    assert_eq!(
        plan,
        vec![
            EvaluationStep::ReadInput { position: 0 },
            EvaluationStep::Apply { position: 1, function_id: 4, first: 0, second: None },
            EvaluationStep::Apply { position: 2, function_id: 1, first: 1, second: Some(0) },
            EvaluationStep::CopyValue { position: 3, source: 2 },
        ]
    );
    assert_eq!(plan[2].position(), 2);
}

#[test]
fn cyclic_candidate_is_never_installed() {
    // one input; node 1 reads it twice, node 2 reads node 1 twice: the only
    // other position that node 1 could read is node 2, which depends on it.
    let p = params(1, 2, 1, FunctionSet::Boolean);
    let none = usize::MAX;
    for _ in 0..100 {
        let grid = vec![
            node(&p, 0, 0, none, none),
            node(&p, 1, 0, 0, 0),
            node(&p, 2, 0, 1, 1),
            node(&p, 3, 0, 2, none),
        ];
        let mut c = chromosome(p, grid);
        c.mutate_node(1);
        assert_eq!(c.nodes_grid[1].connection0, 0);
        assert_eq!(c.nodes_grid[1].connection1, 0);
        assert_eq!(c.nodes_grid[2], node(&p, 2, 0, 1, 1));
        assert!(c.cgp_edges.leads_to_cycle(1, 2));
        c.mutate_node(2);
        let second = c.nodes_grid[2];
        assert!(second.connection0 < 2 && second.connection1 < 2);
    }
}

#[test]
fn soundness_is_checked() {
    let mut c = and_chain();
    assert!(c.has_structure());
    assert!(c.tracker_agrees());
    assert!(c.is_sound());
    c.get_active_nodes_id();
    assert!(c.is_sound());

    // a connection changed behind the tracker's back
    let mut stale = and_chain();
    stale.nodes_grid[3].connection1 = 1;
    assert!(stale.has_structure());
    assert!(!stale.tracker_agrees());
    assert!(!stale.is_sound());
    stale.renew_graph_dependencies();
    assert!(stale.is_sound());

    // node 2 reads node 3, which reads node 2
    let mut cyclic = and_chain();
    cyclic.nodes_grid[2].connection0 = 3;
    cyclic.renew_graph_dependencies();
    assert!(cyclic.has_structure());
    assert!(cyclic.tracker_agrees());
    assert!(!cyclic.is_sound());

    // a node that reads itself
    let mut selfish = and_chain();
    selfish.nodes_grid[4].connection1 = 4;
    selfish.renew_graph_dependencies();
    assert!(!selfish.is_sound());

    // a forward connection without a cycle is in order
    let mut forward = and_chain();
    forward.nodes_grid[2].connection0 = 4;
    forward.renew_graph_dependencies();
    assert!(forward.is_sound());

    let mut misplaced = and_chain();
    misplaced.nodes_grid[3].position = 2;
    assert!(!misplaced.has_structure());
    assert!(!misplaced.is_sound());

    let mut unknown_function = and_chain();
    unknown_function.nodes_grid[3].function_id = 4;
    assert!(!unknown_function.is_sound());

    let mut far = and_chain();
    far.nodes_grid[5].connection0 = 5;
    assert!(!far.is_sound());

    let mut outputs = and_chain();
    outputs.output_node_ids = vec![4];
    assert!(!outputs.is_sound());

    let mut short = and_chain();
    short.nodes_grid.pop();
    assert!(!short.is_sound());
}

#[test]
fn library_made_genotypes_are_sound() {
    for _ in 0..20 {
        let mut c = Chromosome::new(params(2, 12, 2, FunctionSet::Regression)).unwrap();
        assert!(c.is_sound());
        for _ in 0..20 {
            c.get_active_nodes_id();
            c.mutate_single();
            assert!(c.is_sound());
        }
        c.mutate_prob(8_000_000);
        assert!(c.is_sound());
        c.unravel();
        assert!(c.is_sound());
    }
}

fn two_node_chain() -> Chromosome {
    // node 2 = in0 AND in1, node 3 = node 2 AND in0, the output reads node 3:
    // every node is active.
    let p = params(2, 2, 1, FunctionSet::Boolean);
    let none = usize::MAX;
    let grid = vec![
        node(&p, 0, 0, none, none),
        node(&p, 1, 0, none, none),
        node(&p, 2, 0, 0, 1),
        node(&p, 3, 0, 2, 0),
        node(&p, 4, 0, 3, none),
    ];
    chromosome(p, grid)
}

#[test]
fn mutate_single_without_inactive_nodes_changes_one_node() {
    for _ in 0..200 {
        let mut c = two_node_chain();
        c.get_active_nodes_id();
        let mut active = c.active_positions();
        active.sort();
        assert_eq!(active, vec![0, 1, 2, 3, 4]);
        let before = c.nodes_grid.clone();
        c.mutate_single();
        let differing: Vec<usize> = (0..5).filter(|q| c.nodes_grid[*q] != before[*q]).collect();
        assert_eq!(differing.len(), 1);
        let p = differing[0];
        assert!(p >= 2);
        let changed = [
            c.nodes_grid[p].connection0 != before[p].connection0,
            c.nodes_grid[p].connection1 != before[p].connection1,
            c.nodes_grid[p].function_id != before[p].function_id,
        ];
        assert_eq!(changed.iter().filter(|c| **c).count(), 1);
        // node 3 reads node 2, so node 2 must not come to read node 3
        assert!(c.nodes_grid[2].connection0 != 3);
        assert!(c.nodes_grid[2].connection1 != 3);
        assert!(c.is_sound());
        assert!(c.active_nodes.is_none());
    }
}

#[test]
fn mutate_single_changes_one_active_node() {
    for _ in 0..200 {
        let mut c = and_chain();
        c.get_active_nodes_id();
        let active = c.active_positions();
        let before = c.nodes_grid.clone();
        c.mutate_single();
        let differing = active.iter().filter(|q| c.nodes_grid[**q] != before[**q]).count();
        assert_eq!(differing, 1);
        assert_eq!(&c.nodes_grid[..2], &before[..2]);
    }
}

#[test]
fn mutate_prob_takes_each_node_once() {
    for _ in 0..100 {
        let mut c = two_node_chain();
        let before = c.nodes_grid.clone();
        c.mutate_prob(16_777_216);
        for p in 2..5 {
            let changed = [
                c.nodes_grid[p].connection0 != before[p].connection0,
                c.nodes_grid[p].connection1 != before[p].connection1,
                c.nodes_grid[p].function_id != before[p].function_id,
            ];
            assert_eq!(changed.iter().filter(|c| **c).count(), 1);
            assert_eq!(c.nodes_grid[p].position, p);
        }
        assert!(c.is_sound());
        let mut half = two_node_chain();
        half.mutate_prob(8_388_608);
        for p in 2..5 {
            let changed = [
                half.nodes_grid[p].connection0 != before[p].connection0,
                half.nodes_grid[p].connection1 != before[p].connection1,
                half.nodes_grid[p].function_id != before[p].function_id,
            ];
            assert!(changed.iter().filter(|c| **c).count() <= 1);
        }
        assert!(half.is_sound());
    }
}
