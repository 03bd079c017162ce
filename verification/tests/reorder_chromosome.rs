use cgp_crossover::global_params::CgpParameters;
use cgp_crossover::reorder::chromosome_reorder_equidistant::Chromosome;
use cgp_crossover::reorder::linspace::linspace;
use cgp_crossover::reorder::node_reorder::NodeReorder;
use cgp_crossover::utils::function_set::FunctionSet;
use cgp_crossover::utils::node_type::NodeType;
use cgp_crossover::utils::visit_marks::collect_positions;

fn settings(inputs: usize, computational: usize, outputs: usize, set: FunctionSet) -> CgpParameters {
    let mut params = CgpParameters::default();
    params.nbr_inputs = inputs;
    params.nbr_computational_nodes = computational;
    params.nbr_outputs = outputs;
    params.function_set = set;
    params.cgp_type = 1;
    params
}

fn gene(
    params: &CgpParameters,
    position: usize,
    function_id: usize,
    connection0: usize,
    connection1: usize,
) -> NodeReorder {
    let node_type = if position < params.nbr_inputs {
        NodeType::InputNode
    } else if position < params.nbr_inputs + params.nbr_computational_nodes {
        NodeType::ComputationalNode
    } else {
        NodeType::OutputNode
    };
    NodeReorder {
        position,
        node_type,
        nbr_inputs: params.nbr_inputs,
        graph_width: params.nbr_computational_nodes,
        function_set: params.function_set,
        function_id,
        connection0,
        connection1,
    }
}

fn genotype(params: CgpParameters, nodes_grid: Vec<NodeReorder>) -> Chromosome {
    let inner = params.nbr_inputs + params.nbr_computational_nodes;
    Chromosome {
        params,
        nodes_grid,
        output_node_ids: (inner..inner + params.nbr_outputs).collect(),
        active_nodes: None,
    }
}

fn rows() -> Vec<Vec<bool>> {
    vec![vec![true, true], vec![true, false], vec![false, true], vec![false, false]]
}

#[test]
fn linspace_spreads_evenly() {
    assert_eq!(linspace(2, 9, 2), vec![2, 9]);
    assert_eq!(linspace(2, 9, 3), vec![2, 5, 9]);
    assert_eq!(linspace(2, 9, 8), vec![2, 3, 4, 5, 6, 7, 8, 9]);
    assert_eq!(linspace(0, 10, 5), vec![0, 2, 5, 7, 10]);
    assert_eq!(linspace(4, 9, 1), vec![4]);
    assert_eq!(linspace(4, 9, 0), Vec::<usize>::new());
    assert_eq!(linspace(3, 3, 1), vec![3]);
    assert_eq!(linspace(1, 4, 3), vec![1, 2, 4]);
}

#[test]
fn collect_positions_by_mark() {
    let marks = vec![true, false, false, true, true];
    assert_eq!(collect_positions(&marks, true, 3), vec![3, 6, 7]);
    assert_eq!(collect_positions(&marks, false, 3), vec![4, 5]);
    assert_eq!(collect_positions(&vec![], true, 3), Vec::<usize>::new());
}

#[test]
fn reorder_spreads_the_active_nodes() {
    // node 2 = in0 AND in1, node 3 = node 2 OR in0, the output reads node 3;
    // nodes 4 to 9 are read by nobody.
    let p = settings(2, 8, 1, FunctionSet::Boolean);
    let none = usize::MAX;
    let mut grid = vec![
        gene(&p, 0, 0, none, none),
        gene(&p, 1, 0, none, none),
        gene(&p, 2, 0, 0, 1),
        gene(&p, 3, 1, 2, 0),
    ];
    for position in 4..10 {
        grid.push(gene(&p, position, 2, position - 1, position - 2));
    }
    grid.push(gene(&p, 10, 0, 3, none));
    let mut c = genotype(p, grid);
    c.get_active_nodes_id();
    let before = c.predict(&rows());
    assert_eq!(c.connected_computational(), vec![true, true, false, false, false, false, false, false]);
    c.reorder();
    assert_eq!(c.nodes_grid[2], gene(&p, 2, 0, 0, 1));
    assert_eq!(c.nodes_grid[9], gene(&p, 9, 1, 2, 0));
    assert_eq!(c.nodes_grid[10], gene(&p, 10, 0, 9, none));
    assert_eq!(c.nodes_grid[0], gene(&p, 0, 0, none, none));
    // the others moved up by one place, from 4..=9 to 3..=8
    for position in 3..9 {
        let node = c.nodes_grid[position];
        assert_eq!(node.position, position);
        assert_eq!(node.function_id, 2);
        assert!(node.connection0 < position);
        assert!(node.connection1 < position);
    }
    // old node 6 read 5 and 4 and stands at 5 now: 5 had to go, 4 stays
    assert!(c.nodes_grid[5].connection0 < 4);
    assert_eq!(c.nodes_grid[5].connection1, 4);
    assert!(c.nodes_grid[8].connection0 < 7);
    assert_eq!(c.nodes_grid[8].connection1, 7);
    assert_eq!(c.active_positions(), vec![0, 1, 2, 9, 10]);
    assert_eq!(c.predict(&rows()), before);
}

#[test]
fn reorder_without_connected_nodes_changes_nothing() {
    let p = settings(2, 3, 1, FunctionSet::Boolean);
    let none = usize::MAX;
    let grid = vec![
        gene(&p, 0, 0, none, none),
        gene(&p, 1, 0, none, none),
        gene(&p, 2, 0, 0, 1),
        gene(&p, 3, 1, 2, 0),
        gene(&p, 4, 1, 3, 3),
        gene(&p, 5, 0, 1, none),
    ];
    let mut c = genotype(p, grid.clone());
    c.reorder();
    assert_eq!(c.nodes_grid, grid);
    assert!(c.active_nodes.is_none());
}

#[test]
fn reorder_counts_unused_operands_as_connections() {
    // node 3 is a sine of node 1 and names node 2 as second connection.
    let p = settings(1, 6, 1, FunctionSet::Regression);
    let none = usize::MAX;
    let grid = vec![
        gene(&p, 0, 0, none, none),
        gene(&p, 1, 0, 0, 0),
        gene(&p, 2, 1, 0, 1),
        gene(&p, 3, 4, 1, 2),
        gene(&p, 4, 0, 0, 0),
        gene(&p, 5, 0, 4, 0),
        gene(&p, 6, 0, 5, 4),
        gene(&p, 7, 0, 3, none),
    ];
    let mut c = genotype(p, grid);
    assert_eq!(c.connected_computational(), vec![true, true, true, false, false, false]);
    c.reorder();
    // connected nodes 1, 2, 3 go to 1, 3, 6
    assert_eq!(c.nodes_grid[1], gene(&p, 1, 0, 0, 0));
    assert_eq!(c.nodes_grid[3], gene(&p, 3, 1, 0, 1));
    assert_eq!(c.nodes_grid[6], gene(&p, 6, 4, 1, 3));
    assert_eq!(c.nodes_grid[7], gene(&p, 7, 0, 6, none));
    // the others, 4, 5, 6, go to 2, 4, 5
    assert_eq!(c.nodes_grid[2], gene(&p, 2, 0, 0, 0));
    assert_eq!(c.nodes_grid[4].position, 4);
    assert!(c.nodes_grid[4].connection0 < 3);
    assert_eq!(c.nodes_grid[4].connection1, 0);
    assert_eq!(c.nodes_grid[5].position, 5);
    assert_eq!(c.nodes_grid[5].connection1, 4);
    assert!(c.nodes_grid[5].connection0 < 4);
    assert_eq!(c.active_positions(), vec![0, 1, 6, 7]);
}

#[test]
fn reorder_keeps_random_genotypes_valid() {
    for _ in 0..40 {
        let mut c = Chromosome::new(settings(3, 30, 2, FunctionSet::Boolean)).unwrap();
        let inputs = vec![
            vec![true, true, false],
            vec![true, false, true],
            vec![false, true, true],
            vec![false, false, false],
            vec![true, true, true],
        ];
        for _ in 0..5 {
            c.get_active_nodes_id();
            c.mutate_single();
            c.get_active_nodes_id();
            let before = c.predict(&inputs);
            c.reorder();
            assert_eq!(c.predict(&inputs), before);
            for (position, node) in c.nodes_grid.iter().enumerate() {
                assert_eq!(node.position, position);
                match node.node_type {
                    NodeType::InputNode => {}
                    NodeType::ComputationalNode => {
                        assert!(node.connection0 < position);
                        assert!(node.connection1 < position);
                    }
                    NodeType::OutputNode => assert!(node.connection0 < 33),
                }
            }
            let active = c.active_positions();
            let inner: Vec<usize> = active.iter().copied().filter(|p| *p >= 3 && *p < 33).collect();
            assert_eq!(inner, linspace(3, 32, inner.len()));
        }
    }
}

#[test]
fn standard_type_does_not_reorder() {
    let mut p = settings(2, 8, 1, FunctionSet::Boolean);
    p.cgp_type = 0;
    let mut c = Chromosome::new(p).unwrap();
    c.get_active_nodes_id();
    let before = c.nodes_grid.clone();
    c.reorder();
    assert_eq!(c.nodes_grid, before);
}
