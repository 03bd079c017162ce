use cgp_crossover::global_params::{decimal, CgpParameters};
use cgp_crossover::utils::boolean_functions::{and, nand, nor, or};
use cgp_crossover::utils::fitness_metrics::fitness_boolean;
use cgp_crossover::utils::function_set::FunctionSet;
use cgp_crossover::utils::node_type::NodeType;
use cgp_crossover::utils::utility_funcs::{
    gen_random_number_for_node, skip_excluded, vec_contains, vect_difference,
};

#[test]
fn boolean_functions_work_entry_by_entry() {
    let a = vec![true, true, false, false];
    let b = vec![true, false, true, false];
    assert_eq!(and(&a, &b), vec![true, false, false, false]);
    assert_eq!(or(&a, &b), vec![true, true, true, false]);
    assert_eq!(nand(&a, &b), vec![false, true, true, true]);
    assert_eq!(nor(&a, &b), vec![false, false, false, true]);
    assert_eq!(and(&vec![], &vec![]), Vec::<bool>::new());
}

#[test]
fn fitness_boolean_counts_differences() {
    let prediction = vec![vec![true, false], vec![false, false], vec![true, true]];
    let label = vec![vec![true, true], vec![true, true], vec![true, true]];
    assert_eq!(fitness_boolean(&prediction, &label), 3);
    assert_eq!(fitness_boolean(&label, &label), 0);
    assert_eq!(fitness_boolean(&vec![], &vec![]), 0);
}

#[test]
fn skip_excluded_jumps_over_the_excluded_number() {
    assert_eq!(skip_excluded(0, 2), 0);
    assert_eq!(skip_excluded(1, 2), 1);
    assert_eq!(skip_excluded(2, 2), 3);
    assert_eq!(skip_excluded(5, 2), 6);
    assert_eq!(skip_excluded(0, 0), 1);
}

#[test]
fn random_number_avoids_the_excluded_one() {
    for excluded in 0..6 {
        let mut seen = [false; 5];
        for _ in 0..300 {
            let value = gen_random_number_for_node(excluded, 5);
            assert!(value < 5);
            assert!(value != excluded);
            seen[value] = true;
        }
        for value in 0..5 {
            assert_eq!(seen[value], value != excluded);
        }
    }
    assert_eq!(gen_random_number_for_node(0, 1), 0);
    assert_eq!(gen_random_number_for_node(3, 0), 0);
    for _ in 0..20 {
        assert_eq!(gen_random_number_for_node(0, 2), 1);
        assert_eq!(gen_random_number_for_node(1, 2), 0);
    }
}

#[test]
fn vect_difference_is_a_set_difference() {
    assert_eq!(vect_difference(&vec![0, 1, 2, 3, 4], &vec![3, 1, 9]), vec![0, 2, 4]);
    assert_eq!(vect_difference(&vec![5, 5, 6, 5], &vec![]), vec![5, 6]);
    assert_eq!(vect_difference(&vec![], &vec![1]), Vec::<usize>::new());
    assert_eq!(vect_difference(&vec![1, 2], &vec![2, 1]), Vec::<usize>::new());
    assert!(vec_contains(&vec![4, 7], 7));
    assert!(!vec_contains(&vec![4, 7], 5));
}

#[test]
fn default_parameters() {
    let params = CgpParameters::default();
    assert_eq!(params.mu, 1);
    assert_eq!(params.lambda, 4);
    assert_eq!(params.eval_after_iterations, 500);
    assert_eq!(params.nbr_inputs, 0);
    assert_eq!(params.nbr_computational_nodes, 0);
    assert!(params.check().is_err());
    assert!(params.describe().contains("graph_width: 0\n"));
    assert!(params.describe().contains("lambda: 4\n"));
}

#[test]
fn function_sets() {
    assert_eq!(FunctionSet::Boolean.size(), 4);
    assert_eq!(FunctionSet::Regression.size(), 8);
    for id in 0..4 {
        assert_eq!(FunctionSet::Boolean.arity(id), 2);
        assert_eq!(FunctionSet::Regression.arity(id), 2);
    }
    for id in 4..8 {
        assert_eq!(FunctionSet::Regression.arity(id), 1);
    }
}

#[test]
fn node_type_names() {
    assert_eq!(NodeType::InputNode.name(), "Input_Node");
    assert_eq!(NodeType::ComputationalNode.name(), "Computational_Node");
    assert_eq!(NodeType::OutputNode.name(), "Output_Node");
}

#[test]
fn decimal_digits() {
    assert_eq!(decimal(0), "0");
    assert_eq!(decimal(7), "7");
    assert_eq!(decimal(9), "9");
    assert_eq!(decimal(10), "10");
    assert_eq!(decimal(450), "450");
    assert_eq!(decimal(1_000_000), "1000000");
    assert_eq!(decimal(1_234_567_890), "1234567890");
    assert_eq!(decimal(usize::MAX), usize::MAX.to_string());
}

#[test]
fn describe_names_the_settings() {
    let mut params = CgpParameters::default();
    assert_eq!(
        params.describe(),
        "############ Parameters ############\ngraph_width: 0\nmu: 1\nlambda: 4\n\
         eval_after_iterations: 500\nnbr_inputs: 0\nnbr_outputs: 0\ncrossover_type: 0\n\
         multi_point_n: 0\n#########################\n"
    );
    params.nbr_computational_nodes = 450;
    params.mu = 2;
    params.lambda = 16;
    params.eval_after_iterations = 1000;
    params.nbr_inputs = 3;
    params.nbr_outputs = 12;
    params.crossover_type = 2;
    params.multi_point_n = 5;
    params.tournament_size = 77;
    assert_eq!(
        params.describe(),
        "############ Parameters ############\ngraph_width: 450\nmu: 2\nlambda: 16\n\
         eval_after_iterations: 1000\nnbr_inputs: 3\nnbr_outputs: 12\ncrossover_type: 2\n\
         multi_point_n: 5\n#########################\n"
    );
}
