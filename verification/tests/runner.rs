use cgp_crossover::global_params::{CgpParameters, ParameterError};
use cgp_crossover::utils::function_set::FunctionSet;
use cgp_crossover::utils::runner::{check_data, choose_parent, Runner, RunnerError};
use cgp_crossover::utils::utility_funcs::{get_argmin, get_argmins_of_value, get_min};

fn settings(cgp_type: usize) -> CgpParameters {
    let mut params = CgpParameters::default();
    params.nbr_inputs = 2;
    params.nbr_computational_nodes = 20;
    params.nbr_outputs = 1;
    params.mu = 1;
    params.lambda = 4;
    params.cgp_type = cgp_type;
    params.function_set = FunctionSet::Boolean;
    params
}

fn xor_data() -> (Vec<Vec<bool>>, Vec<Vec<bool>>) {
    let data = vec![vec![false, false], vec![false, true], vec![true, false], vec![true, true]];
    let label = vec![vec![false], vec![true], vec![true], vec![false]];
    (data, label)
}

#[test]
fn argmin_takes_the_first_least_value() {
    assert_eq!(get_argmin(&vec![3, 1, 2, 1]), 1);
    assert_eq!(get_argmin(&vec![7]), 0);
    assert_eq!(get_argmin(&vec![2, 2, 2]), 0);
    assert_eq!(get_min(&vec![3, 1, 2, 1]), 1);
    assert_eq!(get_min(&vec![9, 8]), 8);
}

#[test]
fn argmins_of_value_are_appended() {
    let mut found = vec![42];
    get_argmins_of_value(&vec![3, 1, 2, 1], &mut found, 1);
    assert_eq!(found, vec![42, 1, 3]);
    get_argmins_of_value(&vec![3, 1, 2, 1], &mut found, 5);
    assert_eq!(found, vec![42, 1, 3]);
    let mut empty = Vec::new();
    get_argmins_of_value(&vec![], &mut empty, 0);
    assert!(empty.is_empty());
}

#[test]
fn runner_starts_with_the_best_as_parent() {
    let (data, label) = xor_data();
    let runner = Runner::new(settings(0), data, label).ok().unwrap();
    assert_eq!(runner.population.len(), 5);
    assert_eq!(runner.fitness_vals.len(), 5);
    assert_eq!(runner.get_best_fitness(), *runner.fitness_vals.iter().min().unwrap());
    assert_eq!(runner.fitness_vals[runner.parent_id], runner.get_best_fitness());
    assert_eq!(runner.get_elitism_fitness(), vec![runner.get_best_fitness()]);
    assert!(runner.get_best_fitness() <= 4);
}

#[test]
fn runner_never_gets_worse() {
    for cgp_type in 0..2 {
        let (data, label) = xor_data();
        let mut runner = Runner::new(settings(cgp_type), data.clone(), label.clone()).ok().unwrap();
        let mut best = runner.get_best_fitness();
        for step in 0..300 {
            runner.learn_step(step);
            assert!(runner.get_best_fitness() <= best);
            best = runner.get_best_fitness();
            assert_eq!(runner.fitness_vals[runner.parent_id], best);
            let mut parent = runner.get_best_solution();
            assert_eq!(parent.evaluate(&data, &label), best);
            for fitness in &runner.fitness_vals {
                assert!(*fitness >= best);
            }
        }
        assert!(best <= 4);
    }
}

#[test]
fn runner_moves_to_another_best_individual() {
    let (data, label) = xor_data();
    let mut runner = Runner::new(settings(0), data, label).ok().unwrap();
    for step in 0..100 {
        let before = runner.parent_id;
        runner.learn_step(step);
        let best = runner.get_best_fitness();
        let ties = runner.fitness_vals.iter().filter(|f| **f == best).count();
        if ties >= 2 {
            assert!(runner.parent_id != before);
        }
    }
}

#[test]
fn runner_rejects_bad_input() {
    let (data, label) = xor_data();
    let mut no_nodes = settings(0);
    no_nodes.nbr_computational_nodes = 0;
    assert_eq!(
        Runner::new(no_nodes, data.clone(), label.clone()).err(),
        Some(RunnerError::Parameters(ParameterError::NoComputationalNodes))
    );
    let mut regression = settings(0);
    regression.function_set = FunctionSet::Regression;
    assert_eq!(
        Runner::new(regression, data.clone(), label.clone()).err(),
        Some(RunnerError::NotBoolean)
    );
    let mut nobody = settings(0);
    nobody.mu = 0;
    nobody.lambda = 0;
    assert_eq!(
        Runner::new(nobody, data.clone(), label.clone()).err(),
        Some(RunnerError::PopulationSize)
    );
    let mut too_many = settings(0);
    too_many.mu = usize::MAX;
    too_many.lambda = 1;
    assert_eq!(
        Runner::new(too_many, data.clone(), label.clone()).err(),
        Some(RunnerError::PopulationSize)
    );
    assert_eq!(
        Runner::new(settings(0), data.clone(), label[..3].to_vec()).err(),
        Some(RunnerError::DataShape)
    );
    let wide = vec![vec![true, true, true]; 4];
    assert_eq!(
        Runner::new(settings(0), wide, label.clone()).err(),
        Some(RunnerError::DataShape)
    );
    let two_labels = vec![vec![true, false]; 4];
    assert_eq!(
        Runner::new(settings(0), data.clone(), two_labels).err(),
        Some(RunnerError::DataShape)
    );
    assert!(Runner::new(settings(0), Vec::new(), Vec::new()).is_ok());
}

#[test]
fn choose_parent_prefers_another_individual() {
    assert_eq!(choose_parent(vec![3], 3), 3);
    assert_eq!(choose_parent(vec![3], 1), 3);
    for _ in 0..50 {
        assert_eq!(choose_parent(vec![1, 4], 4), 1);
        assert_eq!(choose_parent(vec![1, 4], 1), 4);
        let chosen = choose_parent(vec![0, 2, 5], 2);
        assert!(chosen == 0 || chosen == 5);
        let any = choose_parent(vec![0, 2, 5], 7);
        assert!(any == 0 || any == 2 || any == 5);
    }
}

#[test]
fn data_are_checked_against_the_settings() {
    let (data, label) = xor_data();
    assert!(check_data(&settings(0), &data, &label));
    assert!(check_data(&settings(0), &Vec::new(), &Vec::new()));
    assert!(!check_data(&settings(0), &data, &label[..2].to_vec()));
    assert!(!check_data(&settings(0), &label, &label));
    assert!(!check_data(&settings(0), &data, &data));
    let mut three = settings(0);
    three.nbr_inputs = 3;
    assert!(!check_data(&three, &data, &label));
}
