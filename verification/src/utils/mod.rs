//! The parts that the genotypes are built from, and an evolution that
//! uses them.

pub mod node_type;
pub mod function_set;
pub mod boolean_functions;
pub mod reachability;
pub mod visit_marks;
pub mod cycle_checker;
pub mod dependency_graph;
pub mod utility_funcs;
pub mod fitness_metrics;
pub mod runner;
