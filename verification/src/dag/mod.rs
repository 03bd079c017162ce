//! Genotypes whose connections may name any position that closes no
//! cycle, and what all genotypes share: the notions of dependency and
//! activity, evaluation and renumbering.

pub mod node_dag;
pub mod genotype;
pub mod active_search;
pub mod evaluation;
pub mod renumbering;
pub mod chromosome_dag;
