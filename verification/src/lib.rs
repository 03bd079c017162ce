//! Cartesian genetic programming genotypes: feed-forward computation graphs
//! that stay acyclic under point mutation, active-subgraph extraction and
//! topological renumbering.
//!
//! A genotype is an array of nodes, indexed by position: input nodes first,
//! then computational nodes, each with a function id and two connections to
//! other positions, then output nodes with one connection each. There are
//! two kinds of genotype.
//!
//! - In [`dag::chromosome_dag::Chromosome`] a computational node may read
//!   from any input or computational node, as long as no node comes to
//!   depend on itself. An edge tracker, [`utils::cycle_checker::CGPEdges`],
//!   refuses the connections that would close a cycle, the active nodes
//!   are put into an execution order by a topological sort, and `unravel`
//!   renumbers the computational nodes so that every connection names an
//!   earlier position.
//! - In [`standard_cgp::chromosome::Chromosome`] every connection names an
//!   earlier position at all times. Its `reorder` can spread the active
//!   nodes evenly over the positions, see [`reorder`].
//!
//! Both are evaluated on boolean data here; for other values they give the
//! steps of an evaluation, [`dag::evaluation::EvaluationStep`].
//! [`utils::runner::Runner`] is an evolution with one parent on boolean
//! data.
//!
//! What a node array means as a graph is defined in [`dag::genotype`], over
//! the graph notions of [`utils::reachability`]. Every function states what
//! it does over these definitions and is proved to do so, but for the few
//! that call into the crates `petgraph` and `rand`: what they state of the
//! call is taken on trust, and their comments say what that is.

pub mod dag;
pub mod global_params;
pub mod reorder;
pub mod standard_cgp;
pub mod utils;
