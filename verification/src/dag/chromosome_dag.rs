//! The genotype with free connections: construction, evaluation, the
//! execution order of its active nodes, mutation that closes no cycle, and
//! renumbering into topological order.

use crate::dag::evaluation::{is_plan_of, plan_order, predictions, run_order, EvaluationStep};
use crate::dag::genotype::{
    active_edges, causal, dependency_edges, grid_ok, is_active, is_active_order,
    is_output_position, lemma_active_in_range, lemma_causal_acyclic, lemma_feeds_are_dependencies,
    lemma_marks_hold_active, lemma_output_is_active, lemma_source_of_active,
    lemma_tracked_acyclic, lemma_used_are_dependencies, node_in_place, reads, rows_match, used_edges,
    uses,
};
use crate::dag::node_dag::NodeDAG;
use crate::dag::renumbering::{
    is_computational, is_computational_order, lemma_entry_at_index, lemma_locations,
    lemma_order_length, lemma_renumbered_causal, new_location, old_location, relocated_node,
    renumbered,
};
use crate::global_params::{CgpParameters, ParameterError};
use crate::utils::cycle_checker::CGPEdges;
use crate::utils::dependency_graph::{
    edge_set, graph_add_edge, graph_add_node, graph_edges, graph_new, graph_nodes,
    graph_remove_node, graph_toposort, is_topological_order, lemma_edge_set_empty,
    lemma_edge_set_push, lemma_edge_set_without, occupied,
};
use crate::utils::fitness_metrics::{cells, fitness_boolean, spec_fitness_boolean, table_view};
use crate::utils::function_set::FunctionSet;
use crate::utils::node_type::NodeType;
use crate::utils::reachability::{has_cycle, lemma_acyclic_monotone};
use crate::utils::utility_funcs::{copy_of, positions_from, random_below, vec_contains};
use crate::utils::visit_marks::{clear_marks, lemma_mark_one, lemma_unmarked_bound, unmarked};
use petgraph::stable_graph::StableGraph;
use vstd::multiset::Multiset;
use vstd::prelude::*;

verus! {

/// One genotype: a graph of input, computational and output nodes in which
/// a computational node may read from any position that closes no cycle.
#[derive(Debug)]
pub struct Chromosome {
    pub params: CgpParameters,
    pub nodes_grid: Vec<NodeDAG>,
    pub output_node_ids: Vec<usize>,
    pub active_nodes: Option<Vec<usize>>,
    pub cgp_edges: CGPEdges,
}

impl Clone for Chromosome {
    /// A genotype of its own with the same settings, nodes, cached order
    /// and tracker: the two share nothing.
    fn clone(&self) -> (copy: Chromosome)
        ensures
            copy.params == self.params,
            copy.nodes_grid@ == self.nodes_grid@,
            copy.output_node_ids@ == self.output_node_ids@,
            copy.cgp_edges@ == self.cgp_edges@,
            copy.active_nodes is Some == self.active_nodes is Some,
            self.active_nodes is Some ==> copy.active_nodes->0@ == self.active_nodes->0@,
            self.wf() ==> copy.wf(),
    {
        let mut nodes_grid: Vec<NodeDAG> = Vec::new();
        let mut p: usize = 0;
        while p < self.nodes_grid.len()
            invariant
                p <= self.nodes_grid@.len(),
                nodes_grid@ == self.nodes_grid@.take(p as int),
            decreases self.nodes_grid@.len() - p,
        {
            nodes_grid.push(self.nodes_grid[p]);
            proof {
                assert(self.nodes_grid@.take(p + 1) =~= self.nodes_grid@.take(p as int).push(
                    self.nodes_grid@[p as int],
                ));
            }
            p += 1;
        }
        proof {
            assert(self.nodes_grid@.take(p as int) =~= self.nodes_grid@);
        }
        let active_nodes = match &self.active_nodes {
            Some(order) => Some(copy_of(order)),
            None => None,
        };
        Chromosome {
            params: self.params,
            nodes_grid,
            output_node_ids: copy_of(&self.output_node_ids),
            active_nodes,
            cgp_edges: self.cgp_edges.clone(),
        }
    }
}

/// The role of `position` in a genotype with the settings `params`.
pub fn role_of(params: &CgpParameters, position: usize) -> (role: NodeType)
    requires
        params.valid(),
    ensures
        role == NodeType::spec_of_position(
            position as int,
            params.nbr_inputs as int,
            params.nbr_computational_nodes as int,
        ),
{
    if position < params.nbr_inputs {
        NodeType::InputNode
    } else if position < params.nbr_inputs + params.nbr_computational_nodes {
        NodeType::ComputationalNode
    } else {
        NodeType::OutputNode
    }
}

impl Chromosome {
    /// The positions of the output nodes: the last ones, in rising order.
    pub open spec fn spec_output_positions(params: CgpParameters) -> Seq<usize> {
        Seq::new(params.nbr_outputs as nat, |k: int| (params.spec_nbr_inner() + k) as usize)
    }

    /// The node array and the list of output positions are those of a
    /// genotype with the settings `params`.
    pub open spec fn structure_ok(&self) -> bool {
        &&& grid_ok(self.params, self.nodes_grid@)
        &&& self.output_node_ids@ == Self::spec_output_positions(self.params)
    }

    /// The tracker holds the connections of the computational nodes and
    /// nothing else.
    pub open spec fn edges_ok(&self) -> bool {
        &&& self.cgp_edges.wf()
        &&& rows_match(self.params, self.nodes_grid@, self.cgp_edges@)
    }

    /// The genotype without its cache is valid: the nodes are in place, the
    /// tracker agrees with them, and no node depends on itself.
    pub open spec fn sound(&self) -> bool {
        &&& self.structure_ok()
        &&& self.edges_ok()
        &&& !has_cycle(self.cgp_edges.feeds())
    }

    /// The cached execution order, where there is one, is an execution
    /// order of the active nodes of the node array as it is now.
    pub open spec fn cache_ok(&self) -> bool {
        match self.active_nodes {
            Some(order) => is_active_order(self.nodes_grid@, order@),
            None => true,
        }
    }

    /// The genotype is valid.
    pub open spec fn wf(&self) -> bool {
        self.sound() && self.cache_ok()
    }

    /// Whether the genotype without its cache is valid: the nodes are in
    /// place, the tracker agrees with them, and no node depends on itself.
    /// A genotype that was changed from outside, by writing to its fields,
    /// is to pass this test, with its cache dropped, before it is used
    /// again.
    pub fn is_sound(&self) -> (valid: bool)
        ensures
            valid == self.sound(),
    {
        if !self.has_structure() || !self.tracker_agrees() {
            return false;
        }
        let graph = self.get_dependency_graph();
        let ghost nodes = self.nodes_grid@;
        let ghost deps = dependency_edges(nodes);
        proof {
            lemma_feeds_are_dependencies(self.params, nodes, self.cgp_edges@);
        }
        match graph_toposort(&graph) {
            Ok(order) => {
                proof {
                    let rank = |x: int| order@.index_of(x as usize);
                    assert forall|a: int, b: int| #[trigger] deps.contains((a, b)) implies rank(a)
                        < rank(b) by {
                        crate::dag::genotype::lemma_edge_ends(self.params, nodes, a, b);
                        assert(occupied(graph_nodes(graph), a));
                        assert(occupied(graph_nodes(graph), b));
                        assert(order@.contains(a as usize));
                        assert(order@.contains(b as usize));
                        let i = order@.index_of(a as usize);
                        let j = order@.index_of(b as usize);
                        assert(edge_set(graph_edges(graph)).contains(
                            (order@[i] as int, order@[j] as int),
                        ));
                    }
                    crate::utils::reachability::lemma_ranked_is_acyclic(deps, rank);
                    lemma_acyclic_monotone(self.cgp_edges.feeds(), deps);
                }
                true
            },
            Err(_) => {
                proof {
                    if !has_cycle(self.cgp_edges.feeds()) {
                        lemma_tracked_acyclic(self.params, nodes, self.cgp_edges@);
                    }
                }
                false
            },
        }
    }

    /// Whether the nodes are in place and the list of output positions is
    /// the right one.
    pub fn has_structure(&self) -> (valid: bool)
        ensures
            valid == self.structure_ok(),
    {
        match self.params.check() {
            Err(_) => {
                return false;
            },
            Ok(_) => {},
        }
        let nbr_inner = self.params.nbr_inputs + self.params.nbr_computational_nodes;
        let nbr_nodes = nbr_inner + self.params.nbr_outputs;
        if self.nodes_grid.len() != nbr_nodes {
            return false;
        }
        let outputs = crate::utils::utility_funcs::position_range(nbr_inner, nbr_nodes);
        proof {
            assert(outputs@ =~= Self::spec_output_positions(self.params));
        }
        if !crate::utils::utility_funcs::same_positions(&self.output_node_ids, &outputs) {
            return false;
        }
        let mut position: usize = 0;
        while position < nbr_nodes
            invariant
                self.params.valid(),
                nbr_nodes == self.nodes_grid@.len(),
                position <= nbr_nodes,
                forall|p: int|
                    0 <= p < position ==> node_in_place(
                        self.params,
                        #[trigger] self.nodes_grid@[p],
                        p,
                    ),
            decreases nbr_nodes - position,
        {
            if !crate::dag::genotype::check_node(
                &self.params,
                &self.nodes_grid[position],
                position,
            ) {
                return false;
            }
            position += 1;
        }
        true
    }

    /// Whether the tracker holds the connections of the computational
    /// nodes and nothing else.
    pub fn tracker_agrees(&self) -> (agrees: bool)
        requires
            self.structure_ok(),
        ensures
            agrees == self.edges_ok(),
    {
        let nbr_inner = self.params.nbr_inputs + self.params.nbr_computational_nodes;
        if self.cgp_edges.len() != nbr_inner {
            return false;
        }
        let mut position: usize = 0;
        while position < nbr_inner
            invariant
                self.structure_ok(),
                nbr_inner == self.params.spec_nbr_inner(),
                self.cgp_edges@.len() == nbr_inner,
                position <= nbr_inner,
                forall|p: int|
                    0 <= p < position ==> (#[trigger] self.nodes_grid@[p]).tracked_by(
                        self.cgp_edges@,
                    ),
            decreases nbr_inner - position,
        {
            let node = self.nodes_grid[position];
            proof {
                assert(node_in_place(self.params, node, position as int));
            }
            let agreed = match node.node_type {
                NodeType::ComputationalNode => self.cgp_edges.reads_pair(
                    position,
                    node.connection0,
                    node.connection1,
                ),
                _ => self.cgp_edges.reads_nothing(position),
            };
            if !agreed {
                return false;
            }
            position += 1;
        }
        proof {
            assert forall|p: int, c: usize|
                0 <= p < self.cgp_edges@.len() && #[trigger] self.cgp_edges@[p].count(c)
                    > 0 implies c < self.cgp_edges@.len() by {
                assert(self.nodes_grid@[p].tracked_by(self.cgp_edges@));
                assert(node_in_place(self.params, self.nodes_grid@[p], p));
            }
        }
        true
    }

    /// A random genotype with the settings `params`, or the reason why
    /// there is none. Every computational node reads from two earlier
    /// positions, every output node from an input or a computational node.
    /// No execution order is cached yet.
    pub fn new(params: CgpParameters) -> (made: Result<Chromosome, ParameterError>)
        ensures
            match made {
                Ok(chromosome) => {
                    &&& params.valid()
                    &&& chromosome.params == params
                    &&& chromosome.wf()
                    &&& chromosome.active_nodes is None
                    &&& causal(chromosome.nodes_grid@)
                },
                Err(reason) => params.spec_check() == Err::<(), ParameterError>(reason),
            },
    {
        match params.check() {
            Err(reason) => {
                return Err(reason);
            },
            Ok(_) => {},
        }
        let nbr_inner = params.nbr_inputs + params.nbr_computational_nodes;
        let nbr_nodes = nbr_inner + params.nbr_outputs;
        let mut nodes_grid: Vec<NodeDAG> = Vec::new();
        let mut cgp_edges = CGPEdges::new(nbr_inner);
        let mut position: usize = 0;
        while position < nbr_nodes
            invariant
                params.valid(),
                nbr_inner == params.spec_nbr_inner(),
                nbr_nodes == params.spec_nbr_nodes(),
                position <= nbr_nodes,
                nodes_grid@.len() == position,
                cgp_edges.wf(),
                cgp_edges@.len() == nbr_inner,
                forall|p: int|
                    0 <= p < position ==> node_in_place(params, #[trigger] nodes_grid@[p], p),
                forall|p: int, c: int|
                    0 <= p < position && #[trigger] crate::dag::genotype::reads(nodes_grid@[p], c)
                        ==> c < p,
                forall|p: int|
                    0 <= p < position && p < nbr_inner ==> (#[trigger] nodes_grid@[p]).tracked_by(
                        cgp_edges@,
                    ),
                forall|p: int|
                    position <= p < nbr_inner ==> #[trigger] cgp_edges@[p] == Multiset::<
                        usize,
                    >::empty(),
            decreases nbr_nodes - position,
        {
            let node_type = role_of(&params, position);
            let ghost rows_before = cgp_edges@;
            let node = NodeDAG::new(
                position,
                params.nbr_inputs,
                params.nbr_computational_nodes,
                node_type,
                params.function_set,
                &mut cgp_edges,
            );
            nodes_grid.push(node);
            proof {
                assert forall|p: int| 0 <= p < position + 1 && p < nbr_inner implies (
                #[trigger] nodes_grid@[p]).tracked_by(cgp_edges@) by {
                    if p < position {
                        assert(node_in_place(params, nodes_grid@[p], p));
                        assert(nodes_grid@[p].tracked_by(rows_before));
                    }
                }
            }
            position += 1;
        }
        let mut output_node_ids: Vec<usize> = Vec::new();
        let mut position: usize = nbr_inner;
        while position < nbr_nodes
            invariant
                nbr_inner == params.spec_nbr_inner(),
                nbr_nodes == params.spec_nbr_nodes(),
                nbr_inner <= position <= nbr_nodes,
                output_node_ids@.len() == position - nbr_inner,
                forall|k: int|
                    0 <= k < output_node_ids@.len() ==> output_node_ids@[k] == nbr_inner + k,
            decreases nbr_nodes - position,
        {
            output_node_ids.push(position);
            position += 1;
        }
        let chromosome = Chromosome {
            params,
            nodes_grid,
            output_node_ids,
            active_nodes: None,
            cgp_edges,
        };
        proof {
            assert(chromosome.output_node_ids@ =~= Self::spec_output_positions(params));
            assert(causal(chromosome.nodes_grid@));
            lemma_causal_acyclic(chromosome.nodes_grid@);
            lemma_feeds_are_dependencies(params, chromosome.nodes_grid@, chromosome.cgp_edges@);
            lemma_acyclic_monotone(
                chromosome.cgp_edges.feeds(),
                dependency_edges(chromosome.nodes_grid@),
            );
        }
        Ok(chromosome)
    }

    /// Leaves the node positions as they are: in this kind of genotype the
    /// order of the positions carries no meaning before `unravel`.
    pub fn reorder(&mut self)
        ensures
            *final(self) == *old(self),
    {
    }

    /// Builds the tracker anew from the connections of the computational
    /// nodes. After the node array was changed from outside, this makes the
    /// tracker agree with it again.
    pub fn renew_graph_dependencies(&mut self)
        requires
            old(self).structure_ok(),
        ensures
            final(self).params == old(self).params,
            final(self).nodes_grid == old(self).nodes_grid,
            final(self).output_node_ids == old(self).output_node_ids,
            final(self).active_nodes == old(self).active_nodes,
            final(self).structure_ok(),
            final(self).edges_ok(),
            final(self).cgp_edges.feeds().subset_of(dependency_edges(final(self).nodes_grid@)),
    {
        let nbr_inner = self.params.nbr_inputs + self.params.nbr_computational_nodes;
        let mut cgp_edges = CGPEdges::new(nbr_inner);
        let mut node_id: usize = self.params.nbr_inputs;
        proof {
            assert forall|p: int| 0 <= p < self.params.nbr_inputs implies (
            #[trigger] self.nodes_grid@[p]).tracked_by(cgp_edges@) by {
                assert(node_in_place(self.params, self.nodes_grid@[p], p));
            }
        }
        while node_id < nbr_inner
            invariant
                self.structure_ok(),
                nbr_inner == self.params.spec_nbr_inner(),
                self.params.nbr_inputs <= node_id <= nbr_inner,
                cgp_edges.wf(),
                cgp_edges@.len() == nbr_inner,
                forall|p: int|
                    0 <= p < node_id ==> (#[trigger] self.nodes_grid@[p]).tracked_by(cgp_edges@),
                forall|p: int|
                    node_id <= p < nbr_inner ==> #[trigger] cgp_edges@[p] == Multiset::<
                        usize,
                    >::empty(),
            decreases nbr_inner - node_id,
        {
            let ghost rows_before = cgp_edges@;
            assert(node_in_place(self.params, self.nodes_grid@[node_id as int], node_id as int));
            cgp_edges.add_edge(node_id, self.nodes_grid[node_id].connection0);
            cgp_edges.add_edge(node_id, self.nodes_grid[node_id].connection1);
            proof {
                assert forall|p: int| 0 <= p < node_id + 1 implies (
                #[trigger] self.nodes_grid@[p]).tracked_by(cgp_edges@) by {
                    assert(node_in_place(self.params, self.nodes_grid@[p], p));
                    if p < node_id {
                        assert(self.nodes_grid@[p].tracked_by(rows_before));
                    }
                }
            }
            node_id += 1;
        }
        self.cgp_edges = cgp_edges;
        proof {
            lemma_feeds_are_dependencies(self.params, self.nodes_grid@, self.cgp_edges@);
        }
    }

    /// The fitness of the genotype on boolean data: the number of output
    /// values, over all rows of `inputs`, that differ from `labels`. Every
    /// row of `inputs` holds one value for each input node, every row of
    /// `labels` one for each output node. The execution order is computed
    /// first where none is cached, and stays cached.
    pub fn evaluate(&mut self, inputs: &Vec<Vec<bool>>, labels: &Vec<Vec<bool>>) -> (fitness: usize)
        requires
            old(self).wf(),
            old(self).params.function_set == FunctionSet::Boolean,
            inputs@.len() == labels@.len(),
            forall|r: int| 0 <= r < inputs@.len() ==> inputs@[r]@.len() == old(self).params.nbr_inputs,
            forall|r: int|
                0 <= r < labels@.len() ==> labels@[r]@.len() == old(self).params.nbr_outputs,
            cells(table_view(labels@), labels@.len()) <= usize::MAX,
        ensures
            fitness == spec_fitness_boolean(
                predictions(
                    old(self).nodes_grid@,
                    table_view(inputs@),
                    old(self).params.spec_nbr_inner(),
                    old(self).params.nbr_outputs as nat,
                ),
                table_view(labels@),
            ),
            final(self).params == old(self).params,
            final(self).nodes_grid == old(self).nodes_grid,
            final(self).output_node_ids == old(self).output_node_ids,
            final(self).cgp_edges == old(self).cgp_edges,
            final(self).active_nodes is Some,
            old(self).active_nodes is Some ==> final(self).active_nodes == old(self).active_nodes,
            final(self).wf(),
    {
        if self.active_nodes.is_none() {
            self.get_active_nodes_id();
        }
        let outs = self.predict(inputs);
        proof {
            let predicted = table_view(outs@);
            assert(predicted.len() == labels@.len());
            assert forall|r: int| 0 <= r < outs@.len() implies outs@[r]@.len() == labels@[r]@.len() by {
                assert(predicted[r].len() == self.params.nbr_outputs);
            }
            crate::utils::fitness_metrics::lemma_same_cells(predicted, table_view(labels@), labels@.len() as nat);
        }
        fitness_boolean(&outs, labels)
    }

    /// The steps that evaluate the genotype, one for each active node, in
    /// the cached execution order: every step reads only what an earlier
    /// step has computed. Whoever holds the values of the inputs can run
    /// them one after the other, with values of any kind.
    pub fn evaluation_plan(&self) -> (plan: Vec<EvaluationStep>)
        requires
            self.wf(),
            self.active_nodes is Some,
        ensures
            is_plan_of(self.nodes_grid@, self.active_nodes->0@, plan@),
    {
        plan_order(&self.params, &self.nodes_grid, self.active_nodes.as_ref().unwrap())
    }

    /// For every row of `inputs` the values of the output nodes, computed
    /// along the cached execution order.
    pub fn predict(&self, inputs: &Vec<Vec<bool>>) -> (outs: Vec<Vec<bool>>)
        requires
            self.wf(),
            self.active_nodes is Some,
            self.params.function_set == FunctionSet::Boolean,
            forall|r: int| 0 <= r < inputs@.len() ==> inputs@[r]@.len() == self.params.nbr_inputs,
        ensures
            table_view(outs@) == predictions(
                self.nodes_grid@,
                table_view(inputs@),
                self.params.spec_nbr_inner(),
                self.params.nbr_outputs as nat,
            ),
    {
        run_order(&self.params, &self.nodes_grid, self.active_nodes.as_ref().unwrap(), inputs)
    }

    /// `after` came from the valid genotype `before` by one mutation of
    /// the node at `position`: one gene of that node was redrawn, the
    /// tracker followed, and every other node stayed as it was.
    pub open spec fn one_mutation(before: Chromosome, after: Chromosome, position: int) -> bool {
        &&& before.wf()
        &&& after.params == before.params
        &&& after.nodes_grid@.len() == before.nodes_grid@.len()
        &&& 0 <= position < before.nodes_grid@.len()
        &&& before.nodes_grid@[position].mutated_to(
            after.nodes_grid@[position],
            before.cgp_edges@,
            after.cgp_edges@,
        )
        &&& forall|q: int|
            0 <= q < before.nodes_grid@.len() && q != position ==> after.nodes_grid@[q]
                == before.nodes_grid@[q]
    }

    /// `after` has the settings, the nodes and the tracker edges of
    /// `before`.
    pub open spec fn same_genotype(before: Chromosome, after: Chromosome) -> bool {
        &&& after.params == before.params
        &&& after.nodes_grid@ == before.nodes_grid@
        &&& after.cgp_edges@ == before.cgp_edges@
    }

    /// `after` came from `before` by `steps` mutations, one after the
    /// other, each of one node that `mutate_single` may mutate and that is
    /// not active in `before`: by `steps` misses.
    pub open spec fn reached_by_misses(before: Chromosome, after: Chromosome, steps: nat) -> bool
        decreases steps,
    {
        if steps == 0 {
            Self::same_genotype(before, after)
        } else {
            exists|mid: Chromosome, position: int|
                Self::reached_by_misses(before, mid, (steps - 1) as nat)
                    && Self::spec_first_mutable(before.params) <= position
                    < before.nodes_grid@.len() && !is_active(before.nodes_grid@, position)
                    && #[trigger] Self::one_mutation(mid, after, position)
        }
    }

    /// `after` came from `before` as `mutate_single` works: by `steps`
    /// misses, which led to `before_last` and left every node that is
    /// active in `before` as it was, and then by a mutation of the node at
    /// `position`, which is active in `before`.
    pub open spec fn single_mutation_by(
        before: Chromosome,
        after: Chromosome,
        steps: nat,
        before_last: Chromosome,
        position: int,
    ) -> bool {
        &&& Self::reached_by_misses(before, before_last, steps)
        &&& before_last.nodes_grid@.len() == before.nodes_grid@.len()
        &&& forall|q: int|
            0 <= q < before.nodes_grid@.len() && is_active(before.nodes_grid@, q)
                ==> #[trigger] before_last.nodes_grid@[q] == before.nodes_grid@[q]
        &&& Self::spec_first_mutable(before.params) <= position < before.nodes_grid@.len()
        &&& is_active(before.nodes_grid@, position)
        &&& Self::one_mutation(before_last, after, position)
    }

    /// `after` is what `mutate_single` may make of `before`: after some
    /// misses, each a mutation of a node that is not active in `before`,
    /// one node that is active in `before` was mutated.
    pub open spec fn is_single_mutation(before: Chromosome, after: Chromosome) -> bool {
        exists|steps: nat, before_last: Chromosome, position: int| #[trigger]
            Self::single_mutation_by(before, after, steps, before_last, position)
    }

    /// One step of `mutate_prob`: the node at `position` of `before` was
    /// mutated, or, unless `every` node is to be mutated, nothing was done.
    pub open spec fn sweep_step(
        before: Chromosome,
        after: Chromosome,
        position: int,
        every: bool,
    ) -> bool {
        Self::one_mutation(before, after, position) || (!every && Self::same_genotype(
            before,
            after,
        ))
    }

    /// `after` came from `before` by one step of `mutate_prob` for each
    /// position from the first mutable one up to but without `upto`, in
    /// rising order, each step on the genotype as the steps before left it.
    pub open spec fn swept(before: Chromosome, after: Chromosome, upto: int, every: bool) -> bool
        decreases upto - Self::spec_first_mutable(before.params),
    {
        if upto <= Self::spec_first_mutable(before.params) {
            Self::same_genotype(before, after)
        } else {
            exists|mid: Chromosome, position: int|
                position == upto - 1 && Self::swept(before, mid, position, every)
                    && #[trigger] Self::sweep_step(mid, after, position, every)
        }
    }

    /// The node at position `q` of `after` is what one step of
    /// `mutate_prob` has made of the node at `q` of `before`: a step on
    /// some valid genotype that held the node as `before` holds it.
    pub open spec fn visited_once(before: Chromosome, after: Chromosome, q: int, every: bool) -> bool {
        exists|mid: Chromosome, next: Chromosome| #[trigger]
            Self::sweep_step(mid, next, q, every) && 0 <= q < mid.nodes_grid@.len() && q
                < next.nodes_grid@.len() && q < before.nodes_grid@.len() && q
                < after.nodes_grid@.len() && mid.nodes_grid@[q] == before.nodes_grid@[q]
                && next.nodes_grid@[q] == after.nodes_grid@[q]
    }

    /// No node of a valid genotype depends on itself: the graph of all
    /// connections of the computational and output nodes has no cycle.
    pub proof fn lemma_acyclic(&self)
        requires
            self.sound(),
        ensures
            !has_cycle(dependency_edges(self.nodes_grid@)),
    {
        lemma_tracked_acyclic(self.params, self.nodes_grid@, self.cgp_edges@);
    }

    /// In the cached execution order of a valid genotype, every position
    /// comes after the positions whose values it uses.
    pub proof fn lemma_active_order_valid(&self, j: int, source: int)
        requires
            self.wf(),
            self.active_nodes is Some,
            0 <= j < self.active_nodes->0@.len(),
            uses(self.nodes_grid@[self.active_nodes->0@[j] as int], source),
        ensures
            exists|i: int| 0 <= i < j && self.active_nodes->0@[i] == source,
    {
        let order = self.active_nodes->0@;
        assert(order.contains(order[j]));
        lemma_active_in_range(self.params, self.nodes_grid@, order[j] as int);
        assert(used_edges(self.nodes_grid@).contains((source, order[j] as int)));
    }

    /// A mutation of one node changes one gene of that node and nothing
    /// else in the node array: the other nodes stay as they were, and of the
    /// mutated node at most one of the two connections and the function id
    /// differs from before.
    pub proof fn lemma_mutation_is_local(before: Chromosome, after: Chromosome, position: int)
        requires
            Self::one_mutation(before, after, position),
        ensures
            forall|q: int|
                0 <= q < before.nodes_grid@.len() && q != position ==> after.nodes_grid@[q]
                    == before.nodes_grid@[q],
            after.nodes_grid@[position].position == before.nodes_grid@[position].position,
            after.nodes_grid@[position].node_type == before.nodes_grid@[position].node_type,
            Self::genes_apart(before.nodes_grid@[position], after.nodes_grid@[position]) <= 1,
    {
    }

    /// In how many of the two connections and the function id two nodes
    /// differ.
    pub open spec fn genes_apart(before: NodeDAG, after: NodeDAG) -> int {
        (if after.connection0 != before.connection0 {
            1int
        } else {
            0int
        }) + (if after.connection1 != before.connection1 {
            1int
        } else {
            0int
        }) + (if after.function_id != before.function_id {
            1int
        } else {
            0int
        })
    }

    /// What `mutate_single` does to the nodes that count: of the nodes
    /// that were active, one was mutated, in at most one gene, and all
    /// others are as they were. Only nodes that were not active may have
    /// changed besides.
    pub proof fn lemma_single_mutation_is_local(before: Chromosome, after: Chromosome)
        requires
            Self::is_single_mutation(before, after),
        ensures
            exists|p: int|
                Self::spec_first_mutable(before.params) <= p < before.nodes_grid@.len()
                    && #[trigger] is_active(before.nodes_grid@, p) && after.nodes_grid@[p].position
                    == before.nodes_grid@[p].position && after.nodes_grid@[p].node_type
                    == before.nodes_grid@[p].node_type && Self::genes_apart(
                    before.nodes_grid@[p],
                    after.nodes_grid@[p],
                ) <= 1 && forall|q: int|
                    0 <= q < before.nodes_grid@.len() && q != p && is_active(before.nodes_grid@, q)
                        ==> after.nodes_grid@[q] == before.nodes_grid@[q],
    {
        let (steps, before_last, position) = choose|
            steps: nat,
            before_last: Chromosome,
            position: int,
        | #[trigger] Self::single_mutation_by(before, after, steps, before_last, position);
        assert(before_last.nodes_grid@[position] == before.nodes_grid@[position]);
        assert forall|q: int|
            0 <= q < before.nodes_grid@.len() && q != position && is_active(
                before.nodes_grid@,
                q,
            ) implies after.nodes_grid@[q] == before.nodes_grid@[q] by {
            assert(before_last.nodes_grid@[q] == before.nodes_grid@[q]);
        }
    }

    /// Where every node that may be mutated is active, `mutate_single`
    /// mutates one node of the genotype as it was, and no other node
    /// changes.
    pub proof fn lemma_single_mutation_without_miss(before: Chromosome, after: Chromosome)
        requires
            Self::is_single_mutation(before, after),
            forall|q: int|
                Self::spec_first_mutable(before.params) <= q < before.nodes_grid@.len()
                    ==> is_active(before.nodes_grid@, q),
        ensures
            exists|p: int|
                Self::spec_first_mutable(before.params) <= p < before.nodes_grid@.len()
                    && #[trigger] before.nodes_grid@[p].mutated_to(
                    after.nodes_grid@[p],
                    before.cgp_edges@,
                    after.cgp_edges@,
                ) && forall|q: int|
                    0 <= q < before.nodes_grid@.len() && q != p ==> after.nodes_grid@[q]
                        == before.nodes_grid@[q],
    {
        let (steps, before_last, position) = choose|
            steps: nat,
            before_last: Chromosome,
            position: int,
        | #[trigger] Self::single_mutation_by(before, after, steps, before_last, position);
        assert(steps == 0);
        assert(before.nodes_grid@[position].mutated_to(
            after.nodes_grid@[position],
            before.cgp_edges@,
            after.cgp_edges@,
        ));
    }

    /// What `mutate_prob` does to one node: its position and role stay, and
    /// at most one of its genes is redrawn. Where `every` node is mutated,
    /// an output node that has another node to turn to reads from another
    /// node than before.
    pub proof fn lemma_visited_once(before: Chromosome, after: Chromosome, q: int, every: bool)
        requires
            Self::visited_once(before, after, q, every),
        ensures
            after.nodes_grid@[q].position == before.nodes_grid@[q].position,
            after.nodes_grid@[q].node_type == before.nodes_grid@[q].node_type,
            Self::genes_apart(before.nodes_grid@[q], after.nodes_grid@[q]) <= 1,
            every && before.nodes_grid@[q].node_type == NodeType::OutputNode
                && before.nodes_grid@[q].spec_nbr_inner() >= 2 ==> Self::genes_apart(
                before.nodes_grid@[q],
                after.nodes_grid@[q],
            ) == 1,
    {
        let (mid, next) = choose|mid: Chromosome, next: Chromosome| #[trigger]
            Self::sweep_step(mid, next, q, every) && 0 <= q < mid.nodes_grid@.len() && q
                < next.nodes_grid@.len() && q < before.nodes_grid@.len() && q
                < after.nodes_grid@.len() && mid.nodes_grid@[q] == before.nodes_grid@[q]
                && next.nodes_grid@[q] == after.nodes_grid@[q];
    }

    /// The first position that `mutate_single` and `mutate_prob` may
    /// mutate. It is the first computational node, but for one case: with
    /// the regression functions and a single input the first computational
    /// node can read from that input alone, so it is left out.
    pub open spec fn spec_first_mutable(params: CgpParameters) -> int {
        if params.function_set == FunctionSet::Regression && params.nbr_inputs == 1 {
            2
        } else {
            params.nbr_inputs as int
        }
    }

    /// The first position that `mutate_single` and `mutate_prob` may
    /// mutate.
    pub fn first_mutable(&self) -> (position: usize)
        requires
            self.params.valid(),
        ensures
            position == Self::spec_first_mutable(self.params),
            self.params.nbr_inputs <= position <= self.params.spec_nbr_inner(),
    {
        match self.params.function_set {
            FunctionSet::Regression => if self.params.nbr_inputs == 1 {
                2
            } else {
                self.params.nbr_inputs
            },
            FunctionSet::Boolean => self.params.nbr_inputs,
        }
    }

    /// Applies one mutation to the node at `position` and to no other
    /// node: of an output node its connection is redrawn, of a
    /// computational node one of its connections or its function id. The
    /// tracker follows, and no cycle arises. The cached execution order is
    /// dropped unless the node came out as it was, which happens only
    /// where a connection has no other legal value.
    pub fn mutate_node(&mut self, position: usize)
        requires
            old(self).wf(),
            old(self).params.nbr_inputs <= position < old(self).nodes_grid@.len(),
        ensures
            final(self).wf(),
            final(self).params == old(self).params,
            final(self).output_node_ids == old(self).output_node_ids,
            final(self).nodes_grid@.len() == old(self).nodes_grid@.len(),
            forall|q: int|
                0 <= q < old(self).nodes_grid@.len() && q != position ==> final(self).nodes_grid@[q]
                    == old(self).nodes_grid@[q],
            old(self).nodes_grid@[position as int].mutated_to(
                final(self).nodes_grid@[position as int],
                old(self).cgp_edges@,
                final(self).cgp_edges@,
            ),
            final(self).active_nodes == (if final(self).nodes_grid@[position as int]
                == old(self).nodes_grid@[position as int] {
                old(self).active_nodes
            } else {
                None
            }),
    {
        let before = self.nodes_grid[position];
        let mut node = before;
        proof {
            assert(node_in_place(self.params, before, position as int));
        }
        node.mutate(&mut self.cgp_edges);
        let changed = node.connection0 != before.connection0 || node.connection1
            != before.connection1 || node.function_id != before.function_id;
        self.nodes_grid[position] = node;
        if changed {
            self.active_nodes = None;
        }
        proof {
            let rows_before = old(self).cgp_edges@;
            let rows_after = self.cgp_edges@;
            assert(before.mutated_to(node, rows_before, rows_after));
            assert forall|q: int| 0 <= q < self.nodes_grid@.len() implies node_in_place(
                self.params,
                #[trigger] self.nodes_grid@[q],
                q,
            ) by {
                assert(node_in_place(old(self).params, old(self).nodes_grid@[q], q));
            }
            assert forall|q: int| 0 <= q < rows_after.len() implies (
            #[trigger] self.nodes_grid@[q]).tracked_by(rows_after) by {
                assert(old(self).nodes_grid@[q].tracked_by(rows_before));
                assert(node_in_place(old(self).params, old(self).nodes_grid@[q], q));
                if q == position {
                    assert(rows_after[q] =~= Multiset::<usize>::empty().insert(
                        node.connection0,
                    ).insert(node.connection1));
                }
            }
            if !changed {
                assert(self.nodes_grid@ =~= old(self).nodes_grid@);
            }
        }
    }

    /// Mutates random positions that are no input, one at a time, until a
    /// position is hit that is in the cached execution order. The order
    /// has to be cached; it is the order as it was before the call that
    /// counts. After `64 * n` misses in a genotype of `n` nodes the last
    /// position is drawn among the active ones, so that the call always
    /// returns.
    pub fn mutate_single(&mut self)
        requires
            old(self).wf(),
            old(self).active_nodes is Some,
        ensures
            final(self).wf(),
            final(self).params == old(self).params,
            final(self).output_node_ids == old(self).output_node_ids,
            final(self).nodes_grid@.len() == old(self).nodes_grid@.len(),
            forall|q: int|
                0 <= q < Self::spec_first_mutable(old(self).params) ==> final(self).nodes_grid@[q]
                    == old(self).nodes_grid@[q],
            Self::is_single_mutation(*old(self), *final(self)),
    {
        let ghost mut before_last = *self;
        let ghost mut hit = 0int;
        let ghost mut steps = 0nat;
        let ghost nodes = self.nodes_grid@;
        let active = copy_of(self.active_nodes.as_ref().unwrap());
        let start_id = self.first_mutable();
        let end_id = self.nodes_grid.len();
        let nbr_inner = self.params.nbr_inputs + self.params.nbr_computational_nodes;
        proof {
            assert(is_active_order(nodes, active@));
            assert(node_in_place(self.params, nodes[nbr_inner as int], nbr_inner as int));
            lemma_output_is_active(nodes, nbr_inner as int);
            assert(active@.contains(nbr_inner));
            assert forall|i: int| 0 <= i < active@.len() implies active@[i] < end_id by {
                assert(active@.contains(active@[i]));
                lemma_active_in_range(self.params, nodes, active@[i] as int);
            }
        }
        let mut misses_left: u64 = 64 * (end_id as u64);
        let mut landed = false;
        while !landed
            invariant
                self.wf(),
                self.params == old(self).params,
                self.output_node_ids == old(self).output_node_ids,
                self.nodes_grid@.len() == old(self).nodes_grid@.len(),
                nodes == old(self).nodes_grid@,
                end_id == self.nodes_grid@.len(),
                start_id == Self::spec_first_mutable(self.params),
                self.params.nbr_inputs <= start_id <= nbr_inner,
                nbr_inner == self.params.spec_nbr_inner(),
                is_active_order(nodes, active@),
                active@.contains(nbr_inner),
                forall|i: int| 0 <= i < active@.len() ==> active@[i] < end_id,
                forall|q: int| 0 <= q < start_id ==> self.nodes_grid@[q] == nodes[q],
                !landed ==> Self::reached_by_misses(*old(self), *self, steps),
                !landed ==> forall|q: int|
                    0 <= q < end_id && is_active(nodes, q) ==> #[trigger] self.nodes_grid@[q]
                        == nodes[q],
                landed ==> Self::reached_by_misses(*old(self), before_last, steps),
                landed ==> forall|q: int|
                    0 <= q < end_id && is_active(nodes, q) ==> #[trigger] before_last.nodes_grid@[q]
                        == nodes[q],
                landed ==> start_id <= hit && is_active(nodes, hit) && Self::one_mutation(
                    before_last,
                    *self,
                    hit,
                ),
            decreases misses_left + (if landed { 0int } else { 1int }),
        {
            let position = if misses_left == 0 {
                let candidates = positions_from(&active, start_id);
                proof {
                    assert(candidates@.contains(nbr_inner));
                }
                candidates[random_below(candidates.len())]
            } else {
                start_id + random_below(end_id - start_id)
            };
            proof {
                before_last = *self;
                hit = position as int;
            }
            self.mutate_node(position);
            proof {
                assert(Self::one_mutation(before_last, *self, position as int));
            }
            if misses_left == 0 || vec_contains(&active, position) {
                landed = true;
            } else {
                proof {
                    steps = steps + 1;
                }
                misses_left -= 1;
            }
        }
        proof {
            assert(Self::single_mutation_by(*old(self), *self, steps, before_last, hit));
        }
    }

    /// Mutates every position that is no input with the probability
    /// `threshold / 16_777_216`, each independently of the others: the
    /// positions are taken in rising order, for each one of 16 777 216
    /// numbers is drawn, and the node is mutated, in the genotype as it
    /// stands then, if the number is below `threshold`. No execution order
    /// has to be cached.
    pub fn mutate_prob(&mut self, threshold: usize)
        requires
            old(self).wf(),
        ensures
            final(self).wf(),
            final(self).params == old(self).params,
            final(self).output_node_ids == old(self).output_node_ids,
            final(self).nodes_grid@.len() == old(self).nodes_grid@.len(),
            forall|q: int|
                0 <= q < Self::spec_first_mutable(old(self).params) ==> final(self).nodes_grid@[q]
                    == old(self).nodes_grid@[q],
            threshold == 0 ==> final(self).nodes_grid@ == old(self).nodes_grid@
                && final(self).active_nodes == old(self).active_nodes,
            Self::swept(
                *old(self),
                *final(self),
                old(self).nodes_grid@.len() as int,
                threshold >= 16_777_216,
            ),
            threshold >= 16_777_216 ==> forall|q: int|
                Self::spec_first_mutable(old(self).params) <= q < old(self).nodes_grid@.len()
                    ==> #[trigger] Self::visited_once(*old(self), *final(self), q, true),
            threshold < 16_777_216 ==> forall|q: int|
                Self::spec_first_mutable(old(self).params) <= q < old(self).nodes_grid@.len()
                    ==> #[trigger] Self::visited_once(*old(self), *final(self), q, false),
    {
        let ghost every = threshold >= 16_777_216;
        let start_id = self.first_mutable();
        let end_id = self.nodes_grid.len();
        let mut node_id = start_id;
        while node_id < end_id
            invariant
                self.wf(),
                self.params == old(self).params,
                self.output_node_ids == old(self).output_node_ids,
                self.nodes_grid@.len() == old(self).nodes_grid@.len(),
                end_id == self.nodes_grid@.len(),
                every == (threshold >= 16_777_216),
                self.params.nbr_inputs <= start_id <= node_id <= end_id,
                start_id == Self::spec_first_mutable(self.params),
                forall|q: int|
                    0 <= q < start_id ==> self.nodes_grid@[q] == old(self).nodes_grid@[q],
                threshold == 0 ==> self.nodes_grid@ == old(self).nodes_grid@ && self.active_nodes
                    == old(self).active_nodes,
                forall|q: int|
                    node_id <= q < end_id ==> self.nodes_grid@[q] == old(self).nodes_grid@[q],
                Self::swept(*old(self), *self, node_id as int, every),
                forall|q: int|
                    start_id <= q < node_id ==> #[trigger] Self::visited_once(
                        *old(self),
                        *self,
                        q,
                        every,
                    ),
            decreases end_id - node_id,
        {
            let random_prob = random_below(16_777_216);
            let ghost before = *self;
            if random_prob < threshold {
                self.mutate_node(node_id);
                proof {
                    assert(Self::one_mutation(before, *self, node_id as int));
                }
            }
            proof {
                assert(Self::sweep_step(before, *self, node_id as int, every));
                assert(Self::swept(*old(self), *self, node_id + 1, every));
                assert forall|q: int| start_id <= q < node_id + 1 implies #[trigger] Self::visited_once(
                    *old(self),
                    *self,
                    q,
                    every,
                ) by {
                    if q < node_id {
                        assert(Self::visited_once(*old(self), before, q, every));
                        let (mid, next) = choose|mid: Chromosome, next: Chromosome| #[trigger]
                            Self::sweep_step(mid, next, q, every) && 0 <= q < mid.nodes_grid@.len()
                                && q < next.nodes_grid@.len() && q < old(self).nodes_grid@.len()
                                && q < before.nodes_grid@.len() && mid.nodes_grid@[q] == old(self).nodes_grid@[q] && next.nodes_grid@[q] == before.nodes_grid@[q];
                        assert(Self::sweep_step(mid, next, q, every));
                    }
                }
            }
            node_id += 1;
        }
    }

    /// Renumbers the computational nodes into a topological order, so that
    /// every connection names an earlier position, then builds the tracker
    /// anew and computes the execution order. Input and output nodes keep
    /// their positions. Which of the topological orders is taken is left to
    /// the sort.
    pub fn unravel(&mut self)
        requires
            old(self).sound(),
        ensures
            exists|order: Seq<usize>| #[trigger]
                is_computational_order(old(self).params, old(self).nodes_grid@, order)
                    && final(self).nodes_grid@ == renumbered(
                    old(self).params,
                    old(self).nodes_grid@,
                    order,
                ),
            causal(final(self).nodes_grid@),
            final(self).params == old(self).params,
            final(self).output_node_ids == old(self).output_node_ids,
            final(self).active_nodes is Some,
            final(self).wf(),
    {
        let sorted = self.sorted_computational_nodes();
        self.renumber(&sorted);
    }

    /// A topological order of the computational nodes: each of their
    /// positions once, every node after the computational nodes that it
    /// has a connection to.
    pub fn sorted_computational_nodes(&self) -> (sorted: Vec<usize>)
        requires
            self.sound(),
        ensures
            is_computational_order(self.params, self.nodes_grid@, sorted@),
    {
        let ghost nodes = self.nodes_grid@;
        let ghost deps = dependency_edges(nodes);
        let nbr_inputs = self.params.nbr_inputs;
        let nbr_inner = self.params.nbr_inputs + self.params.nbr_computational_nodes;
        let nbr_nodes = self.nodes_grid.len();
        let mut topo_graph = self.get_dependency_graph();
        let mut node_id: usize = 0;
        while node_id < nbr_inputs
            invariant
                self.structure_ok(),
                nodes == self.nodes_grid@,
                deps == dependency_edges(nodes),
                nbr_inputs <= nbr_nodes,
                nbr_nodes == nodes.len(),
                node_id <= nbr_inputs,
                graph_nodes(topo_graph).len() == nbr_nodes,
                forall|p: int| 0 <= p < nbr_nodes ==> (graph_nodes(topo_graph)[p] <==> p >= node_id),
                forall|e: (int, int)|
                    #![trigger edge_set(graph_edges(topo_graph)).contains(e)]
                    #![trigger deps.contains(e)]
                    edge_set(graph_edges(topo_graph)).contains(e) <==> deps.contains(e) && e.0
                        >= node_id && e.1 >= node_id,
            decreases nbr_inputs - node_id,
        {
            let ghost slots = graph_edges(topo_graph);
            graph_remove_node(&mut topo_graph, node_id);
            proof {
                lemma_edge_set_without(slots, node_id as int);
            }
            node_id += 1;
        }
        let mut node_id: usize = nbr_inner;
        while node_id < nbr_nodes
            invariant
                self.structure_ok(),
                nodes == self.nodes_grid@,
                deps == dependency_edges(nodes),
                nbr_inputs <= nbr_inner <= nbr_nodes,
                nbr_nodes == nodes.len(),
                nbr_inner <= node_id <= nbr_nodes,
                graph_nodes(topo_graph).len() == nbr_nodes,
                forall|p: int|
                    0 <= p < nbr_nodes ==> (graph_nodes(topo_graph)[p] <==> p >= nbr_inputs && !(
                    nbr_inner <= p < node_id)),
                forall|e: (int, int)|
                    #![trigger edge_set(graph_edges(topo_graph)).contains(e)]
                    #![trigger deps.contains(e)]
                    edge_set(graph_edges(topo_graph)).contains(e) <==> deps.contains(e) && e.0
                        >= nbr_inputs && e.1 >= nbr_inputs && !(nbr_inner <= e.0 < node_id) && !(
                    nbr_inner <= e.1 < node_id),
            decreases nbr_nodes - node_id,
        {
            let ghost slots = graph_edges(topo_graph);
            graph_remove_node(&mut topo_graph, node_id);
            proof {
                lemma_edge_set_without(slots, node_id as int);
            }
            node_id += 1;
        }
        proof {
            lemma_tracked_acyclic(self.params, nodes, self.cgp_edges@);
            assert(edge_set(graph_edges(topo_graph)).subset_of(deps));
            lemma_acyclic_monotone(edge_set(graph_edges(topo_graph)), deps);
        }
        let sorted = match graph_toposort(&topo_graph) {
            Ok(order) => order,
            Err(_) => {
                // The sort fails on a cycle alone, and a sound genotype has none.
                proof {
                    assert(false);
                }
                Vec::new()
            },
        };
        proof {
            let places = graph_nodes(topo_graph);
            let slots = graph_edges(topo_graph);
            assert(is_topological_order(sorted@, places, slots));
            assert forall|p: usize| #[trigger] sorted@.contains(p) <==> is_computational(
                self.params,
                p as int,
            ) by {
                if is_computational(self.params, p as int) {
                    assert(occupied(places, p as int));
                }
            }
            assert forall|i: int, j: int|
                0 <= i < sorted@.len() && 0 <= j < sorted@.len() && #[trigger] deps.contains(
                    (sorted@[i] as int, sorted@[j] as int),
                ) implies i < j by {
                assert(sorted@.contains(sorted@[i]));
                assert(sorted@.contains(sorted@[j]));
                assert(edge_set(slots).contains((sorted@[i] as int, sorted@[j] as int)));
            }
        }
        sorted
    }

    /// Renumbers the computational nodes by `sorted`, a topological order
    /// of them: the node that `sorted` names first comes to stand behind
    /// the last input, the next one behind it, and so on, and every
    /// connection is rewritten to name the new position of its target.
    /// Then the tracker is built anew and the execution order computed.
    pub fn renumber(&mut self, sorted: &Vec<usize>)
        requires
            old(self).structure_ok(),
            is_computational_order(old(self).params, old(self).nodes_grid@, sorted@),
        ensures
            final(self).nodes_grid@ == renumbered(
                old(self).params,
                old(self).nodes_grid@,
                sorted@,
            ),
            causal(final(self).nodes_grid@),
            final(self).params == old(self).params,
            final(self).output_node_ids == old(self).output_node_ids,
            final(self).active_nodes is Some,
            final(self).wf(),
    {
        self.create_new_genotype(sorted);
        self.renew_graph_dependencies();
        proof {
            lemma_causal_acyclic(self.nodes_grid@);
            lemma_acyclic_monotone(self.cgp_edges.feeds(), dependency_edges(self.nodes_grid@));
        }
        self.get_active_nodes_id();
    }

    /// The graph of all nodes with an edge for every connection, from the
    /// position that is read to the node that reads it.
    fn get_dependency_graph(&self) -> (graph: StableGraph<usize, (), petgraph::Directed, u32>)
        requires
            self.structure_ok(),
        ensures
            graph_nodes(graph).len() == self.nodes_grid@.len(),
            forall|p: int| 0 <= p < self.nodes_grid@.len() ==> graph_nodes(graph)[p],
            edge_set(graph_edges(graph)) == dependency_edges(self.nodes_grid@),
    {
        let nbr_nodes = self.nodes_grid.len();
        let ghost nodes = self.nodes_grid@;
        let ghost deps = dependency_edges(nodes);
        let mut graph = graph_new();
        let mut i: usize = 0;
        while i < nbr_nodes
            invariant
                self.structure_ok(),
                nbr_nodes == self.nodes_grid@.len(),
                i <= nbr_nodes,
                graph_nodes(graph).len() == i,
                forall|p: int| 0 <= p < i ==> graph_nodes(graph)[p],
                graph_edges(graph).len() == 0,
            decreases nbr_nodes - i,
        {
            graph_add_node(&mut graph, i);
            i += 1;
        }
        proof {
            lemma_edge_set_empty(graph_edges(graph));
        }
        let mut current_node_id: usize = 0;
        while current_node_id < nbr_nodes
            invariant
                self.structure_ok(),
                nodes == self.nodes_grid@,
                deps == dependency_edges(nodes),
                nbr_nodes == nodes.len(),
                current_node_id <= nbr_nodes,
                graph_nodes(graph).len() == nbr_nodes,
                forall|p: int| 0 <= p < nbr_nodes ==> graph_nodes(graph)[p],
                forall|x: int| 0 <= x < graph_edges(graph).len() ==> graph_edges(graph)[x] is Some,
                graph_edges(graph).len() <= 2 * current_node_id,
                forall|e: (int, int)|
                    #![trigger edge_set(graph_edges(graph)).contains(e)]
                    #![trigger deps.contains(e)]
                    edge_set(graph_edges(graph)).contains(e) <==> deps.contains(e) && e.1
                        < current_node_id,
            decreases nbr_nodes - current_node_id,
        {
            let current_node = self.nodes_grid[current_node_id];
            proof {
                assert(node_in_place(self.params, current_node, current_node_id as int));
            }
            match current_node.node_type {
                NodeType::InputNode => {},
                NodeType::ComputationalNode => {
                    let ghost slots = graph_edges(graph);
                    graph_add_edge(&mut graph, current_node.connection0, current_node.position);
                    proof {
                        lemma_edge_set_push(
                            slots,
                            (current_node.connection0 as int, current_node.position as int),
                        );
                    }
                    let ghost slots = graph_edges(graph);
                    graph_add_edge(&mut graph, current_node.connection1, current_node.position);
                    proof {
                        lemma_edge_set_push(
                            slots,
                            (current_node.connection1 as int, current_node.position as int),
                        );
                    }
                },
                NodeType::OutputNode => {
                    let ghost slots = graph_edges(graph);
                    graph_add_edge(&mut graph, current_node.connection0, current_node.position);
                    proof {
                        lemma_edge_set_push(
                            slots,
                            (current_node.connection0 as int, current_node.position as int),
                        );
                    }
                },
            }
            proof {
                assert forall|e: (int, int)|
                    #![trigger edge_set(graph_edges(graph)).contains(e)]
                    #![trigger deps.contains(e)]
                    edge_set(graph_edges(graph)).contains(e) <==> deps.contains(e) && e.1
                        < current_node_id + 1 by {
                    if e.1 == current_node_id {
                        assert(deps.contains(e) <==> reads(current_node, e.0));
                    }
                }
            }
            current_node_id += 1;
        }
        proof {
            assert(edge_set(graph_edges(graph)) =~= deps);
        }
        graph
    }

    /// For every position the position that its node gets by renumbering
    /// the computational nodes by `sorted`.
    fn get_new_locations_mapping(&self, sorted: &Vec<usize>) -> (new_location: Vec<usize>)
        requires
            self.structure_ok(),
            is_computational_order(self.params, self.nodes_grid@, sorted@),
        ensures
            new_location@.len() == self.nodes_grid@.len(),
            forall|p: int|
                0 <= p < new_location@.len() ==> new_location@[p] == crate::dag::renumbering::new_location(
                    self.params,
                    sorted@,
                    p,
                ),
    {
        let nbr_nodes = self.nodes_grid.len();
        let nbr_inputs = self.params.nbr_inputs;
        let mut new_location: Vec<usize> = Vec::new();
        let mut node_id: usize = 0;
        while node_id < nbr_nodes
            invariant
                node_id <= nbr_nodes,
                new_location@.len() == node_id,
                forall|p: int| 0 <= p < node_id ==> new_location@[p] == p,
            decreases nbr_nodes - node_id,
        {
            new_location.push(node_id);
            node_id += 1;
        }
        proof {
            lemma_order_length(self.params, self.nodes_grid@, sorted@);
        }
        let mut location: usize = 0;
        while location < sorted.len()
            invariant
                self.structure_ok(),
                is_computational_order(self.params, self.nodes_grid@, sorted@),
                nbr_nodes == self.nodes_grid@.len(),
                nbr_inputs == self.params.nbr_inputs,
                sorted@.len() == self.params.nbr_computational_nodes,
                location <= sorted@.len(),
                new_location@.len() == nbr_nodes,
                forall|p: int|
                    0 <= p < nbr_nodes && !is_computational(self.params, p) ==> new_location@[p]
                        == p,
                forall|k: int|
                    0 <= k < location ==> new_location@[#[trigger] sorted@[k] as int] == nbr_inputs
                        + k,
            decreases sorted@.len() - location,
        {
            let node_id = sorted[location];
            proof {
                assert(sorted@.contains(node_id));
            }
            let ghost before = new_location@;
            new_location[node_id] = location + nbr_inputs;
            proof {
                assert forall|k: int|
                    0 <= k < location + 1 implies new_location@[#[trigger] sorted@[k] as int]
                    == nbr_inputs + k by {
                    assert(sorted@.contains(sorted@[k]));
                    if k < location {
                        assert(sorted@[k] != sorted@[location as int]);
                    }
                }
            }
            location += 1;
        }
        proof {
            assert forall|p: int| 0 <= p < new_location@.len() implies new_location@[p]
                == crate::dag::renumbering::new_location(self.params, sorted@, p) by {
                if is_computational(self.params, p) {
                    assert(sorted@.contains(p as usize));
                    lemma_entry_at_index(sorted@, p as usize);
                }
            }
        }
        new_location
    }

    /// Puts every computational node at its place in `sorted` and rewrites
    /// all connections. The tracker and the cache are not touched.
    fn create_new_genotype(&mut self, sorted: &Vec<usize>)
        requires
            old(self).structure_ok(),
            is_computational_order(old(self).params, old(self).nodes_grid@, sorted@),
        ensures
            final(self).nodes_grid@ == renumbered(
                old(self).params,
                old(self).nodes_grid@,
                sorted@,
            ),
            causal(final(self).nodes_grid@),
            final(self).structure_ok(),
            final(self).params == old(self).params,
            final(self).output_node_ids == old(self).output_node_ids,
            final(self).active_nodes == old(self).active_nodes,
            final(self).cgp_edges == old(self).cgp_edges,
    {
        let new_mapping = self.get_new_locations_mapping(sorted);
        let nbr_nodes = self.nodes_grid.len();
        let nbr_inputs = self.params.nbr_inputs;
        let nbr_inner = self.params.nbr_inputs + self.params.nbr_computational_nodes;
        let ghost nodes = self.nodes_grid@;
        let ghost params = self.params;
        proof {
            lemma_order_length(params, nodes, sorted@);
        }
        let mut new_nodes_grid: Vec<NodeDAG> = Vec::new();
        let mut node_id: usize = 0;
        while node_id < nbr_nodes
            invariant
                self.structure_ok(),
                *self == *old(self),
                nodes == self.nodes_grid@,
                params == self.params,
                is_computational_order(params, nodes, sorted@),
                sorted@.len() == params.nbr_computational_nodes,
                nbr_nodes == nodes.len(),
                nbr_inputs == params.nbr_inputs,
                nbr_inner == params.spec_nbr_inner(),
                new_mapping@.len() == nbr_nodes,
                forall|p: int|
                    0 <= p < nbr_nodes ==> new_mapping@[p] == new_location(params, sorted@, p),
                node_id <= nbr_nodes,
                new_nodes_grid@.len() == node_id,
                forall|q: int|
                    0 <= q < node_id ==> new_nodes_grid@[q] == relocated_node(
                        params,
                        sorted@,
                        nodes[old_location(params, sorted@, q)],
                    ),
            decreases nbr_nodes - node_id,
        {
            let old_id = if nbr_inputs <= node_id && node_id < nbr_inner {
                sorted[node_id - nbr_inputs]
            } else {
                node_id
            };
            proof {
                lemma_locations(params, nodes, sorted@, node_id as int);
                assert(node_in_place(params, nodes[old_id as int], old_id as int));
            }
            let mut node = self.nodes_grid[old_id];
            match node.node_type {
                NodeType::InputNode => {},
                NodeType::ComputationalNode => {
                    node.connection0 = new_mapping[node.connection0];
                    node.connection1 = new_mapping[node.connection1];
                    node.position = node_id;
                },
                NodeType::OutputNode => {
                    node.connection0 = new_mapping[node.connection0];
                },
            }
            new_nodes_grid.push(node);
            node_id += 1;
        }
        proof {
            assert(new_nodes_grid@ =~= renumbered(params, nodes, sorted@));
            lemma_renumbered_causal(params, nodes, sorted@);
        }
        self.nodes_grid = new_nodes_grid;
    }

    /// The cached execution order: the active positions, each after the
    /// positions whose values it uses. It is empty where no order is
    /// cached.
    pub fn active_positions(&self) -> (positions: Vec<usize>)
        ensures
            positions@ == (match self.active_nodes {
                Some(order) => order@,
                None => Seq::<usize>::empty(),
            }),
    {
        match &self.active_nodes {
            Some(order) => copy_of(order),
            None => Vec::new(),
        }
    }

    /// Finds the active nodes and puts them into an execution order, which
    /// is cached. The output nodes are always active; with a node, the
    /// nodes whose values it uses are. The order is a topological order of
    /// the active part of the graph.
    pub fn get_active_nodes_id(&mut self)
        requires
            old(self).sound(),
        ensures
            final(self).params == old(self).params,
            final(self).nodes_grid == old(self).nodes_grid,
            final(self).output_node_ids == old(self).output_node_ids,
            final(self).cgp_edges == old(self).cgp_edges,
            final(self).active_nodes is Some,
            is_active_order(final(self).nodes_grid@, final(self).active_nodes->0@),
            final(self).wf(),
    {
        let nbr_inner = self.params.nbr_inputs + self.params.nbr_computational_nodes;
        let ghost nodes = self.nodes_grid@;
        let (active, mut graph) = self.mark_active();
        proof {
            assert forall|e: (int, int)| #[trigger]
                active_edges(nodes).contains(e) implies is_active(nodes, e.0) && is_active(
                nodes,
                e.1,
            ) by {
                lemma_source_of_active(nodes, e.0, e.1);
            }
        }
        let mut i: usize = 0;
        while i < nbr_inner
            invariant
                self.structure_ok(),
                nodes == self.nodes_grid@,
                nbr_inner == self.params.spec_nbr_inner(),
                i <= nbr_inner,
                active@.len() == nodes.len(),
                forall|p: int| 0 <= p < nodes.len() ==> (active@[p] <==> is_active(nodes, p)),
                graph_nodes(graph).len() == nodes.len(),
                forall|p: int|
                    0 <= p < nodes.len() ==> (graph_nodes(graph)[p] <==> (p >= i || active@[p])),
                edge_set(graph_edges(graph)) == active_edges(nodes),
                forall|e: (int, int)| #[trigger]
                    active_edges(nodes).contains(e) ==> is_active(nodes, e.0) && is_active(
                        nodes,
                        e.1,
                    ),
            decreases nbr_inner - i,
        {
            if !active[i] {
                let ghost slots = graph_edges(graph);
                graph_remove_node(&mut graph, i);
                proof {
                    lemma_edge_set_without(slots, i as int);
                    assert(edge_set(graph_edges(graph)) =~= active_edges(nodes));
                }
            }
            i += 1;
        }
        proof {
            lemma_tracked_acyclic(self.params, nodes, self.cgp_edges@);
            lemma_used_are_dependencies(nodes);
            lemma_acyclic_monotone(active_edges(nodes), dependency_edges(nodes));
            assert forall|p: int| 0 <= p < nodes.len() implies (graph_nodes(graph)[p]
                <==> is_active(nodes, p)) by {
                if p >= nbr_inner {
                    assert(node_in_place(self.params, nodes[p], p));
                    lemma_output_is_active(nodes, p);
                }
            }
        }
        let order = match graph_toposort(&graph) {
            Ok(order) => order,
            Err(_) => {
                // The sort fails on a cycle alone, and a sound genotype has none.
                proof {
                    assert(false);
                }
                Vec::new()
            },
        };
        proof {
            let slots = graph_edges(graph);
            let places = graph_nodes(graph);
            assert(is_topological_order(order@, places, slots));
            assert forall|p: usize| #[trigger] order@.contains(p) <==> is_active(
                nodes,
                p as int,
            ) by {
                if is_active(nodes, p as int) {
                    lemma_active_in_range(self.params, nodes, p as int);
                    assert(occupied(places, p as int));
                }
            }
            assert forall|j: int, c: int|
                0 <= j < order@.len() && #[trigger] used_edges(nodes).contains(
                    (c, order@[j] as int),
                ) implies exists|i: int| 0 <= i < j && order@[i] == c by {
                let p = order@[j];
                assert(order@.contains(p));
                assert(active_edges(nodes).contains((c, p as int)));
                assert(is_active(nodes, c));
                lemma_active_in_range(self.params, nodes, c);
                assert(occupied(places, c));
                assert(order@.contains(c as usize));
                let i = choose|i: int| 0 <= i < order@.len() && order@[i] == c as usize;
                assert(edge_set(slots).contains((order@[i] as int, order@[j] as int)));
            }
        }
        self.active_nodes = Some(order);
    }

    /// Marks the active nodes, and builds the graph of all nodes with the
    /// used connections that lead into active nodes as its edges.
    fn mark_active(&self) -> (found: (Vec<bool>, StableGraph<usize, (), petgraph::Directed, u32>))
        requires
            self.structure_ok(),
        ensures
            found.0@.len() == self.nodes_grid@.len(),
            forall|p: int|
                0 <= p < self.nodes_grid@.len() ==> (found.0@[p] <==> is_active(
                    self.nodes_grid@,
                    p,
                )),
            graph_nodes(found.1).len() == self.nodes_grid@.len(),
            forall|p: int| 0 <= p < self.nodes_grid@.len() ==> graph_nodes(found.1)[p],
            edge_set(graph_edges(found.1)) == active_edges(self.nodes_grid@),
    {
        let nbr_nodes = self.nodes_grid.len();
        let ghost nodes = self.nodes_grid@;
        let ghost used = used_edges(nodes);
        let mut graph = graph_new();
        let mut i: usize = 0;
        while i < nbr_nodes
            invariant
                self.structure_ok(),
                nbr_nodes == self.nodes_grid@.len(),
                i <= nbr_nodes,
                graph_nodes(graph).len() == i,
                forall|p: int| 0 <= p < i ==> graph_nodes(graph)[p],
                graph_edges(graph).len() == 0,
            decreases nbr_nodes - i,
        {
            graph_add_node(&mut graph, i);
            i += 1;
        }
        let mut active = clear_marks(nbr_nodes);
        let mut to_visit: Vec<usize> = Vec::new();
        proof {
            lemma_unmarked_bound(active@);
        }
        let mut k: usize = 0;
        while k < self.output_node_ids.len()
            invariant
                self.structure_ok(),
                nodes == self.nodes_grid@,
                nbr_nodes == nodes.len(),
                k <= self.output_node_ids@.len(),
                active@.len() == nbr_nodes,
                unmarked(active@) + to_visit@.len() <= nbr_nodes,
                forall|p: int|
                    0 <= p < nbr_nodes ==> (active@[p] <==> self.params.spec_nbr_inner() <= p
                        < self.params.spec_nbr_inner() + k),
                forall|x: int|
                    0 <= x < to_visit@.len() ==> to_visit@[x] < nbr_nodes && active@[to_visit@[x] as int],
                forall|p: int| 0 <= p < nbr_nodes && active@[p] ==> to_visit@.contains(p as usize),
            decreases self.output_node_ids@.len() - k,
        {
            let output_node_id = self.output_node_ids[k];
            let ghost stack_before = to_visit@;
            proof {
                lemma_mark_one(active@, output_node_id as int);
            }
            active[output_node_id] = true;
            to_visit.push(output_node_id);
            proof {
                assert forall|p: int| 0 <= p < nbr_nodes && active@[p] implies to_visit@.contains(
                    p as usize,
                ) by {
                    if p == output_node_id {
                        assert(to_visit@[to_visit@.len() - 1] == output_node_id);
                    } else {
                        let x = choose|x: int|
                            0 <= x < stack_before.len() && stack_before[x] == p as usize;
                        assert(to_visit@[x] == p as usize);
                    }
                }
            }
            k += 1;
        }
        proof {
            lemma_edge_set_empty(graph_edges(graph));
            assert forall|p: int| 0 <= p < nbr_nodes && active@[p] implies is_active(nodes, p) by {
                assert(node_in_place(self.params, nodes[p], p));
                lemma_output_is_active(nodes, p);
            }
            assert forall|o: int| is_output_position(nodes, o) implies active@[o] by {
                assert(node_in_place(self.params, nodes[o], o));
            }
        }
        while to_visit.len() > 0
            invariant
                self.structure_ok(),
                nodes == self.nodes_grid@,
                used == used_edges(nodes),
                nbr_nodes == nodes.len(),
                active@.len() == nbr_nodes,
                graph_nodes(graph).len() == nbr_nodes,
                forall|p: int| 0 <= p < nbr_nodes ==> graph_nodes(graph)[p],
                forall|x: int| 0 <= x < graph_edges(graph).len() ==> graph_edges(graph)[x] is Some,
                graph_edges(graph).len() + 2 * (to_visit@.len() + unmarked(active@)) <= 2
                    * nbr_nodes,
                forall|x: int|
                    0 <= x < to_visit@.len() ==> to_visit@[x] < nbr_nodes && active@[to_visit@[x] as int],
                forall|p: int| 0 <= p < nbr_nodes && active@[p] ==> is_active(nodes, p),
                forall|o: int| is_output_position(nodes, o) ==> active@[o],
                forall|c: int, p: int|
                    0 <= p < nbr_nodes && active@[p] && #[trigger] used.contains((c, p)) ==> (0 <= c
                        < nbr_nodes && active@[c]) || to_visit@.contains(p as usize),
                forall|e: (int, int)| #[trigger]
                    edge_set(graph_edges(graph)).contains(e) ==> used.contains(e) && active@[e.1],
                forall|c: int, p: int|
                    0 <= p < nbr_nodes && active@[p] && #[trigger] used.contains((c, p))
                        ==> edge_set(graph_edges(graph)).contains((c, p)) || to_visit@.contains(
                        p as usize,
                    ),
            decreases 2 * unmarked(active@) + to_visit@.len(),
        {
            let ghost stack_before = to_visit@;
            let ghost marks_before = active@;
            let ghost edges_before = edge_set(graph_edges(graph));
            let current_node_id = to_visit.pop().unwrap();
            let current_node = self.nodes_grid[current_node_id];
            proof {
                assert(node_in_place(self.params, current_node, current_node_id as int));
                assert forall|y: usize|
                    stack_before.contains(y) && y != current_node_id implies to_visit@.contains(
                    y,
                ) by {
                    let x = choose|x: int| 0 <= x < stack_before.len() && stack_before[x] == y;
                    assert(to_visit@[x] == y);
                }
            }
            let ghost stack_popped = to_visit@;
            match current_node.node_type {
                NodeType::InputNode => {},
                NodeType::ComputationalNode => {
                    visit_source(
                        &mut graph,
                        &mut active,
                        &mut to_visit,
                        current_node.connection0,
                        current_node_id,
                    );
                    if current_node.function_set.arity(current_node.function_id) == 2 {
                        visit_source(
                            &mut graph,
                            &mut active,
                            &mut to_visit,
                            current_node.connection1,
                            current_node_id,
                        );
                    }
                },
                NodeType::OutputNode => {
                    visit_source(
                        &mut graph,
                        &mut active,
                        &mut to_visit,
                        current_node.connection0,
                        current_node_id,
                    );
                },
            }
            proof {
                let cur = current_node_id as int;
                let edges_after = edge_set(graph_edges(graph));
                assert forall|c: int| #[trigger] used.contains((c, cur)) implies 0 <= c < nbr_nodes
                    && active@[c] && edges_after.contains((c, cur)) by {
                    assert(uses(current_node, c));
                }
                assert forall|p: int| 0 <= p < nbr_nodes && active@[p] implies is_active(
                    nodes,
                    p,
                ) by {
                    if !marks_before[p] {
                        assert(uses(current_node, p));
                        assert(used.contains((p, cur)));
                        lemma_source_of_active(nodes, p, cur);
                    }
                }
                assert forall|c: int, p: int|
                    0 <= p < nbr_nodes && active@[p] && #[trigger] used.contains(
                        (c, p),
                    ) implies ((0 <= c < nbr_nodes && active@[c]) || to_visit@.contains(
                    p as usize,
                )) && (edges_after.contains((c, p)) || to_visit@.contains(p as usize)) by {
                    if p != cur {
                        if marks_before[p] {
                            if stack_before.contains(p as usize) {
                                assert(stack_popped.contains(p as usize));
                            }
                        }
                    }
                }
            }
        }
        proof {
            assert forall|p: int| 0 <= p < nbr_nodes implies (active@[p] <==> is_active(
                nodes,
                p,
            )) by {
                if is_active(nodes, p) {
                    lemma_marks_hold_active(nodes, active@, p);
                }
            }
            assert forall|e: (int, int)|
                edge_set(graph_edges(graph)).contains(e) <==> active_edges(nodes).contains(e) by {
                if active_edges(nodes).contains(e) {
                    lemma_marks_hold_active(nodes, active@, e.1);
                }
            }
            assert(edge_set(graph_edges(graph)) =~= active_edges(nodes));
        }
        (active, graph)
    }
}

/// Enters the edge from `source` to `reader` into the graph and, where
/// `source` is not marked yet, marks it and puts it on the stack of
/// positions to visit.
fn visit_source(
    graph: &mut StableGraph<usize, (), petgraph::Directed, u32>,
    active: &mut Vec<bool>,
    to_visit: &mut Vec<usize>,
    source: usize,
    reader: usize,
)
    requires
        occupied(graph_nodes(*old(graph)), source as int),
        occupied(graph_nodes(*old(graph)), reader as int),
        graph_nodes(*old(graph)).len() <= 0xffff_ffff,
        graph_edges(*old(graph)).len() < 0xffff_ffff,
        forall|x: int|
            0 <= x < graph_edges(*old(graph)).len() ==> graph_edges(*old(graph))[x] is Some,
        source < old(active)@.len(),
    ensures
        graph_nodes(*final(graph)) == graph_nodes(*old(graph)),
        graph_edges(*final(graph)) == graph_edges(*old(graph)).push(
            Some((source as int, reader as int)),
        ),
        edge_set(graph_edges(*final(graph))) == edge_set(graph_edges(*old(graph))).insert(
            (source as int, reader as int),
        ),
        final(active)@ == old(active)@.update(source as int, true),
        final(to_visit)@ == (if old(active)@[source as int] {
            old(to_visit)@
        } else {
            old(to_visit)@.push(source)
        }),
        forall|x: usize| old(to_visit)@.contains(x) ==> final(to_visit)@.contains(x),
        !old(active)@[source as int] ==> final(to_visit)@.contains(source),
        old(active)@[source as int] ==> unmarked(final(active)@) == unmarked(old(active)@),
        !old(active)@[source as int] ==> unmarked(final(active)@) + 1 == unmarked(old(active)@),
{
    graph_add_edge(graph, source, reader);
    proof {
        lemma_edge_set_push(graph_edges(*old(graph)), (source as int, reader as int));
    }
    if !active[source] {
        proof {
            lemma_mark_one(active@, source as int);
        }
        to_visit.push(source);
        active[source] = true;
        proof {
            assert(to_visit@[to_visit@.len() - 1] == source);
            assert forall|x: usize| old(to_visit)@.contains(x) implies to_visit@.contains(x) by {
                let k = choose|k: int| 0 <= k < old(to_visit)@.len() && old(to_visit)@[k] == x;
                assert(to_visit@[k] == x);
            }
        }
    } else {
        proof {
            assert(active@ =~= active@.update(source as int, true));
        }
    }
}

} // verus!
