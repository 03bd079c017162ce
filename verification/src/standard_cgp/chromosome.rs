//! The genotype with ordered positions: construction, evaluation, its
//! active nodes, and mutation.

use crate::dag::active_search::{
    active_marks, is_sorted_active, lemma_sorted_active_is_order, marked_positions,
};
use crate::dag::evaluation::{is_plan_of, plan_order, predictions, run_order, EvaluationStep};
use crate::dag::genotype::{
    causal, grid_ok, is_active, lemma_active_in_range, lemma_output_is_active, node_in_place,
    reads,
};
use crate::dag::node_dag::NodeDAG;
use crate::global_params::{CgpParameters, ParameterError};
use crate::reorder::chromosome_reorder_equidistant::is_spread;
use crate::standard_cgp::node::Node;
use crate::utils::fitness_metrics::{cells, fitness_boolean, spec_fitness_boolean, table_view};
use crate::utils::function_set::FunctionSet;
use crate::utils::node_type::NodeType;
use crate::utils::utility_funcs::{
    copy_of, position_range, positions_from, random_below, same_positions, vec_contains,
};
use vstd::prelude::*;

verus! {

/// One genotype in which every connection names an earlier position: the
/// order of the positions is an execution order, and no cycle can arise.
#[derive(Debug)]
pub struct Chromosome {
    pub params: CgpParameters,
    pub nodes_grid: Vec<Node>,
    pub output_node_ids: Vec<usize>,
    pub active_nodes: Option<Vec<usize>>,
}

/// The nodes as vertices of a dependency graph.
pub open spec fn genes_of(nodes: Seq<Node>) -> Seq<NodeDAG> {
    nodes.map_values(|node: Node| node.genes())
}

impl Clone for Chromosome {
    /// A genotype of its own with the same settings, nodes and cached
    /// order.
    fn clone(&self) -> (copy: Chromosome)
        ensures
            copy.params == self.params,
            copy.nodes_grid@ == self.nodes_grid@,
            copy.output_node_ids@ == self.output_node_ids@,
            copy.active_nodes is Some == self.active_nodes is Some,
            self.active_nodes is Some ==> copy.active_nodes->0@ == self.active_nodes->0@,
            self.wf() ==> copy.wf(),
    {
        let mut nodes_grid: Vec<Node> = Vec::new();
        let mut p: usize = 0;
        while p < self.nodes_grid.len()
            invariant
                p <= self.nodes_grid@.len(),
                nodes_grid@ == self.nodes_grid@.take(p as int),
            decreases self.nodes_grid@.len() - p,
        {
            nodes_grid.push(self.nodes_grid[p]);
            proof {
                assert(self.nodes_grid@.take(p + 1) =~= self.nodes_grid@.take(p as int).push(
                    self.nodes_grid@[p as int],
                ));
            }
            p += 1;
        }
        proof {
            assert(self.nodes_grid@.take(p as int) =~= self.nodes_grid@);
        }
        let active_nodes = match &self.active_nodes {
            Some(order) => Some(copy_of(order)),
            None => None,
        };
        Chromosome {
            params: self.params,
            nodes_grid,
            output_node_ids: copy_of(&self.output_node_ids),
            active_nodes,
        }
    }
}

impl Chromosome {
    /// The nodes as vertices of a dependency graph.
    pub open spec fn genes(&self) -> Seq<NodeDAG> {
        genes_of(self.nodes_grid@)
    }

    /// The positions of the output nodes: the last ones, in rising order.
    pub open spec fn spec_output_positions(params: CgpParameters) -> Seq<usize> {
        Seq::new(params.nbr_outputs as nat, |k: int| (params.spec_nbr_inner() + k) as usize)
    }

    /// The node array and the list of output positions are those of a
    /// genotype with the settings `params`, and every connection names an
    /// earlier position.
    pub open spec fn structure_ok(&self) -> bool {
        &&& grid_ok(self.params, self.genes())
        &&& causal(self.genes())
        &&& self.output_node_ids@ == Self::spec_output_positions(self.params)
    }

    /// The cached list of active nodes, where there is one, holds exactly
    /// the positions that are active in the node array as it is now, in
    /// rising order.
    pub open spec fn cache_ok(&self) -> bool {
        match self.active_nodes {
            Some(order) => is_sorted_active(self.genes(), order@),
            None => true,
        }
    }

    /// The genotype is valid.
    pub open spec fn wf(&self) -> bool {
        self.structure_ok() && self.cache_ok()
    }

    /// The first position that `mutate_single` may mutate. It is the first
    /// computational node, but for one case: with the regression functions
    /// and a single input the first computational node can read from that
    /// input alone, so it is left out.
    pub open spec fn spec_first_mutable(params: CgpParameters) -> int {
        if params.function_set == FunctionSet::Regression && params.nbr_inputs == 1 {
            2
        } else {
            params.nbr_inputs as int
        }
    }

    /// `after` came from the valid genotype `before` by one mutation of
    /// the node at `position`: one gene of that node was redrawn, and every
    /// other node stayed as it was.
    pub open spec fn one_mutation(before: Chromosome, after: Chromosome, position: int) -> bool {
        &&& before.wf()
        &&& after.params == before.params
        &&& after.nodes_grid@.len() == before.nodes_grid@.len()
        &&& 0 <= position < before.nodes_grid@.len()
        &&& before.nodes_grid@[position].mutated_to(after.nodes_grid@[position])
        &&& forall|q: int|
            0 <= q < before.nodes_grid@.len() && q != position ==> after.nodes_grid@[q]
                == before.nodes_grid@[q]
    }

    /// `after` has the settings and the nodes of `before`.
    pub open spec fn same_genotype(before: Chromosome, after: Chromosome) -> bool {
        after.params == before.params && after.nodes_grid@ == before.nodes_grid@
    }

    /// `after` came from `before` by `steps` mutations, one after the
    /// other, each of one node that `mutate_single` may mutate and that is
    /// not active in `before`: by `steps` misses.
    pub open spec fn reached_by_misses(before: Chromosome, after: Chromosome, steps: nat) -> bool
        decreases steps,
    {
        if steps == 0 {
            Self::same_genotype(before, after)
        } else {
            exists|mid: Chromosome, position: int|
                Self::reached_by_misses(before, mid, (steps - 1) as nat)
                    && Self::spec_first_mutable(before.params) <= position
                    < before.nodes_grid@.len() && !is_active(before.genes(), position)
                    && #[trigger] Self::one_mutation(mid, after, position)
        }
    }

    /// `after` came from `before` as `mutate_single` works: by `steps`
    /// misses, which led to `before_last` and left every node that is
    /// active in `before` as it was, and then by a mutation of the node at
    /// `position`, which is active in `before`.
    pub open spec fn single_mutation_by(
        before: Chromosome,
        after: Chromosome,
        steps: nat,
        before_last: Chromosome,
        position: int,
    ) -> bool {
        &&& Self::reached_by_misses(before, before_last, steps)
        &&& before_last.nodes_grid@.len() == before.nodes_grid@.len()
        &&& forall|q: int|
            0 <= q < before.nodes_grid@.len() && is_active(before.genes(), q)
                ==> #[trigger] before_last.nodes_grid@[q] == before.nodes_grid@[q]
        &&& Self::spec_first_mutable(before.params) <= position < before.nodes_grid@.len()
        &&& is_active(before.genes(), position)
        &&& Self::one_mutation(before_last, after, position)
    }

    /// `after` is what `mutate_single` may make of `before`: after some
    /// misses, each a mutation of a node that is not active in `before`,
    /// one node that is active in `before` was mutated.
    pub open spec fn is_single_mutation(before: Chromosome, after: Chromosome) -> bool {
        exists|steps: nat, before_last: Chromosome, position: int| #[trigger]
            Self::single_mutation_by(before, after, steps, before_last, position)
    }

    /// A chain of misses depends on the settings and the nodes of the
    /// genotype at its start alone.
    pub proof fn lemma_misses_same_start(
        before: Chromosome,
        after: Chromosome,
        steps: nat,
        start: Chromosome,
    )
        requires
            Self::reached_by_misses(before, after, steps),
            Self::same_genotype(before, start),
        ensures
            Self::reached_by_misses(start, after, steps),
        decreases steps,
    {
        if steps > 0 {
            let (mid, position) = choose|mid: Chromosome, position: int|
                Self::reached_by_misses(before, mid, (steps - 1) as nat)
                    && Self::spec_first_mutable(before.params) <= position
                    < before.nodes_grid@.len() && !is_active(before.genes(), position)
                    && #[trigger] Self::one_mutation(mid, after, position);
            Self::lemma_misses_same_start(before, mid, (steps - 1) as nat, start);
        }
    }

    /// Whether a genotype is what `mutate_single` may make of another
    /// depends on the settings and the nodes of the two alone.
    pub proof fn lemma_same_ends(
        before: Chromosome,
        after: Chromosome,
        start: Chromosome,
        end: Chromosome,
    )
        requires
            Self::is_single_mutation(before, after),
            Self::same_genotype(before, start),
            Self::same_genotype(after, end),
        ensures
            Self::is_single_mutation(start, end),
    {
        let (steps, before_last, position) = choose|
            steps: nat,
            before_last: Chromosome,
            position: int,
        | #[trigger] Self::single_mutation_by(before, after, steps, before_last, position);
        Self::lemma_misses_same_start(before, before_last, steps, start);
        assert(Self::one_mutation(before_last, end, position));
        assert(Self::single_mutation_by(start, end, steps, before_last, position));
    }

    /// In how many of the two connections and the function id two nodes
    /// differ.
    pub open spec fn genes_apart(before: Node, after: Node) -> int {
        (if after.connection0 != before.connection0 {
            1int
        } else {
            0int
        }) + (if after.connection1 != before.connection1 {
            1int
        } else {
            0int
        }) + (if after.function_id != before.function_id {
            1int
        } else {
            0int
        })
    }

    /// What `mutate_single` does to the nodes that count: of the nodes
    /// that were active, one was mutated, in at most one gene, and all
    /// others are as they were. Only nodes that were not active may have
    /// changed besides.
    pub proof fn lemma_single_mutation_is_local(before: Chromosome, after: Chromosome)
        requires
            Self::is_single_mutation(before, after),
        ensures
            exists|p: int|
                Self::spec_first_mutable(before.params) <= p < before.nodes_grid@.len()
                    && #[trigger] is_active(before.genes(), p) && after.nodes_grid@[p].position
                    == before.nodes_grid@[p].position && after.nodes_grid@[p].node_type
                    == before.nodes_grid@[p].node_type && Self::genes_apart(
                    before.nodes_grid@[p],
                    after.nodes_grid@[p],
                ) <= 1 && forall|q: int|
                    0 <= q < before.nodes_grid@.len() && q != p && is_active(before.genes(), q)
                        ==> after.nodes_grid@[q] == before.nodes_grid@[q],
    {
        let (steps, before_last, position) = choose|
            steps: nat,
            before_last: Chromosome,
            position: int,
        | #[trigger] Self::single_mutation_by(before, after, steps, before_last, position);
        assert(before_last.nodes_grid@[position] == before.nodes_grid@[position]);
        assert forall|q: int|
            0 <= q < before.nodes_grid@.len() && q != position && is_active(
                before.genes(),
                q,
            ) implies after.nodes_grid@[q] == before.nodes_grid@[q] by {
            assert(before_last.nodes_grid@[q] == before.nodes_grid@[q]);
        }
    }

    /// Where every node that may be mutated is active, `mutate_single`
    /// mutates one node of the genotype as it was, and no other node
    /// changes.
    pub proof fn lemma_single_mutation_without_miss(before: Chromosome, after: Chromosome)
        requires
            Self::is_single_mutation(before, after),
            forall|q: int|
                Self::spec_first_mutable(before.params) <= q < before.nodes_grid@.len()
                    ==> is_active(before.genes(), q),
        ensures
            exists|p: int|
                Self::spec_first_mutable(before.params) <= p < before.nodes_grid@.len()
                    && #[trigger] before.nodes_grid@[p].mutated_to(after.nodes_grid@[p])
                    && forall|q: int|
                    0 <= q < before.nodes_grid@.len() && q != p ==> after.nodes_grid@[q]
                        == before.nodes_grid@[q],
    {
        let (steps, before_last, position) = choose|
            steps: nat,
            before_last: Chromosome,
            position: int,
        | #[trigger] Self::single_mutation_by(before, after, steps, before_last, position);
        assert(steps == 0);
        assert(before.nodes_grid@[position].mutated_to(after.nodes_grid@[position]));
    }

    /// The cached list of active nodes of a valid genotype is an execution
    /// order: every position comes after the positions whose values it
    /// uses.
    pub proof fn lemma_cache_is_order(&self)
        requires
            self.wf(),
            self.active_nodes is Some,
        ensures
            crate::dag::genotype::is_active_order(self.genes(), self.active_nodes->0@),
    {
        lemma_sorted_active_is_order(self.params, self.genes(), self.active_nodes->0@);
    }

    /// No node of a valid genotype depends on itself.
    pub proof fn lemma_acyclic(&self)
        requires
            self.structure_ok(),
        ensures
            !crate::utils::reachability::has_cycle(
                crate::dag::genotype::dependency_edges(self.genes()),
            ),
    {
        crate::dag::genotype::lemma_causal_acyclic(self.genes());
    }

    /// A random genotype with the settings `params`, or the reason why
    /// there is none. Every computational node reads from two earlier
    /// positions, every output node from an input or a computational node.
    /// No list of active nodes is cached yet.
    pub fn new(params: CgpParameters) -> (made: Result<Chromosome, ParameterError>)
        ensures
            match made {
                Ok(chromosome) => {
                    &&& params.valid()
                    &&& chromosome.params == params
                    &&& chromosome.wf()
                    &&& chromosome.active_nodes is None
                },
                Err(reason) => params.spec_check() == Err::<(), ParameterError>(reason),
            },
    {
        match params.check() {
            Err(reason) => {
                return Err(reason);
            },
            Ok(_) => {},
        }
        let nbr_inner = params.nbr_inputs + params.nbr_computational_nodes;
        let nbr_nodes = nbr_inner + params.nbr_outputs;
        let mut nodes_grid: Vec<Node> = Vec::new();
        let mut position: usize = 0;
        while position < nbr_nodes
            invariant
                params.valid(),
                nbr_inner == params.spec_nbr_inner(),
                nbr_nodes == params.spec_nbr_nodes(),
                position <= nbr_nodes,
                nodes_grid@.len() == position,
                forall|p: int|
                    0 <= p < position ==> node_in_place(
                        params,
                        (#[trigger] nodes_grid@[p]).genes(),
                        p,
                    ) && nodes_grid@[p].well_formed(),
            decreases nbr_nodes - position,
        {
            let node_type = crate::dag::chromosome_dag::role_of(&params, position);
            let node = Node::new(
                position,
                params.nbr_inputs,
                params.nbr_computational_nodes,
                node_type,
                params.function_set,
            );
            nodes_grid.push(node);
            position += 1;
        }
        let output_node_ids = position_range(nbr_inner, nbr_nodes);
        let chromosome = Chromosome { params, nodes_grid, output_node_ids, active_nodes: None };
        proof {
            assert(chromosome.output_node_ids@ =~= Self::spec_output_positions(params));
            let genes = chromosome.genes();
            assert forall|p: int| 0 <= p < genes.len() implies node_in_place(
                params,
                #[trigger] genes[p],
                p,
            ) by {
                assert(node_in_place(params, chromosome.nodes_grid@[p].genes(), p));
            }
            assert forall|p: int, c: int| 0 <= p < genes.len() && #[trigger] reads(
                genes[p],
                c,
            ) implies c < p by {
                assert(node_in_place(params, chromosome.nodes_grid@[p].genes(), p));
                assert(chromosome.nodes_grid@[p].well_formed());
            }
        }
        Ok(chromosome)
    }

    /// Whether the genotype is valid. A genotype that was changed from
    /// outside, by writing to its fields, is to pass this test before it is
    /// used again.
    pub fn is_valid(&self) -> (valid: bool)
        ensures
            valid == self.wf(),
    {
        if !self.has_structure() {
            return false;
        }
        match &self.active_nodes {
            None => true,
            Some(order) => {
                let genes = self.genes_grid();
                let marks = active_marks(&self.params, &genes);
                let active = marked_positions(&marks);
                proof {
                    assert forall|p: usize| #[trigger] active@.contains(p) <==> is_active(
                        genes@,
                        p as int,
                    ) by {
                        if is_active(genes@, p as int) {
                            lemma_active_in_range(self.params, genes@, p as int);
                        }
                    }
                    if is_sorted_active(self.genes(), order@) {
                        crate::dag::genotype::lemma_rising_with_same_members(order@, active@);
                    }
                }
                same_positions(order, &active)
            },
        }
    }

    /// Whether the nodes are in place, every connection names an earlier
    /// position, and the list of output positions is the right one.
    pub fn has_structure(&self) -> (valid: bool)
        ensures
            valid == self.structure_ok(),
    {
        match self.params.check() {
            Err(_) => {
                return false;
            },
            Ok(_) => {},
        }
        let nbr_inner = self.params.nbr_inputs + self.params.nbr_computational_nodes;
        let nbr_nodes = nbr_inner + self.params.nbr_outputs;
        if self.nodes_grid.len() != nbr_nodes {
            return false;
        }
        let outputs = position_range(nbr_inner, nbr_nodes);
        proof {
            assert(outputs@ =~= Self::spec_output_positions(self.params));
        }
        if !same_positions(&self.output_node_ids, &outputs) {
            return false;
        }
        let mut position: usize = 0;
        while position < nbr_nodes
            invariant
                self.params.valid(),
                nbr_inner == self.params.spec_nbr_inner(),
                nbr_nodes == self.nodes_grid@.len(),
                position <= nbr_nodes,
                forall|p: int|
                    0 <= p < position ==> node_in_place(
                        self.params,
                        (#[trigger] self.nodes_grid@[p]).genes(),
                        p,
                    ),
                forall|p: int, c: int|
                    0 <= p < position && #[trigger] reads(self.nodes_grid@[p].genes(), c) ==> c
                        < p,
            decreases nbr_nodes - position,
        {
            let node = self.nodes_grid[position];
            let genes = node.to_dag();
            let causal_here = match node.node_type {
                NodeType::ComputationalNode => node.connection0 < position && node.connection1
                    < position,
                _ => true,
            };
            if !crate::dag::genotype::check_node(&self.params, &genes, position) || !causal_here {
                proof {
                    let all = self.genes();
                    assert(all[position as int] == genes);
                    if node_in_place(self.params, genes, position as int) {
                        assert(reads(all[position as int], node.connection0 as int));
                        assert(reads(all[position as int], node.connection1 as int));
                    }
                }
                return false;
            }
            position += 1;
        }
        proof {
            let all = self.genes();
            assert forall|p: int| 0 <= p < all.len() implies node_in_place(
                self.params,
                #[trigger] all[p],
                p,
            ) by {
                assert(node_in_place(self.params, self.nodes_grid@[p].genes(), p));
            }
            assert forall|p: int, c: int| 0 <= p < all.len() && #[trigger] reads(
                all[p],
                c,
            ) implies c < p by {
                assert(reads(self.nodes_grid@[p].genes(), c));
            }
        }
        true
    }

    /// The nodes as vertices of a dependency graph, in a vector of their
    /// own.
    pub fn genes_grid(&self) -> (genes: Vec<NodeDAG>)
        ensures
            genes@ == self.genes(),
    {
        let mut genes: Vec<NodeDAG> = Vec::new();
        let mut p: usize = 0;
        while p < self.nodes_grid.len()
            invariant
                p <= self.nodes_grid@.len(),
                genes@.len() == p,
                forall|q: int| 0 <= q < p ==> genes@[q] == self.nodes_grid@[q].genes(),
            decreases self.nodes_grid@.len() - p,
        {
            genes.push(self.nodes_grid[p].to_dag());
            p += 1;
        }
        proof {
            assert(genes@ =~= self.genes());
        }
        genes
    }

    /// The fitness of the genotype on boolean data: the number of output
    /// values, over all rows of `inputs`, that differ from `labels`. Every
    /// row of `inputs` holds one value for each input node, every row of
    /// `labels` one for each output node. The list of active nodes is
    /// computed first where none is cached, and stays cached.
    pub fn evaluate(&mut self, inputs: &Vec<Vec<bool>>, labels: &Vec<Vec<bool>>) -> (fitness: usize)
        requires
            old(self).wf(),
            old(self).params.function_set == FunctionSet::Boolean,
            inputs@.len() == labels@.len(),
            forall|r: int| 0 <= r < inputs@.len() ==> inputs@[r]@.len() == old(self).params.nbr_inputs,
            forall|r: int|
                0 <= r < labels@.len() ==> labels@[r]@.len() == old(self).params.nbr_outputs,
            cells(table_view(labels@), labels@.len()) <= usize::MAX,
        ensures
            fitness == spec_fitness_boolean(
                predictions(
                    old(self).genes(),
                    table_view(inputs@),
                    old(self).params.spec_nbr_inner(),
                    old(self).params.nbr_outputs as nat,
                ),
                table_view(labels@),
            ),
            final(self).params == old(self).params,
            final(self).nodes_grid == old(self).nodes_grid,
            final(self).output_node_ids == old(self).output_node_ids,
            final(self).active_nodes is Some,
            old(self).active_nodes is Some ==> final(self).active_nodes == old(self).active_nodes,
            final(self).wf(),
    {
        if self.active_nodes.is_none() {
            self.get_active_nodes_id();
        }
        let outs = self.predict(inputs);
        proof {
            let predicted = table_view(outs@);
            assert(predicted.len() == labels@.len());
            assert forall|r: int| 0 <= r < outs@.len() implies outs@[r]@.len() == labels@[r]@.len() by {
                assert(predicted[r].len() == self.params.nbr_outputs);
            }
            crate::utils::fitness_metrics::lemma_same_cells(predicted, table_view(labels@), labels@.len() as nat);
        }
        fitness_boolean(&outs, labels)
    }

    /// For every row of `inputs` the values of the output nodes, computed
    /// along the cached list of active nodes.
    pub fn predict(&self, inputs: &Vec<Vec<bool>>) -> (outs: Vec<Vec<bool>>)
        requires
            self.wf(),
            self.active_nodes is Some,
            self.params.function_set == FunctionSet::Boolean,
            forall|r: int| 0 <= r < inputs@.len() ==> inputs@[r]@.len() == self.params.nbr_inputs,
        ensures
            table_view(outs@) == predictions(
                self.genes(),
                table_view(inputs@),
                self.params.spec_nbr_inner(),
                self.params.nbr_outputs as nat,
            ),
    {
        let genes = self.genes_grid();
        proof {
            self.lemma_cache_is_order();
        }
        run_order(&self.params, &genes, self.active_nodes.as_ref().unwrap(), inputs)
    }

    /// The steps that evaluate the genotype, one for each active node, in
    /// the order of their positions: every step reads only what an earlier
    /// step has computed. Whoever holds the values of the inputs can run
    /// them one after the other, with values of any kind.
    pub fn evaluation_plan(&self) -> (plan: Vec<EvaluationStep>)
        requires
            self.wf(),
            self.active_nodes is Some,
        ensures
            is_plan_of(self.genes(), self.active_nodes->0@, plan@),
    {
        let genes = self.genes_grid();
        proof {
            self.lemma_cache_is_order();
        }
        plan_order(&self.params, &genes, self.active_nodes.as_ref().unwrap())
    }

    /// Finds the active nodes and caches their positions in rising order,
    /// which is an execution order. The output nodes are always active;
    /// with a node, the nodes whose values it uses are.
    pub fn get_active_nodes_id(&mut self)
        requires
            old(self).structure_ok(),
        ensures
            final(self).params == old(self).params,
            final(self).nodes_grid == old(self).nodes_grid,
            final(self).output_node_ids == old(self).output_node_ids,
            final(self).active_nodes is Some,
            is_sorted_active(final(self).genes(), final(self).active_nodes->0@),
            final(self).wf(),
    {
        let genes = self.genes_grid();
        let marks = active_marks(&self.params, &genes);
        let active = marked_positions(&marks);
        proof {
            assert forall|p: usize| #[trigger] active@.contains(p) <==> is_active(
                genes@,
                p as int,
            ) by {
                if is_active(genes@, p as int) {
                    lemma_active_in_range(self.params, genes@, p as int);
                }
            }
        }
        self.active_nodes = Some(active);
    }

    /// The cached list of active positions, in rising order. It is empty
    /// where none is cached.
    pub fn active_positions(&self) -> (positions: Vec<usize>)
        ensures
            positions@ == (match self.active_nodes {
                Some(order) => order@,
                None => Seq::<usize>::empty(),
            }),
    {
        match &self.active_nodes {
            Some(order) => copy_of(order),
            None => Vec::new(),
        }
    }

    /// The first position that `mutate_single` may mutate.
    pub fn first_mutable(&self) -> (position: usize)
        requires
            self.params.valid(),
        ensures
            position == Self::spec_first_mutable(self.params),
            self.params.nbr_inputs <= position <= self.params.spec_nbr_inner(),
    {
        match self.params.function_set {
            FunctionSet::Regression => if self.params.nbr_inputs == 1 {
                2
            } else {
                self.params.nbr_inputs
            },
            FunctionSet::Boolean => self.params.nbr_inputs,
        }
    }

    /// Applies one mutation to the node at `position` and to no other
    /// node: of an output node its connection is redrawn, of a
    /// computational node one of its connections, among the earlier
    /// positions, or its function id. The cached list of active nodes is
    /// dropped unless the node came out as it was, which happens only where
    /// a connection has no other value to take.
    pub fn mutate_node(&mut self, position: usize)
        requires
            old(self).wf(),
            old(self).params.nbr_inputs <= position < old(self).nodes_grid@.len(),
        ensures
            final(self).wf(),
            final(self).output_node_ids == old(self).output_node_ids,
            Self::one_mutation(*old(self), *final(self), position as int),
            final(self).active_nodes == (if final(self).nodes_grid@[position as int]
                == old(self).nodes_grid@[position as int] {
                old(self).active_nodes
            } else {
                None
            }),
    {
        let before = self.nodes_grid[position];
        let mut node = before;
        proof {
            assert(node_in_place(self.params, self.genes()[position as int], position as int));
            assert(reads(self.genes()[position as int], before.connection0 as int));
            if before.node_type == NodeType::ComputationalNode {
                assert(reads(self.genes()[position as int], before.connection1 as int));
            }
        }
        node.mutate();
        let changed = node.connection0 != before.connection0 || node.connection1
            != before.connection1 || node.function_id != before.function_id;
        self.nodes_grid[position] = node;
        if changed {
            self.active_nodes = None;
        }
        proof {
            let genes = self.genes();
            let genes_before = old(self).genes();
            assert forall|q: int| 0 <= q < genes.len() implies node_in_place(
                self.params,
                #[trigger] genes[q],
                q,
            ) by {
                assert(node_in_place(self.params, genes_before[q], q));
            }
            assert forall|q: int, c: int| 0 <= q < genes.len() && #[trigger] reads(
                genes[q],
                c,
            ) implies c < q by {
                assert(node_in_place(self.params, genes_before[q], q));
                if q != position {
                    assert(reads(genes_before[q], c));
                }
            }
            if !changed {
                assert(self.nodes_grid@ =~= old(self).nodes_grid@);
            }
        }
    }

    /// Mutates random positions that are no input, one at a time, until a
    /// position is hit that is in the cached list of active nodes. The
    /// list has to be cached; it is the list as it was before the call that
    /// counts. After `64 * n` misses in a genotype of `n` nodes the last
    /// position is drawn among the active ones, so that the call always
    /// returns.
    pub fn mutate_single(&mut self)
        requires
            old(self).wf(),
            old(self).active_nodes is Some,
        ensures
            final(self).wf(),
            final(self).params == old(self).params,
            final(self).output_node_ids == old(self).output_node_ids,
            final(self).nodes_grid@.len() == old(self).nodes_grid@.len(),
            forall|q: int|
                0 <= q < Self::spec_first_mutable(old(self).params) ==> final(self).nodes_grid@[q]
                    == old(self).nodes_grid@[q],
            Self::is_single_mutation(*old(self), *final(self)),
    {
        let ghost mut before_last = *self;
        let ghost mut hit = 0int;
        let ghost mut steps = 0nat;
        let ghost nodes = self.nodes_grid@;
        let ghost genes = self.genes();
        let active = copy_of(self.active_nodes.as_ref().unwrap());
        let start_id = self.first_mutable();
        let end_id = self.nodes_grid.len();
        let nbr_inner = self.params.nbr_inputs + self.params.nbr_computational_nodes;
        proof {
            assert(is_sorted_active(genes, active@));
            assert(node_in_place(self.params, genes[nbr_inner as int], nbr_inner as int));
            lemma_output_is_active(genes, nbr_inner as int);
            assert(active@.contains(nbr_inner));
            assert forall|i: int| 0 <= i < active@.len() implies active@[i] < end_id by {
                assert(active@.contains(active@[i]));
                lemma_active_in_range(self.params, genes, active@[i] as int);
            }
        }
        let mut misses_left: u64 = 64 * (end_id as u64);
        let mut landed = false;
        while !landed
            invariant
                self.wf(),
                self.params == old(self).params,
                self.output_node_ids == old(self).output_node_ids,
                self.nodes_grid@.len() == old(self).nodes_grid@.len(),
                nodes == old(self).nodes_grid@,
                genes == old(self).genes(),
                end_id == self.nodes_grid@.len(),
                start_id == Self::spec_first_mutable(self.params),
                self.params.nbr_inputs <= start_id <= nbr_inner,
                nbr_inner == self.params.spec_nbr_inner(),
                is_sorted_active(genes, active@),
                active@.contains(nbr_inner),
                forall|i: int| 0 <= i < active@.len() ==> active@[i] < end_id,
                forall|q: int| 0 <= q < start_id ==> self.nodes_grid@[q] == nodes[q],
                !landed ==> Self::reached_by_misses(*old(self), *self, steps),
                !landed ==> forall|q: int|
                    0 <= q < end_id && is_active(genes, q) ==> #[trigger] self.nodes_grid@[q]
                        == nodes[q],
                landed ==> Self::reached_by_misses(*old(self), before_last, steps),
                landed ==> forall|q: int|
                    0 <= q < end_id && is_active(genes, q) ==> #[trigger] before_last.nodes_grid@[q]
                        == nodes[q],
                landed ==> start_id <= hit && is_active(genes, hit) && Self::one_mutation(
                    before_last,
                    *self,
                    hit,
                ),
            decreases misses_left + (if landed { 0int } else { 1int }),
        {
            let position = if misses_left == 0 {
                let candidates = positions_from(&active, start_id);
                proof {
                    assert(candidates@.contains(nbr_inner));
                }
                candidates[random_below(candidates.len())]
            } else {
                start_id + random_below(end_id - start_id)
            };
            proof {
                before_last = *self;
                hit = position as int;
            }
            self.mutate_node(position);
            if misses_left == 0 || vec_contains(&active, position) {
                landed = true;
            } else {
                proof {
                    steps = steps + 1;
                }
                misses_left -= 1;
            }
        }
        proof {
            assert(Self::single_mutation_by(*old(self), *self, steps, before_last, hit));
        }
    }

    /// Where the setting `cgp_type` is 1, spreads the connected
    /// computational nodes evenly over the positions of the computational
    /// nodes; with any other value the genotype stays as it is.
    pub fn reorder(&mut self)
        requires
            old(self).wf(),
        ensures
            final(self).wf(),
            final(self).params == old(self).params,
            final(self).output_node_ids == old(self).output_node_ids,
            old(self).params.cgp_type != 1 ==> *final(self) == *old(self),
            old(self).params.cgp_type == 1 ==> is_spread(
                old(self).params,
                old(self).nodes_grid@,
                final(self).nodes_grid@,
            ),
    {
        if self.params.cgp_type == 1 {
            self.reorder_equidistant();
        }
    }
}

} // verus!
