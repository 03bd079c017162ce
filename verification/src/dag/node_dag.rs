//! The node of a genotype with free connections, and its mutation under
//! the eyes of the edge tracker.

use crate::global_params::MAX_NODES;
use crate::utils::boolean_functions;
use crate::utils::boolean_functions::apply_boolean;
use crate::utils::cycle_checker::CGPEdges;
use crate::utils::cycle_checker::lemma_redirect_keeps_acyclic;
use crate::utils::function_set::FunctionSet;
use crate::utils::node_type::NodeType;
use crate::utils::reachability::{has_cycle, reaches};
use crate::utils::utility_funcs::{random_below, skip_excluded};
use vstd::multiset::Multiset;
use vstd::prelude::*;

verus! {

/// One vertex of a genotype whose connections may point to any position
/// that closes no cycle.
#[derive(Clone, Copy, Debug, PartialEq, Eq, Structural)]
pub struct NodeDAG {
    pub position: usize,
    pub node_type: NodeType,
    pub nbr_inputs: usize,
    pub graph_width: usize,
    pub function_set: FunctionSet,
    pub function_id: usize,
    pub connection0: usize,
    pub connection1: usize,
}

/// Whether `candidate` may replace the connection `previous` of the node at
/// `position`: it is a position below `upper_range`, it is neither the old
/// value nor the node itself, and the node does not already feed it.
pub open spec fn legal_target(
    feeds: Set<(int, int)>,
    previous: usize,
    position: usize,
    upper_range: usize,
    candidate: usize,
) -> bool {
    &&& candidate < upper_range
    &&& candidate != previous
    &&& candidate != position
    &&& !reaches(feeds, position as int, candidate as int)
}

/// Whether the connection `previous` of the node at `position` can be
/// replaced at all.
pub open spec fn has_legal_target(
    feeds: Set<(int, int)>,
    previous: usize,
    position: usize,
    upper_range: usize,
) -> bool {
    exists|candidate: usize| legal_target(feeds, previous, position, upper_range, candidate)
}

/// `targets` lists the legal replacements in rising order, each once.
pub open spec fn lists_legal_targets(
    targets: Seq<usize>,
    feeds: Set<(int, int)>,
    previous: usize,
    position: usize,
    upper_range: usize,
) -> bool {
    &&& forall|i: int, j: int| 0 <= i < j < targets.len() ==> targets[i] < targets[j]
    &&& forall|candidate: usize| #[trigger]
        targets.contains(candidate) <==> legal_target(
            feeds,
            previous,
            position,
            upper_range,
            candidate,
        )
}

/// The tracker's rows after the node at `position` has given up one
/// reading of `previous` and taken up one of `chosen`.
pub open spec fn redirected_rows(
    rows: Seq<Multiset<usize>>,
    position: usize,
    previous: usize,
    chosen: usize,
) -> Seq<Multiset<usize>> {
    rows.update(position as int, rows[position as int].remove(previous).insert(chosen))
}

/// How a connection and the tracker may stand after the connection was
/// mutated: with a legal replacement installed if there is any, else
/// as before.
pub open spec fn connection_mutated(
    before: Seq<Multiset<usize>>,
    after: Seq<Multiset<usize>>,
    position: usize,
    upper_range: usize,
    previous: usize,
    chosen: usize,
) -> bool {
    if has_legal_target(crate::utils::cycle_checker::feed_edges(before), previous, position, upper_range) {
        &&& legal_target(
            crate::utils::cycle_checker::feed_edges(before),
            previous,
            position,
            upper_range,
            chosen,
        )
        &&& after == redirected_rows(before, position, previous, chosen)
    } else {
        chosen == previous && after == before
    }
}

impl NodeDAG {
    /// One more than the highest position that a connection may name.
    pub open spec fn spec_nbr_inner(&self) -> int {
        self.nbr_inputs + self.graph_width
    }

    /// The node's fields agree with its role: an input node has no
    /// connection, an output node has one, a computational node two, every
    /// connection names an input or a computational node, and the function
    /// id is one of the table.
    pub open spec fn well_formed(&self) -> bool {
        &&& self.nbr_inputs + self.graph_width <= MAX_NODES
        &&& self.function_id < self.function_set.spec_size()
        &&& match self.node_type {
            NodeType::InputNode => {
                &&& self.position < self.nbr_inputs
                &&& self.connection0 == usize::MAX
                &&& self.connection1 == usize::MAX
            },
            NodeType::ComputationalNode => {
                &&& self.nbr_inputs <= self.position < self.spec_nbr_inner()
                &&& self.connection0 < self.spec_nbr_inner()
                &&& self.connection1 < self.spec_nbr_inner()
            },
            NodeType::OutputNode => {
                &&& self.spec_nbr_inner() <= self.position
                &&& self.connection0 < self.spec_nbr_inner()
                &&& self.connection1 == usize::MAX
            },
        }
    }

    /// The tracker's row of the node holds the node's connections and
    /// nothing else. Only computational nodes have edges in the tracker.
    pub open spec fn tracked_by(&self, rows: Seq<Multiset<usize>>) -> bool {
        match self.node_type {
            NodeType::InputNode => rows[self.position as int] == Multiset::<usize>::empty(),
            NodeType::ComputationalNode => rows[self.position as int] == Multiset::<usize>::empty().insert(
                self.connection0,
            ).insert(self.connection1),
            NodeType::OutputNode => true,
        }
    }

    /// How the node `new` and the tracker's rows `after` may have come from
    /// `self` and `before` by one mutation: exactly one of the two
    /// connections and the function id has been redrawn, and nothing else
    /// has changed. A connection stays only where no other value is legal.
    pub open spec fn mutated_to(
        &self,
        new: NodeDAG,
        before: Seq<Multiset<usize>>,
        after: Seq<Multiset<usize>>,
    ) -> bool {
        match self.node_type {
            NodeType::InputNode => false,
            NodeType::OutputNode => {
                &&& after == before
                &&& new == (NodeDAG { connection0: new.connection0, ..*self })
                &&& new.connection0 < self.spec_nbr_inner()
                &&& self.spec_nbr_inner() >= 2 ==> new.connection0 != self.connection0
            },
            NodeType::ComputationalNode => {
                ||| {
                    &&& after == before
                    &&& new == (NodeDAG { function_id: new.function_id, ..*self })
                    &&& new.function_id < self.function_set.spec_size()
                    &&& new.function_id != self.function_id
                }
                ||| {
                    &&& new == (NodeDAG { connection0: new.connection0, ..*self })
                    &&& connection_mutated(
                        before,
                        after,
                        self.position,
                        (self.nbr_inputs + self.graph_width) as usize,
                        self.connection0,
                        new.connection0,
                    )
                }
                ||| {
                    &&& new == (NodeDAG { connection1: new.connection1, ..*self })
                    &&& connection_mutated(
                        before,
                        after,
                        self.position,
                        (self.nbr_inputs + self.graph_width) as usize,
                        self.connection1,
                        new.connection1,
                    )
                }
            },
        }
    }

    /// The node with the given genes. A computational node is entered into
    /// the tracker with both its connections.
    pub fn with_genes(
        position: usize,
        nbr_inputs: usize,
        graph_width: usize,
        node_type: NodeType,
        function_set: FunctionSet,
        function_id: usize,
        connection0: usize,
        connection1: usize,
        cgp_edges: &mut CGPEdges,
    ) -> (node: NodeDAG)
        requires
            node_type == NodeType::ComputationalNode ==> position < old(cgp_edges)@.len()
                && connection0 < old(cgp_edges)@.len() && connection1 < old(cgp_edges)@.len(),
        ensures
            node == (NodeDAG {
                position,
                node_type,
                nbr_inputs,
                graph_width,
                function_set,
                function_id,
                connection0,
                connection1,
            }),
            final(cgp_edges)@ == (if node_type == NodeType::ComputationalNode {
                old(cgp_edges)@.update(
                    position as int,
                    old(cgp_edges)@[position as int].insert(connection0).insert(connection1),
                )
            } else {
                old(cgp_edges)@
            }),
            old(cgp_edges).wf() ==> final(cgp_edges).wf(),
    {
        match node_type {
            NodeType::ComputationalNode => {
                cgp_edges.add_edge(position, connection0);
                cgp_edges.add_edge(position, connection1);
                proof {
                    assert(final(cgp_edges)@ =~= old(cgp_edges)@.update(
                        position as int,
                        old(cgp_edges)@[position as int].insert(connection0).insert(connection1),
                    ));
                }
            },
            _ => {},
        }
        NodeDAG {
            position,
            node_type,
            nbr_inputs,
            graph_width,
            function_set,
            function_id,
            connection0,
            connection1,
        }
    }

    /// A node with random genes. An input node has no connection. A
    /// computational node reads from two positions before its own, and is
    /// entered into the tracker. An output node reads from an input or a
    /// computational node.
    pub fn new(
        position: usize,
        nbr_inputs: usize,
        graph_width: usize,
        node_type: NodeType,
        function_set: FunctionSet,
        cgp_edges: &mut CGPEdges,
    ) -> (node: NodeDAG)
        requires
            nbr_inputs + graph_width <= MAX_NODES,
            node_type == NodeType::ComputationalNode ==> 0 < position < old(cgp_edges)@.len(),
            node_type == NodeType::OutputNode ==> nbr_inputs + graph_width > 0,
        ensures
            node.position == position,
            node.node_type == node_type,
            node.nbr_inputs == nbr_inputs,
            node.graph_width == graph_width,
            node.function_set == function_set,
            node.function_id < function_set.spec_size(),
            match node_type {
                NodeType::InputNode => node.connection0 == usize::MAX && node.connection1
                    == usize::MAX && final(cgp_edges)@ == old(cgp_edges)@,
                NodeType::ComputationalNode => node.connection0 < position && node.connection1
                    < position && final(cgp_edges)@ == old(cgp_edges)@.update(
                    position as int,
                    old(cgp_edges)@[position as int].insert(node.connection0).insert(
                        node.connection1,
                    ),
                ),
                NodeType::OutputNode => node.connection0 < nbr_inputs + graph_width
                    && node.connection1 == usize::MAX && final(cgp_edges)@ == old(cgp_edges)@,
            },
            old(cgp_edges).wf() ==> final(cgp_edges).wf(),
    {
        let function_id = random_below(function_set.size());
        let connection0: usize;
        let connection1: usize;
        match node_type {
            NodeType::InputNode => {
                connection0 = usize::MAX;
                connection1 = usize::MAX;
            },
            NodeType::ComputationalNode => {
                connection0 = random_below(position);
                connection1 = random_below(position);
            },
            NodeType::OutputNode => {
                connection0 = random_below(nbr_inputs + graph_width);
                connection1 = usize::MAX;
            },
        }
        NodeDAG::with_genes(
            position,
            nbr_inputs,
            graph_width,
            node_type,
            function_set,
            function_id,
            connection0,
            connection1,
            cgp_edges,
        )
    }

    /// What the node computes from the operand columns `conn0_value` and
    /// `conn1_value`, row by row, with the boolean operation that its
    /// function id names.
    pub fn execute(&self, conn0_value: &Vec<bool>, conn1_value: &Vec<bool>) -> (out: Vec<bool>)
        requires
            self.node_type != NodeType::InputNode,
            self.function_id < 4,
            conn0_value@.len() == conn1_value@.len(),
        ensures
            out@.len() == conn0_value@.len(),
            forall|i: int|
                0 <= i < out@.len() ==> out@[i] == apply_boolean(
                    self.function_id,
                    conn0_value@[i],
                    conn1_value@[i],
                ),
    {
        if self.function_id == 0 {
            boolean_functions::and(conn0_value, conn1_value)
        } else if self.function_id == 1 {
            boolean_functions::or(conn0_value, conn1_value)
        } else if self.function_id == 2 {
            boolean_functions::nand(conn0_value, conn1_value)
        } else {
            boolean_functions::nor(conn0_value, conn1_value)
        }
    }

    /// Redraws one gene of the node: of an output node its connection, of
    /// a computational node one of its two connections or its function id,
    /// each with the same chance. A connection is redrawn among the
    /// positions that close no cycle, and the tracker follows it.
    pub fn mutate(&mut self, cgp_edges: &mut CGPEdges)
        requires
            old(self).well_formed(),
            old(self).node_type != NodeType::InputNode,
            old(cgp_edges).wf(),
            old(cgp_edges)@.len() == old(self).spec_nbr_inner(),
        ensures
            old(self).mutated_to(*final(self), old(cgp_edges)@, final(cgp_edges)@),
            final(self).well_formed(),
            final(cgp_edges).wf(),
            final(cgp_edges)@.len() == old(cgp_edges)@.len(),
            !has_cycle(old(cgp_edges).feeds()) ==> !has_cycle(final(cgp_edges).feeds()),
    {
        match self.node_type {
            NodeType::OutputNode => self.mutate_output_node(),
            _ => self.mutate_computational_node(cgp_edges),
        }
    }

    /// The positions below `upper_range` that may replace the connection
    /// `previous` of the node at `position`, in rising order.
    pub fn legal_connections(
        previous: usize,
        position: usize,
        upper_range: usize,
        cgp_edges: &CGPEdges,
    ) -> (targets: Vec<usize>)
        requires
            cgp_edges.wf(),
            position < cgp_edges@.len(),
            upper_range <= cgp_edges@.len(),
        ensures
            lists_legal_targets(targets@, cgp_edges.feeds(), previous, position, upper_range),
    {
        let mut targets: Vec<usize> = Vec::new();
        let mut candidate: usize = 0;
        while candidate < upper_range
            invariant
                cgp_edges.wf(),
                position < cgp_edges@.len(),
                upper_range <= cgp_edges@.len(),
                candidate <= upper_range,
                forall|i: int| 0 <= i < targets@.len() ==> targets@[i] < candidate,
                lists_legal_targets(targets@, cgp_edges.feeds(), previous, position, candidate),
            decreases upper_range - candidate,
        {
            let ghost before = targets@;
            let mut legal = false;
            if candidate != previous && candidate != position {
                if !cgp_edges.leads_to_cycle(position, candidate) {
                    legal = true;
                    targets.push(candidate);
                }
            }
            proof {
                let after = targets@;
                let feeds = cgp_edges.feeds();
                assert forall|c: usize| #[trigger]
                    after.contains(c) <==> legal_target(
                        feeds,
                        previous,
                        position,
                        (candidate + 1) as usize,
                        c,
                    ) by {
                    if before.contains(c) {
                        let k = choose|k: int| 0 <= k < before.len() && before[k] == c;
                        assert(after[k] == c);
                    }
                    if legal {
                        assert(after[after.len() - 1] == candidate);
                    }
                    if after.contains(c) {
                        let k = choose|k: int| 0 <= k < after.len() && after[k] == c;
                        if k < before.len() {
                            assert(before[k] == c);
                        }
                    }
                }
            }
            candidate += 1;
        }
        targets
    }

    /// Makes the node at `position` read from `chosen` where it read from
    /// `*connection`, in the tracker as well.
    pub fn redirect(
        connection: &mut usize,
        position: usize,
        chosen: usize,
        cgp_edges: &mut CGPEdges,
    )
        requires
            position < old(cgp_edges)@.len(),
            chosen < old(cgp_edges)@.len(),
        ensures
            *final(connection) == chosen,
            final(cgp_edges)@ == redirected_rows(
                old(cgp_edges)@,
                position,
                *old(connection),
                chosen,
            ),
            old(cgp_edges).wf() ==> final(cgp_edges).wf(),
            !has_cycle(old(cgp_edges).feeds()) && !reaches(
                old(cgp_edges).feeds(),
                position as int,
                chosen as int,
            ) ==> !has_cycle(final(cgp_edges).feeds()),
    {
        cgp_edges.remove_edge(position, *connection);
        let ghost middle = cgp_edges.feeds();
        cgp_edges.add_edge(position, chosen);
        *connection = chosen;
        proof {
            assert(final(cgp_edges)@ =~= redirected_rows(
                old(cgp_edges)@,
                position,
                *old(connection),
                chosen,
            ));
            if !has_cycle(old(cgp_edges).feeds()) && !reaches(
                old(cgp_edges).feeds(),
                position as int,
                chosen as int,
            ) {
                assert(final(cgp_edges).feeds().subset_of(
                    old(cgp_edges).feeds().insert((chosen as int, position as int)),
                ));
                lemma_redirect_keeps_acyclic(
                    old(cgp_edges).feeds(),
                    final(cgp_edges).feeds(),
                    position as int,
                    chosen as int,
                );
            }
        }
    }

    /// Redraws the connection of the node at `position` among the positions
    /// below `upper_range` that are legal, each with the same chance, and
    /// lets the tracker follow. Where none is legal the connection stays.
    pub fn mutate_connection(
        connection: &mut usize,
        position: usize,
        upper_range: usize,
        cgp_edges: &mut CGPEdges,
    )
        requires
            old(cgp_edges).wf(),
            position < old(cgp_edges)@.len(),
            upper_range <= old(cgp_edges)@.len(),
        ensures
            connection_mutated(
                old(cgp_edges)@,
                final(cgp_edges)@,
                position,
                upper_range,
                *old(connection),
                *final(connection),
            ),
            final(cgp_edges).wf(),
            final(cgp_edges)@.len() == old(cgp_edges)@.len(),
            !has_cycle(old(cgp_edges).feeds()) ==> !has_cycle(final(cgp_edges).feeds()),
    {
        match gen_random_connection(*connection, position, upper_range, cgp_edges) {
            Some(new_connection_id) => {
                NodeDAG::redirect(connection, position, new_connection_id, cgp_edges);
            },
            None => {},
        }
    }

    /// Redraws the function id among the other ids of the table, each with
    /// the same chance.
    pub fn mutate_function(&mut self)
        requires
            old(self).function_id < old(self).function_set.spec_size(),
        ensures
            *final(self) == (NodeDAG { function_id: final(self).function_id, ..*old(self) }),
            final(self).function_id < old(self).function_set.spec_size(),
            final(self).function_id != old(self).function_id,
    {
        self.function_id = gen_random_function_id(self.function_id, self.function_set.size());
    }

    /// Redraws the connection of an output node among the other input and
    /// computational nodes, each with the same chance.
    fn mutate_output_node(&mut self)
        requires
            old(self).well_formed(),
            old(self).node_type == NodeType::OutputNode,
        ensures
            *final(self) == (NodeDAG { connection0: final(self).connection0, ..*old(self) }),
            final(self).connection0 < old(self).spec_nbr_inner(),
            old(self).spec_nbr_inner() >= 2 ==> final(self).connection0 != old(self).connection0,
    {
        let upper_range = self.nbr_inputs + self.graph_width;
        if upper_range >= 2 {
            self.connection0 = gen_random_function_id(self.connection0, upper_range);
        }
    }

    /// Redraws the first connection, the second connection or the function
    /// id of a computational node, each with the same chance.
    fn mutate_computational_node(&mut self, cgp_edges: &mut CGPEdges)
        requires
            old(self).well_formed(),
            old(self).node_type == NodeType::ComputationalNode,
            old(cgp_edges).wf(),
            old(cgp_edges)@.len() == old(self).spec_nbr_inner(),
        ensures
            old(self).mutated_to(*final(self), old(cgp_edges)@, final(cgp_edges)@),
            final(self).well_formed(),
            final(cgp_edges).wf(),
            final(cgp_edges)@.len() == old(cgp_edges)@.len(),
            !has_cycle(old(cgp_edges).feeds()) ==> !has_cycle(final(cgp_edges).feeds()),
    {
        let rand_nbr = random_below(3);
        let upper_range = self.nbr_inputs + self.graph_width;
        if rand_nbr == 0 {
            NodeDAG::mutate_connection(&mut self.connection0, self.position, upper_range, cgp_edges);
        } else if rand_nbr == 1 {
            NodeDAG::mutate_connection(&mut self.connection1, self.position, upper_range, cgp_edges);
        } else {
            self.mutate_function();
        }
    }
}

/// A random one of the positions below `upper_range` that may replace the
/// connection `previous_connection` of the node at `position`, each being as
/// likely as any other; `None` where there is none.
fn gen_random_connection(
    previous_connection: usize,
    position: usize,
    upper_range: usize,
    cgp_edges: &CGPEdges,
) -> (drawn: Option<usize>)
    requires
        cgp_edges.wf(),
        position < cgp_edges@.len(),
        upper_range <= cgp_edges@.len(),
    ensures
        match drawn {
            Some(candidate) => legal_target(
                cgp_edges.feeds(),
                previous_connection,
                position,
                upper_range,
                candidate,
            ),
            None => !has_legal_target(
                cgp_edges.feeds(),
                previous_connection,
                position,
                upper_range,
            ),
        },
{
    let targets = NodeDAG::legal_connections(
        previous_connection,
        position,
        upper_range,
        cgp_edges,
    );
    if targets.len() == 0 {
        proof {
            if has_legal_target(cgp_edges.feeds(), previous_connection, position, upper_range) {
                let c = choose|c: usize|
                    legal_target(cgp_edges.feeds(), previous_connection, position, upper_range, c);
                assert(targets@.contains(c));
            }
        }
        return None;
    }
    let pick = random_below(targets.len());
    proof {
        assert(targets@.contains(targets@[pick as int]));
    }
    Some(targets[pick])
}

/// A random number below `upper_range` that is not `excluded`, each such
/// number being as likely as any other.
fn gen_random_function_id(excluded: usize, upper_range: usize) -> (value: usize)
    requires
        upper_range >= 2,
    ensures
        value < upper_range,
        value != excluded,
{
    if excluded < upper_range {
        let draw = random_below(upper_range - 1);
        skip_excluded(draw, excluded)
    } else {
        random_below(upper_range)
    }
}

} // verus!
