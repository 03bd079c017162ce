//! The search for the active nodes, from the output nodes backwards.

use crate::dag::genotype::{
    causal, grid_ok, is_active, is_active_order, is_output_position, lemma_active_in_range,
    lemma_marks_hold_active, lemma_output_is_active, lemma_source_of_active, node_in_place,
    used_edges, uses,
};
use crate::dag::node_dag::NodeDAG;
use crate::global_params::CgpParameters;
use crate::utils::node_type::NodeType;
use crate::utils::visit_marks::{
    clear_marks, collect_positions, lemma_mark_one, lemma_positions_with, lemma_unmarked_bound,
    positions_with, unmarked,
};
use vstd::prelude::*;

verus! {

/// `order` lists exactly the active positions, in rising order.
pub open spec fn is_sorted_active(nodes: Seq<NodeDAG>, order: Seq<usize>) -> bool {
    &&& forall|i: int, j: int| 0 <= i < j < order.len() ==> order[i] < order[j]
    &&& forall|p: usize| #[trigger] order.contains(p) <==> is_active(nodes, p as int)
}

/// Where every connection names an earlier position, the active positions
/// in rising order are an execution order.
pub proof fn lemma_sorted_active_is_order(
    params: CgpParameters,
    nodes: Seq<NodeDAG>,
    order: Seq<usize>,
)
    requires
        grid_ok(params, nodes),
        causal(nodes),
        is_sorted_active(nodes, order),
    ensures
        is_active_order(nodes, order),
{
    assert forall|j: int, c: int|
        0 <= j < order.len() && #[trigger] used_edges(nodes).contains(
            (c, order[j] as int),
        ) implies exists|i: int| 0 <= i < j && order[i] == c by {
        let p = order[j];
        assert(order.contains(p));
        lemma_source_of_active(nodes, c, p as int);
        lemma_active_in_range(params, nodes, c);
        lemma_active_in_range(params, nodes, p as int);
        assert(crate::dag::genotype::reads(nodes[p as int], c));
        assert(order.contains(c as usize));
        let i = choose|i: int| 0 <= i < order.len() && order[i] == c as usize;
        if i >= j {
            if i > j {
                assert(order[j] < order[i]);
            }
        }
    }
}

/// Marks `source` and, where it was not marked yet, puts it on the stack
/// of positions to visit.
fn visit(active: &mut Vec<bool>, to_visit: &mut Vec<usize>, source: usize)
    requires
        source < old(active)@.len(),
    ensures
        final(active)@ == old(active)@.update(source as int, true),
        final(to_visit)@ == (if old(active)@[source as int] {
            old(to_visit)@
        } else {
            old(to_visit)@.push(source)
        }),
        forall|x: usize| old(to_visit)@.contains(x) ==> final(to_visit)@.contains(x),
        !old(active)@[source as int] ==> final(to_visit)@.contains(source),
        old(active)@[source as int] ==> unmarked(final(active)@) == unmarked(old(active)@),
        !old(active)@[source as int] ==> unmarked(final(active)@) + 1 == unmarked(old(active)@),
{
    if !active[source] {
        proof {
            lemma_mark_one(active@, source as int);
        }
        to_visit.push(source);
        active[source] = true;
        proof {
            assert(to_visit@[to_visit@.len() - 1] == source);
            assert forall|x: usize| old(to_visit)@.contains(x) implies to_visit@.contains(x) by {
                let k = choose|k: int| 0 <= k < old(to_visit)@.len() && old(to_visit)@[k] == x;
                assert(to_visit@[k] == x);
            }
        }
    } else {
        proof {
            assert(active@ =~= active@.update(source as int, true));
        }
    }
}

/// For every position whether its node is active: the output nodes are,
/// and with a node the nodes whose values it uses.
pub fn active_marks(params: &CgpParameters, nodes_grid: &Vec<NodeDAG>) -> (active: Vec<bool>)
    requires
        grid_ok(*params, nodes_grid@),
    ensures
        active@.len() == nodes_grid@.len(),
        forall|p: int| 0 <= p < nodes_grid@.len() ==> (active@[p] <==> is_active(nodes_grid@, p)),
{
    let nbr_nodes = nodes_grid.len();
    let nbr_inner = params.nbr_inputs + params.nbr_computational_nodes;
    let ghost nodes = nodes_grid@;
    let ghost used = used_edges(nodes);
    let mut active = clear_marks(nbr_nodes);
    let mut to_visit: Vec<usize> = Vec::new();
    proof {
        lemma_unmarked_bound(active@);
    }
    let mut output_node_id: usize = nbr_inner;
    while output_node_id < nbr_nodes
        invariant
            grid_ok(*params, nodes),
            nbr_nodes == nodes.len(),
            nbr_inner == params.spec_nbr_inner(),
            nbr_inner <= output_node_id <= nbr_nodes,
            active@.len() == nbr_nodes,
            forall|p: int| 0 <= p < nbr_nodes ==> (active@[p] <==> nbr_inner <= p < output_node_id),
            forall|x: int|
                0 <= x < to_visit@.len() ==> to_visit@[x] < nbr_nodes && active@[to_visit@[x] as int],
            forall|p: int| 0 <= p < nbr_nodes && active@[p] ==> to_visit@.contains(p as usize),
        decreases nbr_nodes - output_node_id,
    {
        visit(&mut active, &mut to_visit, output_node_id);
        output_node_id += 1;
    }
    proof {
        assert forall|p: int| 0 <= p < nbr_nodes && active@[p] implies is_active(nodes, p) by {
            assert(node_in_place(*params, nodes[p], p));
            lemma_output_is_active(nodes, p);
        }
        assert forall|o: int| is_output_position(nodes, o) implies active@[o] by {
            assert(node_in_place(*params, nodes[o], o));
        }
    }
    while to_visit.len() > 0
        invariant
            grid_ok(*params, nodes),
            nodes == nodes_grid@,
            used == used_edges(nodes),
            nbr_nodes == nodes.len(),
            active@.len() == nbr_nodes,
            forall|x: int|
                0 <= x < to_visit@.len() ==> to_visit@[x] < nbr_nodes && active@[to_visit@[x] as int],
            forall|p: int| 0 <= p < nbr_nodes && active@[p] ==> is_active(nodes, p),
            forall|o: int| is_output_position(nodes, o) ==> active@[o],
            forall|c: int, p: int|
                0 <= p < nbr_nodes && active@[p] && #[trigger] used.contains((c, p)) ==> (0 <= c
                    < nbr_nodes && active@[c]) || to_visit@.contains(p as usize),
        decreases 2 * unmarked(active@) + to_visit@.len(),
    {
        let ghost stack_before = to_visit@;
        let ghost marks_before = active@;
        let current_node_id = to_visit.pop().unwrap();
        let current_node = nodes_grid[current_node_id];
        proof {
            assert(node_in_place(*params, current_node, current_node_id as int));
            assert forall|y: usize|
                stack_before.contains(y) && y != current_node_id implies to_visit@.contains(y) by {
                let x = choose|x: int| 0 <= x < stack_before.len() && stack_before[x] == y;
                assert(to_visit@[x] == y);
            }
        }
        let ghost stack_popped = to_visit@;
        match current_node.node_type {
            NodeType::InputNode => {},
            NodeType::ComputationalNode => {
                visit(&mut active, &mut to_visit, current_node.connection0);
                if current_node.function_set.arity(current_node.function_id) == 2 {
                    visit(&mut active, &mut to_visit, current_node.connection1);
                }
            },
            NodeType::OutputNode => {
                visit(&mut active, &mut to_visit, current_node.connection0);
            },
        }
        proof {
            let cur = current_node_id as int;
            assert forall|c: int| #[trigger] used.contains((c, cur)) implies 0 <= c < nbr_nodes
                && active@[c] by {
                assert(uses(current_node, c));
            }
            assert forall|p: int| 0 <= p < nbr_nodes && active@[p] implies is_active(nodes, p) by {
                if !marks_before[p] {
                    assert(uses(current_node, p));
                    assert(used.contains((p, cur)));
                    lemma_source_of_active(nodes, p, cur);
                }
            }
            assert forall|c: int, p: int|
                0 <= p < nbr_nodes && active@[p] && #[trigger] used.contains(
                    (c, p),
                ) implies (0 <= c < nbr_nodes && active@[c]) || to_visit@.contains(p as usize) by {
                if p != cur {
                    if marks_before[p] {
                        if stack_before.contains(p as usize) {
                            assert(stack_popped.contains(p as usize));
                        }
                    }
                }
            }
        }
    }
    proof {
        assert forall|p: int| 0 <= p < nbr_nodes implies (active@[p] <==> is_active(nodes, p)) by {
            if is_active(nodes, p) {
                lemma_marks_hold_active(nodes, active@, p);
            }
        }
    }
    active
}

/// The positions whose mark is set, in rising order.
pub fn marked_positions(marks: &Vec<bool>) -> (positions: Vec<usize>)
    ensures
        positions@ == positions_with(marks@, true, 0),
        forall|i: int, j: int| 0 <= i < j < positions@.len() ==> positions@[i] < positions@[j],
        forall|p: usize| #[trigger] positions@.contains(p) <==> p < marks@.len() && marks@[p as int],
{
    let size = marks.len();
    proof {
        lemma_positions_with(marks@, true, 0);
    }
    collect_positions(marks, true, 0)
}

} // verus!
