//! The graph type and the topological sort of the crate `petgraph`, with
//! what this library relies on of them.

use crate::utils::reachability::has_cycle;
use petgraph::algo::toposort;
use petgraph::stable_graph::NodeIndex;
use petgraph::stable_graph::StableGraph;
use vstd::prelude::*;

verus! {

/// `petgraph::stable_graph::StableGraph`, a graph whose node and edge
/// indices stay what they are when nodes leave. Nothing is known of a value
/// but what `graph_nodes` and `graph_edges` name.
#[verifier::external_type_specification]
#[verifier::external_body]
#[verifier::reject_recursive_types(N)]
#[verifier::reject_recursive_types(E)]
#[verifier::reject_recursive_types(Ty)]
#[verifier::reject_recursive_types(Ix)]
pub struct ExStableGraph<N, E, Ty, Ix>(StableGraph<N, E, Ty, Ix>);

/// `petgraph::Directed`, the marker of graphs with directed edges.
#[verifier::external_type_specification]
#[verifier::external_body]
pub struct ExDirected(petgraph::Directed);

/// Which node slots of the graph are occupied: slot `i` holds a node exactly
/// when entry `i` is true. A slot whose node was removed stays, vacant.
pub uninterp spec fn graph_nodes(g: StableGraph<usize, (), petgraph::Directed, u32>) -> Seq<bool>;

/// The edge slots of the graph: an occupied slot holds the edge's source and
/// target node index, a slot whose edge was removed is `None`.
pub uninterp spec fn graph_edges(g: StableGraph<usize, (), petgraph::Directed, u32>) -> Seq<
    Option<(int, int)>,
>;

/// Whether slot `i` of `nodes` exists and holds a node.
pub open spec fn occupied(nodes: Seq<bool>, i: int) -> bool {
    0 <= i < nodes.len() && nodes[i]
}

/// The edges that the edge slots hold, as a set of pairs `(source, target)`.
pub open spec fn edge_set(slots: Seq<Option<(int, int)>>) -> Set<(int, int)> {
    Set::new(|e: (int, int)| slots.contains(Some(e)))
}

/// The edge slots after the node `a` has left: every edge that starts or
/// ends in `a` is gone, the others stay where they are.
pub open spec fn without_node(slots: Seq<Option<(int, int)>>, a: int) -> Seq<Option<(int, int)>> {
    Seq::new(
        slots.len(),
        |k: int|
            match slots[k] {
                Some(e) => if e.0 == a || e.1 == a {
                    None
                } else {
                    Some(e)
                },
                None => None,
            },
    )
}

/// `order` lists every node of the graph once, each before the nodes that
/// its edges lead to.
pub open spec fn is_topological_order(
    order: Seq<usize>,
    nodes: Seq<bool>,
    slots: Seq<Option<(int, int)>>,
) -> bool {
    &&& order.no_duplicates()
    &&& forall|p: usize| #[trigger] order.contains(p) ==> occupied(nodes, p as int)
    &&& forall|i: int| #[trigger]
        occupied(nodes, i) ==> i <= usize::MAX && order.contains(i as usize)
    &&& forall|i: int, j: int|
        0 <= i < order.len() && 0 <= j < order.len() && #[trigger] edge_set(slots).contains(
            (order[i] as int, order[j] as int),
        ) ==> i < j
}

/// `StableGraph::new`: a graph without node or edge slots.
#[verifier::external_body]
pub(crate) fn graph_new() -> (g: StableGraph<usize, (), petgraph::Directed, u32>)
    ensures
        graph_nodes(g).len() == 0,
        graph_edges(g).len() == 0,
{
    StableGraph::new()
}

/// `StableGraph::add_node`: without a vacant node slot the new node takes
/// a new slot at the end, else it takes one of the vacant slots. The result
/// is the index of the slot taken. The edges stay as they are. The graph
/// indexes by `u32` and panics when it is full, which `requires` excludes.
#[verifier::external_body]
pub(crate) fn graph_add_node(
    g: &mut StableGraph<usize, (), petgraph::Directed, u32>,
    weight: usize,
) -> (index: usize)
    requires
        graph_nodes(*old(g)).len() < 0xffff_ffff,
    ensures
        index <= graph_nodes(*old(g)).len(),
        index < graph_nodes(*old(g)).len() ==> !graph_nodes(*old(g))[index as int],
        index == graph_nodes(*old(g)).len() <==> (forall|i: int|
            0 <= i < graph_nodes(*old(g)).len() ==> graph_nodes(*old(g))[i]),
        graph_nodes(*final(g)) == (if index == graph_nodes(*old(g)).len() {
            graph_nodes(*old(g)).push(true)
        } else {
            graph_nodes(*old(g)).update(index as int, true)
        }),
        graph_edges(*final(g)) == graph_edges(*old(g)),
{
    g.add_node(weight).index()
}

/// `StableGraph::add_edge`: the new edge from node `a` to node `b` takes a
/// new edge slot at the end when no edge slot is vacant, else one of the
/// vacant slots. The result is the index of the slot taken. The nodes stay
/// as they are. The call panics when `a` or `b` is no node of the graph or
/// when the graph is full, which `requires` excludes.
#[verifier::external_body]
pub(crate) fn graph_add_edge(
    g: &mut StableGraph<usize, (), petgraph::Directed, u32>,
    a: usize,
    b: usize,
) -> (index: usize)
    requires
        occupied(graph_nodes(*old(g)), a as int),
        occupied(graph_nodes(*old(g)), b as int),
        graph_nodes(*old(g)).len() <= 0xffff_ffff,
        graph_edges(*old(g)).len() < 0xffff_ffff,
    ensures
        index <= graph_edges(*old(g)).len(),
        index < graph_edges(*old(g)).len() ==> graph_edges(*old(g))[index as int] is None,
        index == graph_edges(*old(g)).len() <==> (forall|k: int|
            0 <= k < graph_edges(*old(g)).len() ==> graph_edges(*old(g))[k] is Some),
        graph_edges(*final(g)) == (if index == graph_edges(*old(g)).len() {
            graph_edges(*old(g)).push(Some((a as int, b as int)))
        } else {
            graph_edges(*old(g)).update(index as int, Some((a as int, b as int)))
        }),
        graph_nodes(*final(g)) == graph_nodes(*old(g)),
{
    g.add_edge(NodeIndex::new(a), NodeIndex::new(b), ()).index()
}

/// `StableGraph::remove_node`: the node in slot `a`, if there is one, leaves
/// the graph together with every edge that starts or ends in it. Its slot
/// and theirs stay, vacant; no other slot changes.
#[verifier::external_body]
pub(crate) fn graph_remove_node(g: &mut StableGraph<usize, (), petgraph::Directed, u32>, a: usize)
    requires
        a < graph_nodes(*old(g)).len(),
        graph_nodes(*old(g)).len() <= 0xffff_ffff,
    ensures
        graph_nodes(*final(g)) == graph_nodes(*old(g)).update(a as int, false),
        graph_edges(*final(g)) == (if graph_nodes(*old(g))[a as int] {
            without_node(graph_edges(*old(g)), a as int)
        } else {
            graph_edges(*old(g))
        }),
{
    g.remove_node(NodeIndex::new(a));
}

/// `petgraph::algo::toposort`: for a graph without a cycle the result is
/// `Ok` with the indices of all its nodes, each once and each before the
/// nodes that its edges lead to. `Err`, with the index of a node, comes only
/// for a graph that has a cycle, a self loop included.
#[verifier::external_body]
pub(crate) fn graph_toposort(g: &StableGraph<usize, (), petgraph::Directed, u32>) -> (sorted:
    Result<Vec<usize>, usize>)
    ensures
        match sorted {
            Ok(order) => is_topological_order(order@, graph_nodes(*g), graph_edges(*g)),
            Err(_) => has_cycle(edge_set(graph_edges(*g))),
        },
{
    match toposort(g, None) {
        Ok(order) => Ok(order.into_iter().map(|node| node.index()).collect()),
        Err(cycle) => Err(cycle.node_id().index()),
    }
}

/// A new edge slot at the end adds its edge to the set of edges.
pub proof fn lemma_edge_set_push(slots: Seq<Option<(int, int)>>, e: (int, int))
    ensures
        edge_set(slots.push(Some(e))) == edge_set(slots).insert(e),
{
    let more = slots.push(Some(e));
    assert forall|x: (int, int)| edge_set(more).contains(x) <==> edge_set(slots).insert(
        e,
    ).contains(x) by {
        if slots.contains(Some(x)) {
            let k = choose|k: int| 0 <= k < slots.len() && slots[k] == Some(x);
            assert(more[k] == Some(x));
        }
        if x == e {
            assert(more[more.len() - 1] == Some(x));
        }
        if more.contains(Some(x)) {
            let k = choose|k: int| 0 <= k < more.len() && more[k] == Some(x);
            if k < slots.len() {
                assert(slots[k] == Some(x));
            }
        }
    }
    assert(edge_set(more) =~= edge_set(slots).insert(e));
}

/// Without edge slots there are no edges.
pub proof fn lemma_edge_set_empty(slots: Seq<Option<(int, int)>>)
    requires
        slots.len() == 0,
    ensures
        edge_set(slots) == Set::<(int, int)>::empty(),
{
    assert(edge_set(slots) =~= Set::<(int, int)>::empty());
}

/// The set of edges after the node `a` has left: those that neither start
/// nor end in `a`.
pub proof fn lemma_edge_set_without(slots: Seq<Option<(int, int)>>, a: int)
    ensures
        forall|e: (int, int)|
            #![trigger edge_set(without_node(slots, a)).contains(e)]
            #![trigger edge_set(slots).contains(e)]
            edge_set(without_node(slots, a)).contains(e) <==> edge_set(slots).contains(e) && e.0
                != a && e.1 != a,
{
    let fewer = without_node(slots, a);
    assert forall|e: (int, int)|
        #![trigger edge_set(fewer).contains(e)]
        #![trigger edge_set(slots).contains(e)]
        edge_set(fewer).contains(e) <==> edge_set(slots).contains(e) && e.0 != a && e.1 != a by {
        if fewer.contains(Some(e)) {
            let k = choose|k: int| 0 <= k < fewer.len() && fewer[k] == Some(e);
            assert(slots[k] == Some(e));
        }
        if slots.contains(Some(e)) && e.0 != a && e.1 != a {
            let k = choose|k: int| 0 <= k < slots.len() && slots[k] == Some(e);
            assert(fewer[k] == Some(e));
        }
    }
}

} // verus!
