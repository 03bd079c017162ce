//! Walks, reachability and cycles in a directed graph that is given as a
//! set of edges.

use vstd::prelude::*;

verus! {

/// Whether the walk `w` takes an edge of `edges` from its `i`-th vertex to
/// the next one.
pub open spec fn step(edges: Set<(int, int)>, w: Seq<int>, i: int) -> bool {
    edges.contains((w[i], w[i + 1]))
}

/// A walk is a non-empty sequence of vertices in which every vertex is
/// joined to its successor by an edge.
pub open spec fn is_walk(edges: Set<(int, int)>, w: Seq<int>) -> bool {
    &&& w.len() >= 1
    &&& forall|i: int| 0 <= i < w.len() - 1 ==> #[trigger] step(edges, w, i)
}

/// `w` is a walk that starts in `a` and ends in `b`.
pub open spec fn walk_between(edges: Set<(int, int)>, w: Seq<int>, a: int, b: int) -> bool {
    &&& is_walk(edges, w)
    &&& w[0] == a
    &&& w[w.len() - 1] == b
}

/// `b` can be reached from `a` along edges; every vertex reaches itself.
pub open spec fn reaches(edges: Set<(int, int)>, a: int, b: int) -> bool {
    exists|w: Seq<int>| walk_between(edges, w, a, b)
}

/// `w` is a closed walk with at least one edge.
pub open spec fn is_cycle(edges: Set<(int, int)>, w: Seq<int>) -> bool {
    &&& is_walk(edges, w)
    &&& w.len() >= 2
    &&& w[0] == w[w.len() - 1]
}

/// The graph has a closed walk with at least one edge. A self loop counts.
pub open spec fn has_cycle(edges: Set<(int, int)>) -> bool {
    exists|w: Seq<int>| is_cycle(edges, w)
}

/// Every vertex reaches itself.
pub proof fn lemma_reaches_self(edges: Set<(int, int)>, a: int)
    ensures
        reaches(edges, a, a),
{
    let w = seq![a];
    assert(walk_between(edges, w, a, a));
}

/// An edge in front of a walk gives a walk.
pub proof fn lemma_reaches_prepend(edges: Set<(int, int)>, a: int, b: int, c: int)
    requires
        edges.contains((a, b)),
        reaches(edges, b, c),
    ensures
        reaches(edges, a, c),
{
    let w = choose|w: Seq<int>| walk_between(edges, w, b, c);
    let v = seq![a] + w;
    assert forall|i: int| 0 <= i < v.len() - 1 implies #[trigger] step(edges, v, i) by {
        if i > 0 {
            assert(step(edges, w, i - 1));
        }
    }
    assert(walk_between(edges, v, a, c));
}

/// An edge behind a walk gives a walk.
pub proof fn lemma_reaches_append(edges: Set<(int, int)>, a: int, b: int, c: int)
    requires
        reaches(edges, a, b),
        edges.contains((b, c)),
    ensures
        reaches(edges, a, c),
{
    let w = choose|w: Seq<int>| walk_between(edges, w, a, b);
    let v = w.push(c);
    assert forall|i: int| 0 <= i < v.len() - 1 implies #[trigger] step(edges, v, i) by {
        if i < w.len() - 1 {
            assert(step(edges, w, i));
        }
    }
    assert(walk_between(edges, v, a, c));
}

/// Reachability is transitive.
pub proof fn lemma_reaches_trans(edges: Set<(int, int)>, a: int, b: int, c: int)
    requires
        reaches(edges, a, b),
        reaches(edges, b, c),
    ensures
        reaches(edges, a, c),
{
    let w1 = choose|w: Seq<int>| walk_between(edges, w, a, b);
    let w2 = choose|w: Seq<int>| walk_between(edges, w, b, c);
    let v = w1 + w2.skip(1);
    assert forall|i: int| 0 <= i < v.len() - 1 implies #[trigger] step(edges, v, i) by {
        if i < w1.len() - 1 {
            assert(step(edges, w1, i));
        } else {
            assert(step(edges, w2, i - (w1.len() - 1)));
        }
    }
    assert(walk_between(edges, v, a, c));
}

/// A walk of a graph is a walk of every graph with more edges.
pub proof fn lemma_walk_monotone(small: Set<(int, int)>, large: Set<(int, int)>, w: Seq<int>)
    requires
        small.subset_of(large),
        is_walk(small, w),
    ensures
        is_walk(large, w),
{
    assert forall|i: int| 0 <= i < w.len() - 1 implies #[trigger] step(large, w, i) by {
        assert(step(small, w, i));
    }
}

/// Taking edges away creates no cycle.
pub proof fn lemma_acyclic_monotone(small: Set<(int, int)>, large: Set<(int, int)>)
    requires
        small.subset_of(large),
        !has_cycle(large),
    ensures
        !has_cycle(small),
{
    if has_cycle(small) {
        let w = choose|w: Seq<int>| is_cycle(small, w);
        lemma_walk_monotone(small, large, w);
        assert(is_cycle(large, w));
    }
}

/// A set is closed towards the sources when it holds the source of every
/// edge whose target it holds.
pub open spec fn closed_backwards(edges: Set<(int, int)>, s: Set<int>) -> bool {
    forall|x: int, y: int| #[trigger] edges.contains((x, y)) && s.contains(y) ==> s.contains(x)
}

/// A walk that ends in a set closed towards the sources lies in the set.
proof fn lemma_walk_stays_inside(edges: Set<(int, int)>, s: Set<int>, w: Seq<int>, i: int)
    requires
        is_walk(edges, w),
        closed_backwards(edges, s),
        s.contains(w[w.len() - 1]),
        0 <= i < w.len(),
    ensures
        s.contains(w[i]),
    decreases w.len() - i,
{
    if i < w.len() - 1 {
        lemma_walk_stays_inside(edges, s, w, i + 1);
        assert(step(edges, w, i));
    }
}

/// A set that is closed towards the sources holds every vertex that reaches
/// one of its members.
pub proof fn lemma_closed_holds_sources(edges: Set<(int, int)>, s: Set<int>, a: int, b: int)
    requires
        closed_backwards(edges, s),
        s.contains(b),
        reaches(edges, a, b),
    ensures
        s.contains(a),
{
    let w = choose|w: Seq<int>| walk_between(edges, w, a, b);
    lemma_walk_stays_inside(edges, s, w, 0);
}

/// What is known of the first `k` edges of a walk in a graph that has the
/// edge `(u, v)` more than `edges`: they avoid the new edge, or the walk has
/// passed through it.
spec fn prefix_split(edges: Set<(int, int)>, u: int, v: int, w: Seq<int>, k: int) -> bool {
    ||| is_walk(edges, w.take(k + 1))
    ||| (reaches(edges, w[0], u) && reaches(edges, v, w[k]))
}

/// Every prefix of a walk in the graph with the new edge is split in one
/// of the two ways, as long as `v` does not reach `u` without that edge.
proof fn lemma_prefix_split(edges: Set<(int, int)>, u: int, v: int, w: Seq<int>, k: int)
    requires
        is_walk(edges.insert((u, v)), w),
        !reaches(edges, v, u),
        0 <= k < w.len(),
    ensures
        prefix_split(edges, u, v, w, k),
    decreases k,
{
    if k == 0 {
        assert(is_walk(edges, w.take(1)));
    } else {
        lemma_prefix_split(edges, u, v, w, k - 1);
        assert(step(edges.insert((u, v)), w, k - 1));
        let p = w.take(k);
        let q = w.take(k + 1);
        if is_walk(edges, p) {
            if edges.contains((w[k - 1], w[k])) {
                assert forall|i: int| 0 <= i < q.len() - 1 implies #[trigger] step(edges, q, i) by {
                    if i < k - 1 {
                        assert(step(edges, p, i));
                    }
                }
            } else {
                assert(walk_between(edges, p, w[0], u));
                lemma_reaches_self(edges, v);
            }
        } else {
            if edges.contains((w[k - 1], w[k])) {
                lemma_reaches_append(edges, v, w[k - 1], w[k]);
            } else {
                assert(false);
            }
        }
    }
}

/// A new edge from `u` to `v` closes no cycle unless `v` reached `u` before.
pub proof fn lemma_insert_keeps_acyclic(edges: Set<(int, int)>, u: int, v: int)
    requires
        !has_cycle(edges),
        !reaches(edges, v, u),
    ensures
        !has_cycle(edges.insert((u, v))),
{
    let more = edges.insert((u, v));
    if has_cycle(more) {
        let w = choose|w: Seq<int>| is_cycle(more, w);
        let k = w.len() - 1;
        lemma_prefix_split(edges, u, v, w, k);
        if is_walk(edges, w.take(k + 1)) {
            assert(w.take(k + 1) =~= w);
            assert(is_cycle(edges, w));
        } else {
            lemma_reaches_trans(edges, v, w[0], u);
        }
    }
}

/// A graph whose every edge leads to a vertex of higher rank has no cycle.
pub proof fn lemma_ranked_is_acyclic(edges: Set<(int, int)>, rank: spec_fn(int) -> int)
    requires
        forall|a: int, b: int| #[trigger] edges.contains((a, b)) ==> rank(a) < rank(b),
    ensures
        !has_cycle(edges),
{
    if has_cycle(edges) {
        let w = choose|w: Seq<int>| is_cycle(edges, w);
        lemma_rank_grows(edges, rank, w, w.len() - 1);
    }
}

/// Along a walk in a ranked graph the rank grows.
proof fn lemma_rank_grows(edges: Set<(int, int)>, rank: spec_fn(int) -> int, w: Seq<int>, i: int)
    requires
        forall|a: int, b: int| #[trigger] edges.contains((a, b)) ==> rank(a) < rank(b),
        is_walk(edges, w),
        1 <= i < w.len(),
    ensures
        rank(w[0]) < rank(w[i]),
    decreases i,
{
    assert(step(edges, w, i - 1));
    if i > 1 {
        lemma_rank_grows(edges, rank, w, i - 1);
    }
}

} // verus!
