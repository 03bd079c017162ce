//! The edge tracker: it knows which position reads from which, and tells
//! whether a new edge would close a cycle.

use crate::utils::reachability::{
    closed_backwards, has_cycle, lemma_closed_holds_sources, lemma_reaches_prepend,
    lemma_reaches_self, reaches,
};
use crate::utils::utility_funcs::first_index_of;
use crate::utils::visit_marks::{clear_marks, lemma_mark_one, unmarked};
use vstd::multiset::Multiset;
use vstd::prelude::*;

verus! {

/// The directed dependency edges of one genotype: for every position the
/// positions it reads from, with multiplicity.
#[derive(Debug)]
pub struct CGPEdges {
    targets: Vec<Vec<usize>>,
}

/// The edges of a tracker as pairs `(source of data, reader)`: the pair
/// `(c, p)` is an edge when position `p` reads from position `c`.
pub open spec fn feed_edges(deps: Seq<Multiset<usize>>) -> Set<(int, int)> {
    Set::new(
        |e: (int, int)|
            0 <= e.1 < deps.len() && 0 <= e.0 <= usize::MAX && deps[e.1].count(e.0 as usize) > 0,
    )
}

impl View for CGPEdges {
    type V = Seq<Multiset<usize>>;

    /// Entry `p` is the multiset of positions that position `p` reads from.
    closed spec fn view(&self) -> Seq<Multiset<usize>> {
        Seq::new(self.targets@.len(), |p: int| self.targets@[p]@.to_multiset())
    }
}

impl CGPEdges {
    /// Every position that is read from is a position of the tracker.
    pub open spec fn wf(&self) -> bool {
        forall|p: int, c: usize|
            0 <= p < self@.len() && #[trigger] self@[p].count(c) > 0 ==> c < self@.len()
    }

    /// The edges as pairs `(source of data, reader)`.
    pub open spec fn feeds(&self) -> Set<(int, int)> {
        feed_edges(self@)
    }

    /// A tracker over `nbr_nodes` positions without any edge.
    pub fn new(nbr_nodes: usize) -> (edges: CGPEdges)
        ensures
            edges@.len() == nbr_nodes,
            forall|p: int| 0 <= p < nbr_nodes ==> edges@[p] == Multiset::<usize>::empty(),
            edges.wf(),
            edges.feeds() == Set::<(int, int)>::empty(),
    {
        let mut targets: Vec<Vec<usize>> = Vec::new();
        let mut i: usize = 0;
        while i < nbr_nodes
            invariant
                i <= nbr_nodes,
                targets@.len() == i,
                forall|p: int| 0 <= p < i ==> targets@[p]@.len() == 0,
            decreases nbr_nodes - i,
        {
            targets.push(Vec::new());
            i += 1;
        }
        let edges = CGPEdges { targets };
        proof {
            assert forall|p: int| 0 <= p < nbr_nodes implies edges@[p] == Multiset::<usize>::empty() by {
                vstd::seq_lib::to_multiset_len(edges.targets@[p]@);
                vstd::multiset::lemma_multiset_empty_len(edges@[p]);
                assert(edges@[p] =~= Multiset::<usize>::empty());
            }
            assert(edges.feeds() =~= Set::<(int, int)>::empty());
        }
        edges
    }

    /// The number of positions that the tracker covers.
    pub fn len(&self) -> (n: usize)
        ensures
            n == self@.len(),
    {
        self.targets.len()
    }

    /// Records that position `from` reads from position `to`.
    pub fn add_edge(&mut self, from: usize, to: usize)
        requires
            from < old(self)@.len(),
            to < old(self)@.len(),
        ensures
            final(self)@ == old(self)@.update(from as int, old(self)@[from as int].insert(to)),
            old(self).wf() ==> final(self).wf(),
            final(self).feeds() == old(self).feeds().insert((to as int, from as int)),
    {
        let row = &mut self.targets[from];
        row.push(to);
        proof {
            broadcast use vstd::seq_lib::to_multiset_build;

            assert(final(self)@ =~= old(self)@.update(
                from as int,
                old(self)@[from as int].insert(to),
            ));
            assert(final(self).feeds() =~= old(self).feeds().insert((to as int, from as int)));
        }
    }

    /// Forgets one reading of position `to` by position `from`, if there is
    /// one.
    pub fn remove_edge(&mut self, from: usize, to: usize)
        requires
            from < old(self)@.len(),
        ensures
            final(self)@ == old(self)@.update(from as int, old(self)@[from as int].remove(to)),
            old(self).wf() ==> final(self).wf(),
            final(self).feeds().subset_of(old(self).feeds()),
    {
        let found = first_index_of(&self.targets[from], to);
        match found {
            Some(k) => {
                let row = &mut self.targets[from];
                row.remove(k);
                proof {
                    vstd::seq_lib::to_multiset_remove(old(self).targets@[from as int]@, k as int);
                }
            },
            None => {
                proof {
                    vstd::seq_lib::to_multiset_contains(old(self).targets@[from as int]@, to);
                    assert(old(self)@[from as int].remove(to) =~= old(self)@[from as int]);
                }
            },
        }
        proof {
            assert(final(self)@ =~= old(self)@.update(
                from as int,
                old(self)@[from as int].remove(to),
            ));
        }
    }

    /// Whether position `from` reads from exactly `to0` and `to1`, each as
    /// often as it is named.
    pub fn reads_pair(&self, from: usize, to0: usize, to1: usize) -> (exactly: bool)
        requires
            from < self@.len(),
        ensures
            exactly == (self@[from as int] == Multiset::<usize>::empty().insert(to0).insert(to1)),
    {
        let row = &self.targets[from];
        let ghost pair = Multiset::<usize>::empty().insert(to0).insert(to1);
        proof {
            vstd::seq_lib::to_multiset_len(row@);
            assert(pair.len() == 2);
            if row@.len() == 2 {
                let two = Seq::<usize>::empty().push(row@[0]).push(row@[1]);
                assert(two =~= row@);
                broadcast use vstd::seq_lib::to_multiset_build;

                vstd::seq_lib::to_multiset_len(Seq::<usize>::empty());
                vstd::multiset::lemma_multiset_empty_len(Seq::<usize>::empty().to_multiset());
                assert(Seq::<usize>::empty().to_multiset() =~= Multiset::<usize>::empty());
                assert(row@.to_multiset() =~= Multiset::<usize>::empty().insert(row@[0]).insert(
                    row@[1],
                ));
                let held = Multiset::<usize>::empty().insert(row@[0]).insert(row@[1]);
                if held == pair {
                    assert(pair.count(row@[0]) > 0);
                    assert(pair.count(row@[1]) > 0);
                    assert(held.count(to0) == pair.count(to0));
                    assert(held.count(to1) == pair.count(to1));
                }
                if (row@[0] == to0 && row@[1] == to1) || (row@[0] == to1 && row@[1] == to0) {
                    assert(held =~= pair);
                }
            }
        }
        row.len() == 2 && ((row[0] == to0 && row[1] == to1) || (row[0] == to1 && row[1] == to0))
    }

    /// Whether position `from` reads from no position.
    pub fn reads_nothing(&self, from: usize) -> (nothing: bool)
        requires
            from < self@.len(),
        ensures
            nothing == (self@[from as int] == Multiset::<usize>::empty()),
    {
        proof {
            vstd::seq_lib::to_multiset_len(self.targets@[from as int]@);
            vstd::multiset::lemma_multiset_empty_len(self@[from as int]);
        }
        self.targets[from].len() == 0
    }

    /// Whether a new edge by which `from` reads from `to` would close a
    /// cycle: whether `to` already depends on `from`, or is `from` itself.
    /// The tracker stays as it is.
    pub fn leads_to_cycle(&self, from: usize, to: usize) -> (cyclic: bool)
        requires
            self.wf(),
            from < self@.len(),
            to < self@.len(),
        ensures
            cyclic == reaches(self.feeds(), from as int, to as int),
    {
        let n = self.targets.len();
        let mut seen = clear_marks(n);
        let mut stack: Vec<usize> = Vec::new();
        seen[to] = true;
        stack.push(to);
        proof {
            lemma_reaches_self(self.feeds(), to as int);
            assert(stack@[0] == to);
        }
        while stack.len() > 0
            invariant
                self.wf(),
                n == self.targets@.len(),
                seen@.len() == n,
                from < n,
                to < n,
                seen@[to as int],
                forall|k: int| 0 <= k < stack@.len() ==> stack@[k] < n && seen@[stack@[k] as int],
                forall|x: int| 0 <= x < n && seen@[x] ==> reaches(self.feeds(), x, to as int),
                forall|x: int, y: int|
                    0 <= y < n && seen@[y] && #[trigger] self.feeds().contains((x, y)) ==> seen@[x]
                        || stack@.contains(y as usize),
                seen@[from as int] ==> stack@.contains(from),
            decreases 2 * unmarked(seen@) + stack@.len(),
        {
            let ghost stack_before = stack@;
            let ghost measure = 2 * unmarked(seen@) + stack@.len();
            let cur = stack.pop().unwrap();
            if cur == from {
                return true;
            }
            proof {
                assert forall|y: usize| stack_before.contains(y) && y != cur implies stack@.contains(
                    y,
                ) by {
                    let k = choose|k: int| 0 <= k < stack_before.len() && stack_before[k] == y;
                    assert(stack@[k] == y);
                }
            }
            let mut j: usize = 0;
            while j < self.targets[cur].len()
                invariant
                    self.wf(),
                    n == self.targets@.len(),
                    seen@.len() == n,
                    from < n,
                    to < n,
                    cur < n,
                    cur != from,
                    seen@[cur as int],
                    seen@[to as int],
                    j <= self.targets@[cur as int]@.len(),
                    forall|k: int| 0 <= k < stack@.len() ==> stack@[k] < n && seen@[stack@[k] as int],
                    forall|x: int| 0 <= x < n && seen@[x] ==> reaches(self.feeds(), x, to as int),
                    forall|x: int, y: int|
                        0 <= y < n && seen@[y] && #[trigger] self.feeds().contains((x, y))
                            ==> seen@[x] || stack@.contains(y as usize) || y == cur,
                    forall|k: int|
                        0 <= k < j ==> self.targets@[cur as int]@[k] < n
                            && seen@[self.targets@[cur as int]@[k] as int],
                    seen@[from as int] ==> stack@.contains(from),
                    2 * unmarked(seen@) + stack@.len() < measure,
                decreases self.targets@[cur as int]@.len() - j,
            {
                let next = self.targets[cur][j];
                proof {
                    vstd::seq_lib::to_multiset_contains(self.targets@[cur as int]@, next);
                    assert(self.targets@[cur as int]@.contains(next));
                    assert(self@[cur as int].count(next) > 0);
                    assert(self.feeds().contains((next as int, cur as int)));
                }
                if !seen[next] {
                    proof {
                        lemma_mark_one(seen@, next as int);
                        lemma_reaches_prepend(self.feeds(), next as int, cur as int, to as int);
                    }
                    let ghost stack_mid = stack@;
                    seen[next] = true;
                    stack.push(next);
                    proof {
                        assert forall|y: usize| stack_mid.contains(y) implies stack@.contains(y) by {
                            let k = choose|k: int| 0 <= k < stack_mid.len() && stack_mid[k] == y;
                            assert(stack@[k] == y);
                        }
                        assert(stack@[stack@.len() - 1] == next);
                    }
                }
                j += 1;
            }
            proof {
                assert forall|x: int|
                    #[trigger] self.feeds().contains((x, cur as int)) implies seen@[x] by {
                    vstd::seq_lib::to_multiset_contains(self.targets@[cur as int]@, x as usize);
                    let k = choose|k: int|
                        0 <= k < self.targets@[cur as int]@.len() && self.targets@[cur as int]@[k]
                            == x as usize;
                    assert(seen@[self.targets@[cur as int]@[k] as int]);
                }
            }
        }
        proof {
            let inside = Set::new(|x: int| 0 <= x < n && seen@[x]);
            assert(closed_backwards(self.feeds(), inside)) by {
                assert forall|x: int, y: int| #[trigger]
                    self.feeds().contains((x, y)) && inside.contains(y) implies inside.contains(
                    x,
                ) by {
                    assert(!stack@.contains(y as usize));
                    assert(self@[y].count(x as usize) > 0);
                }
            }
            if reaches(self.feeds(), from as int, to as int) {
                lemma_closed_holds_sources(self.feeds(), inside, from as int, to as int);
                assert(stack@.contains(from));
            }
        }
        false
    }
}

impl Clone for CGPEdges {
    /// A tracker of its own with the same edges.
    fn clone(&self) -> (copy: CGPEdges)
        ensures
            copy@ == self@,
    {
        let mut targets: Vec<Vec<usize>> = Vec::new();
        let mut p: usize = 0;
        while p < self.targets.len()
            invariant
                p <= self.targets@.len(),
                targets@.len() == p,
                forall|q: int| 0 <= q < p ==> targets@[q]@ == self.targets@[q]@,
            decreases self.targets@.len() - p,
        {
            let mut row: Vec<usize> = Vec::new();
            let mut k: usize = 0;
            while k < self.targets[p].len()
                invariant
                    p < self.targets@.len(),
                    k <= self.targets@[p as int]@.len(),
                    row@ == self.targets@[p as int]@.take(k as int),
                decreases self.targets@[p as int]@.len() - k,
            {
                row.push(self.targets[p][k]);
                proof {
                    assert(self.targets@[p as int]@.take(k + 1) =~= self.targets@[p as int]@.take(
                        k as int,
                    ).push(self.targets@[p as int]@[k as int]));
                }
                k += 1;
            }
            proof {
                assert(self.targets@[p as int]@.take(k as int) =~= self.targets@[p as int]@);
            }
            targets.push(row);
            p += 1;
        }
        let copy = CGPEdges { targets };
        proof {
            assert(copy@ =~= self@);
        }
        copy
    }
}

/// Replacing one edge by another that closes no cycle keeps a graph free of
/// cycles.
pub proof fn lemma_redirect_keeps_acyclic(
    before: Set<(int, int)>,
    after: Set<(int, int)>,
    reader: int,
    source: int,
)
    requires
        !has_cycle(before),
        !reaches(before, reader, source),
        after.subset_of(before.insert((source, reader))),
    ensures
        !has_cycle(after),
{
    crate::utils::reachability::lemma_insert_keeps_acyclic(before, source, reader);
    crate::utils::reachability::lemma_acyclic_monotone(after, before.insert((source, reader)));
}

} // verus!
