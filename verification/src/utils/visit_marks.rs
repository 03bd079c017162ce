//! Marks on positions, as a graph search sets them.

use vstd::prelude::*;

verus! {

/// How many entries of `marks` are still false.
pub open spec fn unmarked(marks: Seq<bool>) -> nat
    decreases marks.len(),
{
    if marks.len() == 0 {
        0
    } else {
        unmarked(marks.drop_last()) + if marks.last() { 0nat } else { 1nat }
    }
}

/// There are at most as many unmarked entries as entries.
pub proof fn lemma_unmarked_bound(marks: Seq<bool>)
    ensures
        unmarked(marks) <= marks.len(),
    decreases marks.len(),
{
    if marks.len() > 0 {
        lemma_unmarked_bound(marks.drop_last());
    }
}

/// Setting a mark that was not set leaves one unmarked entry fewer.
pub proof fn lemma_mark_one(marks: Seq<bool>, i: int)
    requires
        0 <= i < marks.len(),
        !marks[i],
    ensures
        unmarked(marks.update(i, true)) + 1 == unmarked(marks),
    decreases marks.len(),
{
    let after = marks.update(i, true);
    if i == marks.len() - 1 {
        assert(after.drop_last() =~= marks.drop_last());
    } else {
        lemma_mark_one(marks.drop_last(), i);
        assert(after.drop_last() =~= marks.drop_last().update(i, true));
    }
}

/// A vector of `n` marks, none of them set.
pub fn clear_marks(n: usize) -> (marks: Vec<bool>)
    ensures
        marks@.len() == n,
        forall|i: int| 0 <= i < n ==> !marks@[i],
{
    let mut marks: Vec<bool> = Vec::new();
    let mut i: usize = 0;
    while i < n
        invariant
            i <= n,
            marks@.len() == i,
            forall|k: int| 0 <= k < i ==> !marks@[k],
        decreases n - i,
    {
        marks.push(false);
        i += 1;
    }
    marks
}

/// The positions whose mark equals `wanted`, in rising order, where entry
/// `i` of `marks` belongs to position `offset + i`.
pub open spec fn positions_with(marks: Seq<bool>, wanted: bool, offset: int) -> Seq<usize>
    decreases marks.len(),
{
    if marks.len() == 0 {
        Seq::empty()
    } else {
        let rest = positions_with(marks.drop_last(), wanted, offset);
        if marks.last() == wanted {
            rest.push((offset + marks.len() - 1) as usize)
        } else {
            rest
        }
    }
}

/// What `positions_with` lists: each position whose mark is `wanted`, once
/// and in rising order. There are as many unmarked positions as entries
/// that are false.
pub proof fn lemma_positions_with(marks: Seq<bool>, wanted: bool, offset: int)
    requires
        0 <= offset,
        offset + marks.len() <= usize::MAX,
    ensures
        forall|k: int|
            0 <= k < positions_with(marks, wanted, offset).len() ==> offset <= (
            #[trigger] positions_with(marks, wanted, offset)[k]) < offset + marks.len(),
        forall|i: int, j: int|
            0 <= i < j < positions_with(marks, wanted, offset).len() ==> positions_with(
                marks,
                wanted,
                offset,
            )[i] < positions_with(marks, wanted, offset)[j],
        forall|p: usize| #[trigger]
            positions_with(marks, wanted, offset).contains(p) <==> offset <= p < offset
                + marks.len() && marks[p - offset] == wanted,
        positions_with(marks, false, offset).len() == unmarked(marks),
        positions_with(marks, true, offset).len() + unmarked(marks) == marks.len(),
    decreases marks.len(),
{
    if marks.len() > 0 {
        let head = marks.drop_last();
        lemma_positions_with(head, wanted, offset);
        lemma_positions_with(head, true, offset);
        lemma_positions_with(head, false, offset);
        let rest = positions_with(head, wanted, offset);
        let out = positions_with(marks, wanted, offset);
        let top = (offset + marks.len() - 1) as usize;
        assert forall|p: usize| #[trigger] out.contains(p) <==> offset <= p < offset + marks.len()
            && marks[p - offset] == wanted by {
            if rest.contains(p) {
                let k = choose|k: int| 0 <= k < rest.len() && rest[k] == p;
                assert(out[k] == p);
                assert(head[p - offset] == marks[p - offset]);
            }
            if out.contains(p) {
                let k = choose|k: int| 0 <= k < out.len() && out[k] == p;
                if k < rest.len() {
                    assert(rest[k] == p);
                }
            }
            if marks.last() == wanted {
                assert(out[out.len() - 1] == top);
            }
            if offset <= p < offset + marks.len() - 1 {
                assert(head[p - offset] == marks[p - offset]);
            }
        }
    }
}

/// The positions whose mark equals `wanted`, in rising order, where entry
/// `i` of `marks` belongs to position `offset + i`.
pub fn collect_positions(marks: &Vec<bool>, wanted: bool, offset: usize) -> (positions: Vec<usize>)
    requires
        offset + marks@.len() <= usize::MAX,
    ensures
        positions@ == positions_with(marks@, wanted, offset as int),
{
    let mut positions: Vec<usize> = Vec::new();
    let mut i: usize = 0;
    while i < marks.len()
        invariant
            offset + marks@.len() <= usize::MAX,
            i <= marks@.len(),
            positions@ == positions_with(marks@.take(i as int), wanted, offset as int),
        decreases marks@.len() - i,
    {
        proof {
            assert(marks@.take(i + 1).drop_last() =~= marks@.take(i as int));
        }
        if marks[i] == wanted {
            positions.push(offset + i);
        }
        i += 1;
    }
    proof {
        assert(marks@.take(i as int) =~= marks@);
    }
    positions
}

} // verus!
