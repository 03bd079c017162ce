//! Evenly spread positions.

use crate::global_params::MAX_NODES;
use vstd::prelude::*;

verus! {

/// The `k`-th of `num` positions spread evenly from `start` to `stop`, both
/// included: the steps are as equal as whole numbers allow, each position
/// being rounded down. A single position is `start`.
pub open spec fn spec_linspace(start: int, stop: int, num: int, k: int) -> int {
    if num <= 1 {
        start
    } else {
        start + (k * (stop - start)) / (num - 1)
    }
}

/// With at least as much room as steps, a step further is a position
/// further.
pub proof fn lemma_linspace_step(start: int, stop: int, num: int, k: int)
    requires
        num >= 2,
        num - 1 <= stop - start,
        0 <= k,
    ensures
        spec_linspace(start, stop, num, k) < spec_linspace(start, stop, num, k + 1),
{
    let span = stop - start;
    let steps = num - 1;
    assert((k + 1) * span == k * span + span) by (nonlinear_arith);
    vstd::arithmetic::div_mod::lemma_div_is_ordered(steps + k * span, span + k * span, steps);
    vstd::arithmetic::div_mod::lemma_div_plus_one(k * span, steps);
}

/// The positions keep their order.
pub proof fn lemma_linspace_rises(start: int, stop: int, num: int, i: int, j: int)
    requires
        num >= 2,
        num - 1 <= stop - start,
        0 <= i < j,
    ensures
        spec_linspace(start, stop, num, i) < spec_linspace(start, stop, num, j),
    decreases j - i,
{
    lemma_linspace_step(start, stop, num, j - 1);
    if i < j - 1 {
        lemma_linspace_rises(start, stop, num, i, j - 1);
    }
}

/// The first position is `start`, the last one `stop`.
pub proof fn lemma_linspace_ends(start: int, stop: int, num: int)
    requires
        num >= 2,
        start <= stop,
    ensures
        spec_linspace(start, stop, num, 0) == start,
        spec_linspace(start, stop, num, num - 1) == stop,
{
    let span = stop - start;
    let steps = num - 1;
    assert(0 * span == 0) by (nonlinear_arith);
    assert(steps * span == span * steps) by (nonlinear_arith);
    vstd::arithmetic::div_mod::lemma_div_by_multiple(span, steps);
}

/// Every position lies between `start` and `stop`.
pub proof fn lemma_linspace_range(start: int, stop: int, num: int, k: int)
    requires
        num >= 1,
        start <= stop,
        0 <= k < num,
    ensures
        start <= spec_linspace(start, stop, num, k) <= stop,
{
    if num >= 2 {
        let span = stop - start;
        let steps = num - 1;
        assert(0 <= k * span <= steps * span) by (nonlinear_arith)
            requires
                0 <= k <= steps,
                0 <= span,
        ;
        assert(steps * span == span * steps) by (nonlinear_arith);
        vstd::arithmetic::div_mod::lemma_div_is_ordered(0, k * span, steps);
        vstd::arithmetic::div_mod::lemma_div_is_ordered(k * span, span * steps, steps);
        vstd::arithmetic::div_mod::lemma_div_by_multiple(span, steps);
    }
}

/// `num` positions spread evenly from `start` to `stop`, both included, in
/// rising order.
pub fn linspace(start: usize, stop: usize, num: usize) -> (positions: Vec<usize>)
    requires
        start <= stop <= MAX_NODES,
        num <= MAX_NODES,
    ensures
        positions@.len() == num,
        forall|k: int|
            0 <= k < num ==> positions@[k] == spec_linspace(
                start as int,
                stop as int,
                num as int,
                k,
            ),
        forall|k: int| 0 <= k < num ==> start <= #[trigger] positions@[k] && positions@[k] <= stop,
        num >= 2 && num - 1 <= stop - start ==> forall|i: int, j: int|
            0 <= i < j < num ==> positions@[i] < positions@[j],
        num >= 1 ==> positions@[0] == start,
        num >= 2 ==> positions@[num - 1] == stop,
{
    let mut positions: Vec<usize> = Vec::new();
    let span: u64 = (stop - start) as u64;
    let mut k: usize = 0;
    while k < num
        invariant
            start <= stop <= MAX_NODES,
            num <= MAX_NODES,
            span == stop - start,
            k <= num,
            positions@.len() == k,
            forall|i: int|
                0 <= i < k ==> positions@[i] == spec_linspace(
                    start as int,
                    stop as int,
                    num as int,
                    i,
                ),
        decreases num - k,
    {
        proof {
            lemma_linspace_range(start as int, stop as int, num as int, k as int);
        }
        if num == 1 {
            positions.push(start);
        } else {
            assert(0 <= (k as int) * (span as int) <= 0x7fff_ffff * 0x7fff_ffff) by (nonlinear_arith)
                requires
                    0 <= k <= 0x7fff_ffff,
                    0 <= span <= 0x7fff_ffff,
            ;
            let offset: u64 = ((k as u64) * span) / ((num - 1) as u64);
            positions.push(start + (offset as usize));
        }
        k += 1;
    }
    proof {
        if num >= 2 {
            lemma_linspace_ends(start as int, stop as int, num as int);
        }
        assert forall|k: int| 0 <= k < num implies start <= #[trigger] positions@[k]
            && positions@[k] <= stop by {
            lemma_linspace_range(start as int, stop as int, num as int, k);
        }
        if num >= 2 && num - 1 <= stop - start {
            assert forall|i: int, j: int| 0 <= i < j < num implies positions@[i] < positions@[j] by {
                lemma_linspace_rises(start as int, stop as int, num as int, i, j);
            }
        }
    }
    positions
}

} // verus!
