//! The boolean operations on columns of truth values.

use vstd::prelude::*;

verus! {

/// Entry `i` of the result is entry `i` of `con1` and entry `i` of `con2`.
pub fn and(con1: &Vec<bool>, con2: &Vec<bool>) -> (out: Vec<bool>)
    requires
        con1@.len() == con2@.len(),
    ensures
        out@.len() == con1@.len(),
        forall|i: int| 0 <= i < out@.len() ==> out@[i] == (con1@[i] && con2@[i]),
{
    let mut out: Vec<bool> = Vec::new();
    let mut i: usize = 0;
    while i < con1.len()
        invariant
            con1@.len() == con2@.len(),
            i <= con1@.len(),
            out@.len() == i,
            forall|k: int| 0 <= k < i ==> out@[k] == (con1@[k] && con2@[k]),
        decreases con1@.len() - i,
    {
        out.push(con1[i] && con2[i]);
        i += 1;
    }
    out
}

/// Entry `i` of the result is entry `i` of `con1` or entry `i` of `con2`.
pub fn or(con1: &Vec<bool>, con2: &Vec<bool>) -> (out: Vec<bool>)
    requires
        con1@.len() == con2@.len(),
    ensures
        out@.len() == con1@.len(),
        forall|i: int| 0 <= i < out@.len() ==> out@[i] == (con1@[i] || con2@[i]),
{
    let mut out: Vec<bool> = Vec::new();
    let mut i: usize = 0;
    while i < con1.len()
        invariant
            con1@.len() == con2@.len(),
            i <= con1@.len(),
            out@.len() == i,
            forall|k: int| 0 <= k < i ==> out@[k] == (con1@[k] || con2@[k]),
        decreases con1@.len() - i,
    {
        out.push(con1[i] || con2[i]);
        i += 1;
    }
    out
}

/// Every entry negated.
fn negated(values: Vec<bool>) -> (out: Vec<bool>)
    ensures
        out@.len() == values@.len(),
        forall|i: int| 0 <= i < out@.len() ==> out@[i] == !values@[i],
{
    let mut out: Vec<bool> = Vec::new();
    let mut i: usize = 0;
    while i < values.len()
        invariant
            i <= values@.len(),
            out@.len() == i,
            forall|k: int| 0 <= k < i ==> out@[k] == !values@[k],
        decreases values@.len() - i,
    {
        out.push(!values[i]);
        i += 1;
    }
    out
}

/// Entry `i` of the result is false exactly when entry `i` of both operands
/// is true.
pub fn nand(con1: &Vec<bool>, con2: &Vec<bool>) -> (out: Vec<bool>)
    requires
        con1@.len() == con2@.len(),
    ensures
        out@.len() == con1@.len(),
        forall|i: int| 0 <= i < out@.len() ==> out@[i] == !(con1@[i] && con2@[i]),
{
    negated(and(con1, con2))
}

/// Entry `i` of the result is true exactly when entry `i` of both operands
/// is false.
pub fn nor(con1: &Vec<bool>, con2: &Vec<bool>) -> (out: Vec<bool>)
    requires
        con1@.len() == con2@.len(),
    ensures
        out@.len() == con1@.len(),
        forall|i: int| 0 <= i < out@.len() ==> out@[i] == !(con1@[i] || con2@[i]),
{
    negated(or(con1, con2))
}

/// What the boolean operation `function_id` gives on the operands `a` and
/// `b`: 0 is AND, 1 is OR, 2 is NAND and 3 is NOR.
pub open spec fn apply_boolean(function_id: usize, a: bool, b: bool) -> bool {
    if function_id == 0 {
        a && b
    } else if function_id == 1 {
        a || b
    } else if function_id == 2 {
        !(a && b)
    } else {
        !(a || b)
    }
}

} // verus!
