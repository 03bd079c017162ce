//! The tables of operations.

use vstd::prelude::*;

verus! {

/// The table of operations that the computational nodes choose from.
#[derive(Clone, Copy, Debug, PartialEq, Eq, Structural)]
pub enum FunctionSet {
    /// AND, OR, NAND, NOR: four operations on two operands.
    Boolean,
    /// Addition, subtraction, multiplication and division on two operands,
    /// then sine, cosine, natural logarithm and exponential on one.
    Regression,
}

impl FunctionSet {
    /// The number of operations in the table; their ids are the numbers
    /// below it.
    pub open spec fn spec_size(&self) -> usize {
        match *self {
            FunctionSet::Boolean => 4,
            FunctionSet::Regression => 8,
        }
    }

    /// How many operands the operation `function_id` reads.
    pub open spec fn spec_arity(&self, function_id: usize) -> usize {
        match *self {
            FunctionSet::Boolean => 2,
            FunctionSet::Regression => if function_id <= 3 {
                2
            } else {
                1
            },
        }
    }

    /// The number of operations in the table.
    pub fn size(&self) -> (n: usize)
        ensures
            n == self.spec_size(),
            n >= 2,
    {
        match self {
            FunctionSet::Boolean => 4,
            FunctionSet::Regression => 8,
        }
    }

    /// How many operands the operation `function_id` reads: two, or one.
    pub fn arity(&self, function_id: usize) -> (n: usize)
        ensures
            n == self.spec_arity(function_id),
            n == 1 || n == 2,
    {
        match self {
            FunctionSet::Boolean => 2,
            FunctionSet::Regression => if function_id <= 3 {
                2
            } else {
                1
            },
        }
    }
}

} // verus!
