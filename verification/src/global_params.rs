//! The settings of an experiment and the test whether a genotype can be
//! built from them.

use crate::utils::function_set::FunctionSet;
use vstd::prelude::*;

verus! {

/// The largest number of nodes that a genotype may have. Twice this many
/// edges still fit the 32-bit indices of the dependency graph.
pub const MAX_NODES: usize = 0x7fff_ffff;

/// The settings of one experiment.
#[derive(Clone, Copy, Debug, PartialEq, Eq, Structural)]
pub struct CgpParameters {
    /// The number of computational nodes of a genotype.
    pub nbr_computational_nodes: usize,
    /// The number of individuals that a generation brings forth.
    pub population_size: usize,
    /// The number of parents.
    pub mu: usize,
    /// The number of children.
    pub lambda: usize,
    /// After how many generations the progress is reported.
    pub eval_after_iterations: usize,
    /// The number of input nodes of a genotype.
    pub nbr_inputs: usize,
    /// The number of output nodes of a genotype.
    pub nbr_outputs: usize,
    /// The kind of recombination: 0 for one point, 1 for several points,
    /// 2 for uniform, 3 for none.
    pub crossover_type: usize,
    /// How many individuals compete for being a parent.
    pub tournament_size: usize,
    /// How many of the best individuals are kept as they are.
    pub elitism_number: usize,
    /// The number of points of a recombination at several points.
    pub multi_point_n: usize,
    /// What `reorder` does to a genotype with ordered positions: with 1 it
    /// spreads the active nodes evenly, with any other value nothing.
    pub cgp_type: usize,
    /// The table of operations of the computational nodes.
    pub function_set: FunctionSet,
}

/// Why a genotype cannot be built from given settings.
#[derive(Clone, Copy, Debug, PartialEq, Eq, Structural)]
pub enum ParameterError {
    /// There is no input node, so the first node has nothing to read.
    NoInputs,
    /// There is no computational node.
    NoComputationalNodes,
    /// There is no output node.
    NoOutputs,
    /// There are more than `MAX_NODES` nodes in all.
    TooManyNodes,
}

impl Default for CgpParameters {
    /// The settings before any is given: one parent, four children, the
    /// regression functions, and no node at all.
    fn default() -> (params: CgpParameters)
        ensures
            params == (CgpParameters {
                nbr_computational_nodes: 0,
                population_size: 0,
                mu: 1,
                lambda: 4,
                eval_after_iterations: 500,
                nbr_inputs: 0,
                nbr_outputs: 0,
                crossover_type: 0,
                tournament_size: 0,
                elitism_number: 0,
                multi_point_n: 0,
                cgp_type: 0,
                function_set: FunctionSet::Regression,
            }),
    {
        CgpParameters {
            nbr_computational_nodes: 0,
            population_size: 0,
            mu: 1,
            lambda: 4,
            eval_after_iterations: 500,
            nbr_inputs: 0,
            nbr_outputs: 0,
            crossover_type: 0,
            tournament_size: 0,
            elitism_number: 0,
            multi_point_n: 0,
            cgp_type: 0,
            function_set: FunctionSet::Regression,
        }
    }
}

impl CgpParameters {
    /// The first reason, if any, for which no genotype can be built.
    pub open spec fn spec_check(&self) -> Result<(), ParameterError> {
        if self.nbr_inputs == 0 {
            Err(ParameterError::NoInputs)
        } else if self.nbr_computational_nodes == 0 {
            Err(ParameterError::NoComputationalNodes)
        } else if self.nbr_outputs == 0 {
            Err(ParameterError::NoOutputs)
        } else if self.nbr_inputs + self.nbr_computational_nodes + self.nbr_outputs > MAX_NODES {
            Err(ParameterError::TooManyNodes)
        } else {
            Ok(())
        }
    }

    /// Whether a genotype can be built: at least one node of each role, and
    /// no more than `MAX_NODES` nodes in all.
    pub open spec fn valid(&self) -> bool {
        self.spec_check() is Ok
    }

    /// The number of input and computational nodes together: the positions
    /// that a connection may name.
    pub open spec fn spec_nbr_inner(&self) -> int {
        self.nbr_inputs + self.nbr_computational_nodes
    }

    /// The number of nodes of all roles.
    pub open spec fn spec_nbr_nodes(&self) -> int {
        self.nbr_inputs + self.nbr_computational_nodes + self.nbr_outputs
    }

    /// Tells whether a genotype can be built, and if not, why.
    pub fn check(&self) -> (checked: Result<(), ParameterError>)
        ensures
            checked == self.spec_check(),
    {
        if self.nbr_inputs == 0 {
            Err(ParameterError::NoInputs)
        } else if self.nbr_computational_nodes == 0 {
            Err(ParameterError::NoComputationalNodes)
        } else if self.nbr_outputs == 0 {
            Err(ParameterError::NoOutputs)
        } else if self.nbr_inputs > MAX_NODES || self.nbr_computational_nodes > MAX_NODES
            - self.nbr_inputs || self.nbr_outputs > MAX_NODES - self.nbr_inputs
            - self.nbr_computational_nodes {
            Err(ParameterError::TooManyNodes)
        } else {
            Ok(())
        }
    }

    /// The text that `describe` gives: a heading, then one line for each of
    /// eight settings with its name and its value in decimal digits, then a
    /// closing line.
    pub open spec fn spec_describe(&self) -> Seq<char> {
        "############ Parameters ############\ngraph_width: "@ + decimal_text(
            self.nbr_computational_nodes as nat,
        ) + "\nmu: "@ + decimal_text(self.mu as nat) + "\nlambda: "@ + decimal_text(
            self.lambda as nat,
        ) + "\neval_after_iterations: "@ + decimal_text(self.eval_after_iterations as nat)
            + "\nnbr_inputs: "@ + decimal_text(self.nbr_inputs as nat) + "\nnbr_outputs: "@
            + decimal_text(self.nbr_outputs as nat) + "\ncrossover_type: "@ + decimal_text(
            self.crossover_type as nat,
        ) + "\nmulti_point_n: "@ + decimal_text(self.multi_point_n as nat)
            + "\n#########################\n"@
    }

    /// A text that names the settings, for diagnostics: the number of
    /// computational nodes, of parents and of children, the reporting
    /// interval, the numbers of inputs and outputs, and the kind and the
    /// number of points of the recombination, one to a line.
    pub fn describe(&self) -> (text: String)
        ensures
            text@ == self.spec_describe(),
    {
        let mut text = String::from_str("############ Parameters ############\ngraph_width: ");
        text.append(decimal(self.nbr_computational_nodes).as_str());
        text.append("\nmu: ");
        text.append(decimal(self.mu).as_str());
        text.append("\nlambda: ");
        text.append(decimal(self.lambda).as_str());
        text.append("\neval_after_iterations: ");
        text.append(decimal(self.eval_after_iterations).as_str());
        text.append("\nnbr_inputs: ");
        text.append(decimal(self.nbr_inputs).as_str());
        text.append("\nnbr_outputs: ");
        text.append(decimal(self.nbr_outputs).as_str());
        text.append("\ncrossover_type: ");
        text.append(decimal(self.crossover_type).as_str());
        text.append("\nmulti_point_n: ");
        text.append(decimal(self.multi_point_n).as_str());
        text.append("\n#########################\n");
        text
    }
}

/// The digit for a number below ten, as a text.
pub open spec fn digit_text(d: nat) -> Seq<char> {
    if d == 0 {
        "0"@
    } else if d == 1 {
        "1"@
    } else if d == 2 {
        "2"@
    } else if d == 3 {
        "3"@
    } else if d == 4 {
        "4"@
    } else if d == 5 {
        "5"@
    } else if d == 6 {
        "6"@
    } else if d == 7 {
        "7"@
    } else if d == 8 {
        "8"@
    } else {
        "9"@
    }
}

/// The decimal digits of `n`, the most significant first, without leading
/// zeros; a single zero for 0.
pub open spec fn decimal_text(n: nat) -> Seq<char>
    decreases n,
{
    if n < 10 {
        digit_text(n)
    } else {
        decimal_text(n / 10) + digit_text(n % 10)
    }
}

/// The digit for a number below ten, as a text.
fn digit(d: usize) -> (text: &'static str)
    requires
        d < 10,
    ensures
        text@ == digit_text(d as nat),
{
    if d == 0 {
        "0"
    } else if d == 1 {
        "1"
    } else if d == 2 {
        "2"
    } else if d == 3 {
        "3"
    } else if d == 4 {
        "4"
    } else if d == 5 {
        "5"
    } else if d == 6 {
        "6"
    } else if d == 7 {
        "7"
    } else if d == 8 {
        "8"
    } else {
        "9"
    }
}

/// The decimal digits of `n`, as a text.
pub fn decimal(n: usize) -> (text: String)
    ensures
        text@ == decimal_text(n as nat),
    decreases n,
{
    if n < 10 {
        String::from_str(digit(n))
    } else {
        let mut text = decimal(n / 10);
        text.append(digit(n % 10));
        text
    }
}

} // verus!
