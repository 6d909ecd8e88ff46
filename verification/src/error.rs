//! Failures and terminal outcomes of a solve.

use vstd::prelude::*;

verus! {

/// Why the solver gave up on an equation.
#[derive(Debug, Clone, Copy, PartialEq, Eq, Structural)]
pub enum FailureReason {
    /// A division by a value equal to zero.
    DivisionByZero,
    /// No rewrite rule matches the equation.
    NoApplicableRule,
    /// The degree of the equation is beyond the closed forms at hand.
    DegreeUnsupported,
    /// The statement is of no kind that the solver handles.
    UnclassifiedForm,
    /// Function calls are nested deeper than the solver follows them.
    IterationLimitExceeded,
}

/// How a solve ended.
#[derive(Debug, Clone, Copy, PartialEq, Eq, Structural)]
pub enum TerminalStatus {
    /// The unknown is isolated.
    Solved,
    /// No value of the unknown satisfies the statement.
    NoSolution,
    /// Every value of the unknown satisfies the statement.
    InfiniteSolutions,
    /// The solver gave up.
    Failed(FailureReason),
}

/// A name that could not be resolved, by the kind of lookup that failed.
pub enum SymbolErrorForm {
    /// A name without a bound value.
    UndefinedSymbol(Seq<char>),
    /// A name without a function definition.
    UndefinedFunction(Seq<char>),
    /// A name that is neither the unknown nor known to the environment.
    UnresolvableSymbol(Seq<char>),
}

/// A failure to resolve a name; it carries the name.
#[derive(Debug)]
pub enum SolveError {
    /// A name without a bound value.
    UndefinedSymbol(String),
    /// A name without a function definition.
    UndefinedFunction(String),
    /// A name that is neither the unknown nor known to the environment.
    UnresolvableSymbol(String),
}

impl View for SolveError {
    type V = SymbolErrorForm;

    open spec fn view(&self) -> SymbolErrorForm {
        match self {
            SolveError::UndefinedSymbol(name) => SymbolErrorForm::UndefinedSymbol(name@),
            SolveError::UndefinedFunction(name) => SymbolErrorForm::UndefinedFunction(name@),
            SolveError::UnresolvableSymbol(name) => SymbolErrorForm::UnresolvableSymbol(name@),
        }
    }
}

impl SolveError {
    /// The name that could not be resolved.
    pub fn name(&self) -> (r: &String)
        ensures
            self@ == SymbolErrorForm::UndefinedSymbol(r@) || self@
                == SymbolErrorForm::UndefinedFunction(r@) || self@
                == SymbolErrorForm::UnresolvableSymbol(r@),
    {
        match self {
            SolveError::UndefinedSymbol(name) => name,
            SolveError::UndefinedFunction(name) => name,
            SolveError::UnresolvableSymbol(name) => name,
        }
    }
}

} // verus!
