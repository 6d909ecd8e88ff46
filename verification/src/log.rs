//! The record of a derivation: one step for each rewrite.

use crate::ast::{Statement, StatementForm};
use vstd::prelude::*;

verus! {

/// A rewrite rule.
#[derive(Debug, Clone, Copy, PartialEq, Eq, Structural)]
pub enum Rule {
    /// Multiply products and quotients out, and put values for bound names.
    Distribute,
    /// Move the terms in the unknown to the left and the constants to the
    /// right.
    MoveTerm,
    /// Add up the terms of one degree.
    CombineLikeTerms,
    /// Multiply both sides by minus one and turn the relation round.
    FlipInequality,
    /// Divide both sides by the coefficient of the unknown.
    DivideByCoefficient,
    /// Solve an equation of degree two by its discriminant.
    QuadraticFormula,
}

impl Rule {
    /// The stable name of the rule.
    pub open spec fn tag(self) -> Seq<char> {
        match self {
            Rule::Distribute => "distribute"@,
            Rule::MoveTerm => "move-term"@,
            Rule::CombineLikeTerms => "combine-like-terms"@,
            Rule::FlipInequality => "flip-inequality"@,
            Rule::DivideByCoefficient => "divide-by-coefficient"@,
            Rule::QuadraticFormula => "quadratic-formula"@,
        }
    }

    /// The stable name of the rule.
    pub fn name(self) -> (r: &'static str)
        ensures
            r@ == self.tag(),
    {
        match self {
            Rule::Distribute => "distribute",
            Rule::MoveTerm => "move-term",
            Rule::CombineLikeTerms => "combine-like-terms",
            Rule::FlipInequality => "flip-inequality",
            Rule::DivideByCoefficient => "divide-by-coefficient",
            Rule::QuadraticFormula => "quadratic-formula",
        }
    }
}

/// The mathematical content of a derivation step.
pub struct StepForm {
    pub rule: Rule,
    pub statement: StatementForm,
}

/// One rewrite: the rule that was applied and the statement that it left.
#[derive(Debug)]
pub struct DerivationStep {
    pub rule: Rule,
    pub statement: Statement,
}

impl View for DerivationStep {
    type V = StepForm;

    open spec fn view(&self) -> StepForm {
        StepForm { rule: self.rule, statement: self.statement@ }
    }
}

/// The steps of one derivation, in the order in which they were applied.
/// Steps are appended and never changed.
#[derive(Debug)]
pub struct DerivationLog {
    steps: Vec<DerivationStep>,
}

impl View for DerivationLog {
    type V = Seq<StepForm>;

    closed spec fn view(&self) -> Seq<StepForm> {
        Seq::new(self.steps@.len(), |i: int| self.steps@[i]@)
    }
}

impl DerivationLog {
    /// A log without steps.
    pub fn new() -> (log: DerivationLog)
        ensures
            log@ == Seq::<StepForm>::empty(),
    {
        let log = DerivationLog { steps: Vec::new() };
        assert(log@ =~= Seq::<StepForm>::empty());
        log
    }

    /// Appends a step.
    pub fn append(&mut self, rule: Rule, statement: Statement)
        ensures
            final(self)@ == old(self)@.push(StepForm { rule, statement: statement@ }),
    {
        self.steps.push(DerivationStep { rule, statement });
        assert(self@ =~= old(self)@.push(StepForm { rule, statement: statement@ }));
    }

    /// The number of steps.
    pub fn len(&self) -> (n: usize)
        ensures
            n == self@.len(),
    {
        self.steps.len()
    }

    /// The step at index `i`, where there is one.
    pub fn get(&self, i: usize) -> (step: Option<&DerivationStep>)
        ensures
            step is Some <==> i < self@.len(),
            step matches Some(s) ==> s@ == self@[i as int],
    {
        if i < self.steps.len() {
            Some(&self.steps[i])
        } else {
            None
        }
    }

    /// The last step, where there is one.
    pub fn last(&self) -> (step: Option<&DerivationStep>)
        ensures
            step is Some <==> self@.len() > 0,
            step matches Some(s) ==> s@ == self@.last(),
    {
        if self.steps.len() == 0 {
            None
        } else {
            Some(&self.steps[self.steps.len() - 1])
        }
    }
}

} // verus!
