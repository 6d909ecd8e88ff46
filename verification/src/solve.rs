//! Solving a statement: classify it, then run the engine that its kind calls
//! for.

use crate::ast::{forms, lemma_forms, Expression, ExpressionForm, Statement, StatementForm};
use crate::classify::{
    classification, classify, classify_for, KindForm, ProblemDescriptor, ProblemKind,
};
use crate::engine::{
    gave_up, give_up, identity, isolate_terms, isolation, relation_holds, solves, OutcomeForm,
    Solution,
};
use crate::environment::{EntryForm, Environment};
use crate::error::{FailureReason, SolveError, SymbolErrorForm, TerminalStatus};
use crate::expand::{
    expand, expand_terms, name_of, Expansion, Halt, Local, Stop, CALL_DEPTH_LIMIT,
};
use crate::log::DerivationLog;
use crate::natural::Natural;
use crate::quadratic::{square_terms, squared};
use crate::terms::{all_normal, is_within_degree, total_of, view_of, within_degree, Term};
use crate::token::TokenType;
use vstd::prelude::*;

verus! {

/// The outcome of solving an equation of degree two for the unknown `t`.
pub open spec fn squaring(
    stmt: StatementForm,
    lhs: ExpressionForm,
    op: TokenType,
    rhs: ExpressionForm,
    env: Map<Seq<char>, EntryForm>,
    t: Seq<char>,
) -> Result<OutcomeForm, SymbolErrorForm> {
    match expand(lhs, env, Some(t), Seq::empty(), CALL_DEPTH_LIMIT as nat) {
        Expansion::Halted(Halt::Symbol(e)) => Err(e),
        Expansion::Halted(Halt::Failed(reason)) => Ok(gave_up(stmt, reason)),
        Expansion::Terms(l) => match expand(
            rhs,
            env,
            Some(t),
            Seq::empty(),
            CALL_DEPTH_LIMIT as nat,
        ) {
            Expansion::Halted(Halt::Symbol(e)) => Err(e),
            Expansion::Halted(Halt::Failed(reason)) => Ok(gave_up(stmt, reason)),
            Expansion::Terms(r) => if within_degree(l, 2) && within_degree(r, 2) {
                Ok(squared(lhs, op, rhs, l, r, t))
            } else {
                Ok(gave_up(stmt, FailureReason::DegreeUnsupported))
            },
        },
    }
}

/// The outcome of the engine on a statement of the kind `kind` with the
/// unknown `unknown`.
///
/// An identity check compares the two sides. A linear equation or an
/// inequality has its unknown isolated. An equation of degree two is solved
/// by its discriminant; one of a higher degree is given up as of an
/// unsupported degree. Anything else is given up as unclassified.
pub open spec fn engine_outcome(
    stmt: StatementForm,
    kind: KindForm,
    unknown: Option<Seq<char>>,
    env: Map<Seq<char>, EntryForm>,
) -> Result<OutcomeForm, SymbolErrorForm> {
    match stmt {
        StatementForm::Equation { lhs, op: Some(op), rhs: Some(rhs) } => match (kind, unknown) {
            (KindForm::IdentityCheck, _) => identity(stmt, lhs, op, rhs, env),
            (KindForm::Linear, Some(t)) => isolation(stmt, lhs, op, rhs, env, t),
            (KindForm::Inequality, Some(t)) => isolation(stmt, lhs, op, rhs, env, t),
            (KindForm::Polynomial(d), Some(t)) => if d == 2 {
                squaring(stmt, lhs, op, rhs, env, t)
            } else {
                Ok(gave_up(stmt, FailureReason::DegreeUnsupported))
            },
            _ => Ok(gave_up(stmt, FailureReason::UnclassifiedForm)),
        },
        _ => Ok(gave_up(stmt, FailureReason::UnclassifiedForm)),
    }
}

/// The outcome of solving a statement: a name that cannot be resolved, or
/// what the engine makes of the statement once it is classified.
pub open spec fn solution(
    stmt: StatementForm,
    env: Map<Seq<char>, EntryForm>,
    target: Option<Seq<char>>,
) -> Result<OutcomeForm, SymbolErrorForm> {
    match classification(stmt, env, target) {
        Err(e) => Err(e),
        Ok((kind, unknown)) => engine_outcome(stmt, kind, unknown, env),
    }
}

/// Two sides multiplied out, or why that stopped.
enum Sides {
    Sums(Vec<Term>, Vec<Term>),
    Failed(FailureReason),
    Unresolved(SolveError),
}

fn expand_sides(lhs: &Expression, rhs: &Expression, env: &Environment, target: Option<&String>) -> (s:
    Sides)
    ensures
        match s {
            Sides::Sums(l, r) => {
                &&& expand(lhs@, env@, name_of(target), Seq::empty(), CALL_DEPTH_LIMIT as nat)
                    == Expansion::Terms(view_of(l@))
                &&& expand(rhs@, env@, name_of(target), Seq::empty(), CALL_DEPTH_LIMIT as nat)
                    == Expansion::Terms(view_of(r@))
                &&& all_normal(l@)
                &&& all_normal(r@)
            },
            Sides::Failed(reason) => {
                let first = expand(
                    lhs@,
                    env@,
                    name_of(target),
                    Seq::empty(),
                    CALL_DEPTH_LIMIT as nat,
                );
                let second = expand(
                    rhs@,
                    env@,
                    name_of(target),
                    Seq::empty(),
                    CALL_DEPTH_LIMIT as nat,
                );
                first == Expansion::Halted(Halt::Failed(reason)) || (first is Terms && second
                    == Expansion::Halted(Halt::Failed(reason)))
            },
            Sides::Unresolved(e) => {
                let first = expand(
                    lhs@,
                    env@,
                    name_of(target),
                    Seq::empty(),
                    CALL_DEPTH_LIMIT as nat,
                );
                let second = expand(
                    rhs@,
                    env@,
                    name_of(target),
                    Seq::empty(),
                    CALL_DEPTH_LIMIT as nat,
                );
                first == Expansion::Halted(Halt::Symbol(e@)) || (first is Terms && second
                    == Expansion::Halted(Halt::Symbol(e@)))
            },
        },
{
    let locals: Vec<Local> = Vec::new();
    assert(crate::expand::locals_view(locals@) =~= Seq::empty());
    let l = match expand_terms(lhs, env, target, &locals, CALL_DEPTH_LIMIT) {
        Ok(l) => l,
        Err(Stop::Failed(reason)) => {
            return Sides::Failed(reason);
        },
        Err(Stop::Symbol(e)) => {
            return Sides::Unresolved(e);
        },
    };
    match expand_terms(rhs, env, target, &locals, CALL_DEPTH_LIMIT) {
        Ok(r) => Sides::Sums(l, r),
        Err(Stop::Failed(reason)) => Sides::Failed(reason),
        Err(Stop::Symbol(e)) => Sides::Unresolved(e),
    }
}

fn check_identity(
    stmt: &Statement,
    lhs: &Expression,
    op: TokenType,
    rhs: &Expression,
    env: &Environment,
) -> (out: Result<Solution, SolveError>)
    ensures
        solves(out, identity(stmt@, lhs@, op, rhs@, env@)),
{
    match expand_sides(lhs, rhs, env, None) {
        Sides::Unresolved(e) => Err(e),
        Sides::Failed(reason) => Ok(give_up(stmt, reason)),
        Sides::Sums(l, r) => {
            let status = if relation_holds(op, &total_of(&l), &total_of(&r)) {
                TerminalStatus::InfiniteSolutions
            } else {
                TerminalStatus::NoSolution
            };
            let s = Solution {
                statement: stmt.duplicate(),
                roots: Vec::new(),
                log: DerivationLog::new(),
                status,
            };
            proof {
                lemma_forms(s.roots@);
                assert(forms(s.roots@) =~= Seq::<ExpressionForm>::empty());
            }
            Ok(s)
        },
    }
}

fn isolate(
    stmt: &Statement,
    lhs: &Expression,
    op: TokenType,
    rhs: &Expression,
    env: &Environment,
    target: &String,
) -> (out: Result<Solution, SolveError>)
    ensures
        solves(out, isolation(stmt@, lhs@, op, rhs@, env@, target@)),
{
    match expand_sides(lhs, rhs, env, Some(target)) {
        Sides::Unresolved(e) => Err(e),
        Sides::Failed(reason) => Ok(give_up(stmt, reason)),
        Sides::Sums(l, r) => {
            if is_within_degree(&l, 1) && is_within_degree(&r, 1) {
                Ok(isolate_terms(lhs, op, rhs, &l, &r, target))
            } else {
                Ok(give_up(stmt, FailureReason::NoApplicableRule))
            }
        },
    }
}

fn square(
    stmt: &Statement,
    lhs: &Expression,
    op: TokenType,
    rhs: &Expression,
    env: &Environment,
    target: &String,
) -> (out: Result<Solution, SolveError>)
    ensures
        solves(out, squaring(stmt@, lhs@, op, rhs@, env@, target@)),
{
    match expand_sides(lhs, rhs, env, Some(target)) {
        Sides::Unresolved(e) => Err(e),
        Sides::Failed(reason) => Ok(give_up(stmt, reason)),
        Sides::Sums(l, r) => {
            if is_within_degree(&l, 2) && is_within_degree(&r, 2) {
                Ok(square_terms(lhs, op, rhs, &l, &r, target))
            } else {
                Ok(give_up(stmt, FailureReason::DegreeUnsupported))
            }
        },
    }
}

/// Runs the engine on a classified statement.
pub fn solve_classified(problem: &ProblemDescriptor, env: &Environment) -> (out: Result<
    Solution,
    SolveError,
>)
    ensures
        solves(
            out,
            engine_outcome(problem.statement@, problem.kind@, problem.target_name(), env@),
        ),
{
    let stmt = &problem.statement;
    match stmt {
        Statement::Equation { lhs, op: Some(op), rhs: Some(rhs) } => {
            match (&problem.kind, &problem.target) {
                (ProblemKind::IdentityCheck, _) => check_identity(stmt, lhs, op.token, rhs, env),
                (ProblemKind::Linear, Some(t)) => isolate(stmt, lhs, op.token, rhs, env, t),
                (ProblemKind::Inequality, Some(t)) => isolate(stmt, lhs, op.token, rhs, env, t),
                (ProblemKind::Polynomial(d), Some(t)) => {
                    if d.equals(&Natural::from_u64(2)) {
                        square(stmt, lhs, op.token, rhs, env, t)
                    } else {
                        Ok(give_up(stmt, FailureReason::DegreeUnsupported))
                    }
                },
                _ => Ok(give_up(stmt, FailureReason::UnclassifiedForm)),
            }
        },
        _ => Ok(give_up(stmt, FailureReason::UnclassifiedForm)),
    }
}

/// Solves a statement for the one name in it that has no bound value.
pub fn solve(stmt: &Statement, env: &Environment) -> (out: Result<Solution, SolveError>)
    ensures
        solves(out, solution(stmt@, env@, None)),
{
    match classify(stmt, env) {
        Err(e) => Err(e),
        Ok(problem) => solve_classified(&problem, env),
    }
}

/// Solves a statement for the unknown `target`.
pub fn solve_for(stmt: &Statement, env: &Environment, target: &String) -> (out: Result<
    Solution,
    SolveError,
>)
    ensures
        solves(out, solution(stmt@, env@, Some(target@))),
{
    match classify_for(stmt, env, target) {
        Err(e) => Err(e),
        Ok(problem) => solve_classified(&problem, env),
    }
}

} // verus!
