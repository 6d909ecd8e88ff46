//! The rewrite engine: from a classified statement to its solved form, one
//! recorded step at a time.

use crate::ast::{forms, lemma_forms, Expression, ExpressionForm, Statement, StatementForm};
use crate::environment::EntryForm;
use crate::error::{FailureReason, SolveError, SymbolErrorForm, TerminalStatus};
use crate::expand::{expand, Expansion, Halt, CALL_DEPTH_LIMIT};
use crate::log::{DerivationLog, Rule, StepForm};
use crate::natural::{Natural, Order};
use crate::numeric::{lemma_normal_form_of, normal_form, NumericValue};
use crate::render::{render, rendered};
use crate::terms::{all_normal, join_terms, negate_terms, negated, of_degree, terms_of_degree, total, total_of, view_of, within_degree, Term, TermForm};
use crate::token::{Token, TokenType};
use vstd::prelude::*;

verus! {

/// The mathematical content of the outcome of a solve.
pub struct OutcomeForm {
    /// The statement as the engine left it.
    pub statement: StatementForm,
    /// The values found for the unknown.
    pub roots: Seq<ExpressionForm>,
    /// The steps that were applied, in order.
    pub steps: Seq<StepForm>,
    /// How the solve ended.
    pub status: TerminalStatus,
}

/// The outcome of a solve: the final statement, the values found for the
/// unknown, the derivation, and the terminal status.
#[derive(Debug)]
pub struct Solution {
    pub statement: Statement,
    pub roots: Vec<Expression>,
    pub log: DerivationLog,
    pub status: TerminalStatus,
}

impl View for Solution {
    type V = OutcomeForm;

    open spec fn view(&self) -> OutcomeForm {
        OutcomeForm {
            statement: self.statement@,
            roots: forms(self.roots@),
            steps: self.log@,
            status: self.status,
        }
    }
}

/// The mathematical content of the engine's working copy.
pub struct WorkForm {
    pub lhs: ExpressionForm,
    pub op: TokenType,
    pub rhs: ExpressionForm,
    pub steps: Seq<StepForm>,
}

/// The engine's working copy: the two sides as they stand, and the steps
/// that led there.
#[derive(Debug)]
pub struct Work {
    pub lhs: Expression,
    pub op: TokenType,
    pub rhs: Expression,
    pub log: DerivationLog,
}

impl View for Work {
    type V = WorkForm;

    open spec fn view(&self) -> WorkForm {
        WorkForm { lhs: self.lhs@, op: self.op, rhs: self.rhs@, steps: self.log@ }
    }
}

/// The statement that relates `lhs` to `rhs` by `op`.
pub open spec fn relation(lhs: ExpressionForm, op: TokenType, rhs: ExpressionForm) -> StatementForm {
    StatementForm::Equation { lhs, op: Some(op), rhs: Some(rhs) }
}

/// The working copy after the rule `rule` has left the two sides `lhs` and
/// `rhs`: one step more.
pub open spec fn rewritten(
    w: WorkForm,
    rule: Rule,
    lhs: ExpressionForm,
    op: TokenType,
    rhs: ExpressionForm,
) -> WorkForm {
    WorkForm {
        lhs,
        op,
        rhs,
        steps: w.steps.push(StepForm { rule, statement: relation(lhs, op, rhs) }),
    }
}

/// A number, the unknown, or a number times the unknown.
pub open spec fn is_simple(e: ExpressionForm, t: Seq<char>) -> bool {
    match e {
        ExpressionForm::Numeric(_) => true,
        ExpressionForm::Variable(name) => name == t,
        ExpressionForm::Binary { lhs, op, rhs } => op == TokenType::Star && *lhs is Numeric
            && *rhs == ExpressionForm::Variable(t),
        _ => false,
    }
}

/// Simple terms joined by `+` and `-` from the left.
pub open spec fn is_flat(e: ExpressionForm, t: Seq<char>) -> bool
    decreases e,
{
    is_simple(e, t) || match e {
        ExpressionForm::Binary { lhs, op, rhs } => (op == TokenType::Plus || op
            == TokenType::Minus) && is_flat(*lhs, t) && is_simple(*rhs, t),
        _ => false,
    }
}

/// The unknown alone on the left, a number on the right.
pub open spec fn is_solved(lhs: ExpressionForm, rhs: ExpressionForm, t: Seq<char>) -> bool {
    lhs == ExpressionForm::Variable(t) && rhs is Numeric
}

/// A term of the right holds the unknown, or a term of the left does not.
pub open spec fn needs_move(l: Seq<TermForm>, r: Seq<TermForm>) -> bool {
    of_degree(r, 1).len() > 0 || of_degree(l, 0).len() > 0
}

/// The left side once every term in the unknown stands on the left.
pub open spec fn left_side(l: Seq<TermForm>, r: Seq<TermForm>) -> Seq<TermForm> {
    if needs_move(l, r) {
        of_degree(l, 1) + negated(of_degree(r, 1))
    } else {
        l
    }
}

/// The right side once every constant stands on the right.
pub open spec fn right_side(l: Seq<TermForm>, r: Seq<TermForm>) -> Seq<TermForm> {
    if needs_move(l, r) {
        of_degree(r, 0) + negated(of_degree(l, 0))
    } else {
        r
    }
}

/// The coefficient of the unknown once all its terms stand on the left.
pub open spec fn coefficient(l: Seq<TermForm>, r: Seq<TermForm>) -> real {
    total(of_degree(l, 1)) - total(of_degree(r, 1))
}

/// The constant once all constants stand on the right.
pub open spec fn constant(l: Seq<TermForm>, r: Seq<TermForm>) -> real {
    total(of_degree(r, 0)) - total(of_degree(l, 0))
}

/// One term: `c` times the unknown to the power `degree`.
pub open spec fn single(c: real, degree: nat) -> Seq<TermForm> {
    seq![TermForm { coefficient: c, degree }]
}

/// Distribution: where a side is not flat, both sides are multiplied out.
pub open spec fn after_distribute(
    w: WorkForm,
    l: Seq<TermForm>,
    r: Seq<TermForm>,
    t: Seq<char>,
) -> WorkForm {
    if is_flat(w.lhs, t) && is_flat(w.rhs, t) {
        w
    } else {
        rewritten(w, Rule::Distribute, rendered(l, t), w.op, rendered(r, t))
    }
}

/// Moving terms: where a term stands on the wrong side, the terms in the unknown
/// move to the left and the constants to the right, each negated as it
/// crosses.
pub open spec fn after_move(w: WorkForm, l: Seq<TermForm>, r: Seq<TermForm>, t: Seq<char>) -> WorkForm {
    if needs_move(l, r) {
        rewritten(
            w,
            Rule::MoveTerm,
            rendered(left_side(l, r), t),
            w.op,
            rendered(right_side(l, r), t),
        )
    } else {
        w
    }
}

/// Combining like terms: where a side holds more or less than one term, the terms of
/// each side are added up.
pub open spec fn after_combine(
    w: WorkForm,
    l: Seq<TermForm>,
    r: Seq<TermForm>,
    t: Seq<char>,
) -> WorkForm {
    if left_side(l, r).len() == 1 && right_side(l, r).len() == 1 {
        w
    } else {
        rewritten(
            w,
            Rule::CombineLikeTerms,
            rendered(single(coefficient(l, r), 1), t),
            w.op,
            rendered(single(constant(l, r), 0), t),
        )
    }
}

/// The flip: where an order relation stands over a negative coefficient `a`,
/// both sides are multiplied by minus one and the relation is turned round.
pub open spec fn after_flip(w: WorkForm, a: real, c: real, t: Seq<char>) -> WorkForm {
    if w.op.is_order() && a < 0real {
        rewritten(
            w,
            Rule::FlipInequality,
            rendered(single(-a, 1), t),
            w.op.mirrored(),
            rendered(single(-c, 0), t),
        )
    } else {
        w
    }
}

/// Division: unless the unknown stands alone against a number, both sides
/// are divided by the coefficient `a`.
pub open spec fn after_divide(w: WorkForm, a: real, c: real, t: Seq<char>) -> WorkForm {
    if is_solved(w.lhs, w.rhs, t) {
        w
    } else {
        rewritten(
            w,
            Rule::DivideByCoefficient,
            ExpressionForm::Variable(t),
            w.op,
            ExpressionForm::Numeric(normal_form(c / a)),
        )
    }
}

/// The outcome of isolating the unknown `t` in a relation whose sides are
/// the sums `l` and `r` of degree at most one.
///
/// The rules run in their order, each leaving a step where it applies. A
/// coefficient of zero leaves a relation between constants, which holds for
/// every value of the unknown or for none. Else the root is the constant
/// divided by the coefficient, in normal form.
pub open spec fn isolated(
    lhs: ExpressionForm,
    op: TokenType,
    rhs: ExpressionForm,
    l: Seq<TermForm>,
    r: Seq<TermForm>,
    t: Seq<char>,
) -> OutcomeForm {
    let start = WorkForm { lhs, op, rhs, steps: Seq::empty() };
    let combined = after_combine(
        after_move(after_distribute(start, l, r, t), l, r, t),
        l,
        r,
        t,
    );
    let a = coefficient(l, r);
    let c = constant(l, r);
    if a == 0real {
        OutcomeForm {
            statement: relation(combined.lhs, combined.op, combined.rhs),
            roots: Seq::empty(),
            steps: combined.steps,
            status: if op.holds(0real, c) {
                TerminalStatus::InfiniteSolutions
            } else {
                TerminalStatus::NoSolution
            },
        }
    } else {
        let done = after_divide(after_flip(combined, a, c, t), a, c, t);
        OutcomeForm {
            statement: relation(done.lhs, done.op, done.rhs),
            roots: seq![ExpressionForm::Numeric(normal_form(c / a))],
            steps: done.steps,
            status: TerminalStatus::Solved,
        }
    }
}

/// The outcome of a solve that gave up before any step.
pub open spec fn gave_up(stmt: StatementForm, reason: FailureReason) -> OutcomeForm {
    OutcomeForm {
        statement: stmt,
        roots: Seq::empty(),
        steps: Seq::empty(),
        status: TerminalStatus::Failed(reason),
    }
}

/// The outcome of solving a relation of degree one for the unknown `t`.
pub open spec fn isolation(
    stmt: StatementForm,
    lhs: ExpressionForm,
    op: TokenType,
    rhs: ExpressionForm,
    env: Map<Seq<char>, EntryForm>,
    t: Seq<char>,
) -> Result<OutcomeForm, SymbolErrorForm> {
    match expand(lhs, env, Some(t), Seq::empty(), CALL_DEPTH_LIMIT as nat) {
        Expansion::Halted(Halt::Symbol(e)) => Err(e),
        Expansion::Halted(Halt::Failed(reason)) => Ok(gave_up(stmt, reason)),
        Expansion::Terms(l) => match expand(
            rhs,
            env,
            Some(t),
            Seq::empty(),
            CALL_DEPTH_LIMIT as nat,
        ) {
            Expansion::Halted(Halt::Symbol(e)) => Err(e),
            Expansion::Halted(Halt::Failed(reason)) => Ok(gave_up(stmt, reason)),
            Expansion::Terms(r) => if within_degree(l, 1) && within_degree(r, 1) {
                Ok(isolated(lhs, op, rhs, l, r, t))
            } else {
                Ok(gave_up(stmt, FailureReason::NoApplicableRule))
            },
        },
    }
}

/// The outcome of checking a relation without an unknown: it holds for every
/// value or for none.
pub open spec fn identity(
    stmt: StatementForm,
    lhs: ExpressionForm,
    op: TokenType,
    rhs: ExpressionForm,
    env: Map<Seq<char>, EntryForm>,
) -> Result<OutcomeForm, SymbolErrorForm> {
    match expand(lhs, env, None, Seq::empty(), CALL_DEPTH_LIMIT as nat) {
        Expansion::Halted(Halt::Symbol(e)) => Err(e),
        Expansion::Halted(Halt::Failed(reason)) => Ok(gave_up(stmt, reason)),
        Expansion::Terms(l) => match expand(rhs, env, None, Seq::empty(), CALL_DEPTH_LIMIT as nat) {
            Expansion::Halted(Halt::Symbol(e)) => Err(e),
            Expansion::Halted(Halt::Failed(reason)) => Ok(gave_up(stmt, reason)),
            Expansion::Terms(r) => Ok(
                OutcomeForm {
                    statement: stmt,
                    roots: Seq::empty(),
                    steps: Seq::empty(),
                    status: if op.holds(total(l), total(r)) {
                        TerminalStatus::InfiniteSolutions
                    } else {
                        TerminalStatus::NoSolution
                    },
                },
            ),
        },
    }
}

/// The executable outcome `out` is the outcome `spec`.
pub open spec fn solves(
    out: Result<Solution, SolveError>,
    spec: Result<OutcomeForm, SymbolErrorForm>,
) -> bool {
    match out {
        Ok(s) => spec == Ok::<OutcomeForm, SymbolErrorForm>(s@),
        Err(e) => spec == Err::<OutcomeForm, SymbolErrorForm>(e@),
    }
}

/// Whether the relation holds of the two values.
pub fn relation_holds(op: TokenType, a: &NumericValue, b: &NumericValue) -> (r: bool)
    ensures
        r == op.holds(a@.value(), b@.value()),
{
    let ord = a.compare(b);
    match op {
        TokenType::Eq => ord == Order::Equal,
        TokenType::NotEq => ord != Order::Equal,
        TokenType::Greater => ord == Order::Greater,
        TokenType::Less => ord == Order::Less,
        TokenType::GreaterEq => ord != Order::Less,
        TokenType::LessEq => ord != Order::Greater,
        _ => false,
    }
}

/// Whether the token is one of `>`, `<`, `>=`, `<=`.
pub fn is_order(op: TokenType) -> (r: bool)
    ensures
        r == op.is_order(),
{
    match op {
        TokenType::Greater | TokenType::Less | TokenType::GreaterEq | TokenType::LessEq => true,
        _ => false,
    }
}

/// The relation turned round.
pub fn mirror(op: TokenType) -> (r: TokenType)
    ensures
        r == op.mirrored(),
{
    match op {
        TokenType::Greater => TokenType::Less,
        TokenType::Less => TokenType::Greater,
        TokenType::GreaterEq => TokenType::LessEq,
        TokenType::LessEq => TokenType::GreaterEq,
        other => other,
    }
}

fn simple(e: &Expression, target: &String) -> (r: bool)
    ensures
        r == is_simple(e@, target@),
{
    match e {
        Expression::Numeric(_) => true,
        Expression::Variable(t) => t.lexeme == *target,
        Expression::Binary { lhs, op, rhs } => {
            let star = match op.token {
                TokenType::Star => true,
                _ => false,
            };
            let number = match &**lhs {
                Expression::Numeric(_) => true,
                _ => false,
            };
            let unknown = match &**rhs {
                Expression::Variable(t) => t.lexeme == *target,
                _ => false,
            };
            proof {
                assert(number == (lhs.form() is Numeric));
                assert(unknown == (rhs.form() == ExpressionForm::Variable(target@)));
            }
            star && number && unknown
        },
        _ => false,
    }
}

pub(crate) fn flat(e: &Expression, target: &String) -> (r: bool)
    ensures
        r == is_flat(e@, target@),
    decreases e,
{
    if simple(e, target) {
        return true;
    }
    match e {
        Expression::Binary { lhs, op, rhs } => {
            let sum = match op.token {
                TokenType::Plus | TokenType::Minus => true,
                _ => false,
            };
            sum && flat(lhs, target) && simple(rhs, target)
        },
        _ => false,
    }
}

fn solved(lhs: &Expression, rhs: &Expression, target: &String) -> (r: bool)
    ensures
        r == is_solved(lhs@, rhs@, target@),
{
    let alone = match lhs {
        Expression::Variable(t) => t.lexeme == *target,
        _ => false,
    };
    let number = match rhs {
        Expression::Numeric(_) => true,
        _ => false,
    };
    alone && number
}

/// The statement that relates `lhs` to `rhs` by `op`.
pub fn relation_of(lhs: Expression, op: TokenType, rhs: Expression) -> (s: Statement)
    ensures
        s@ == relation(lhs@, op, rhs@),
{
    Statement::Equation { lhs, op: Some(Token::operator(op)), rhs: Some(rhs) }
}

pub(crate) fn rewrite(work: Work, rule: Rule, lhs: Expression, op: TokenType, rhs: Expression) -> (r: Work)
    ensures
        r@ == rewritten(work@, rule, lhs@, op, rhs@),
{
    let mut log = work.log;
    log.append(rule, relation_of(lhs.duplicate(), op, rhs.duplicate()));
    Work { lhs, op, rhs, log }
}

pub(crate) fn give_up(stmt: &Statement, reason: FailureReason) -> (s: Solution)
    ensures
        s@ == gave_up(stmt@, reason),
{
    let s = Solution {
        statement: stmt.duplicate(),
        roots: Vec::new(),
        log: DerivationLog::new(),
        status: TerminalStatus::Failed(reason),
    };
    proof {
        lemma_forms(s.roots@);
        assert(forms(s.roots@) =~= Seq::<ExpressionForm>::empty());
    }
    s
}

pub(crate) fn single_term(c: &NumericValue, degree: u64) -> (out: Vec<Term>)
    requires
        c@.is_normal(),
    ensures
        view_of(out@) == single(c@.value(), degree as nat),
        all_normal(out@),
{
    let mut out: Vec<Term> = Vec::new();
    out.push(Term { coefficient: c.duplicate(), degree: Natural::from_u64(degree) });
    assert(view_of(out@) =~= single(c@.value(), degree as nat));
    out
}

pub(crate) fn finish(work: Work, roots: Vec<Expression>, status: TerminalStatus) -> (s: Solution)
    ensures
        s@ == (OutcomeForm {
            statement: relation(work@.lhs, work@.op, work@.rhs),
            roots: forms(roots@),
            steps: work@.steps,
            status,
        }),
{
    Solution { statement: relation_of(work.lhs, work.op, work.rhs), roots, log: work.log, status }
}

/// Isolates the unknown in a relation whose sides are the sums `l` and `r`.
pub(crate) fn isolate_terms(
    lhs: &Expression,
    op: TokenType,
    rhs: &Expression,
    l: &Vec<Term>,
    r: &Vec<Term>,
    target: &String,
) -> (s: Solution)
    requires
        all_normal(l@),
        all_normal(r@),
    ensures
        s@ == isolated(lhs@, op, rhs@, view_of(l@), view_of(r@), target@),
{
    let ghost lf = view_of(l@);
    let ghost rf = view_of(r@);
    let ghost t = target@;
    let mut work = Work { lhs: lhs.duplicate(), op, rhs: rhs.duplicate(), log: DerivationLog::new() };
    if !(flat(lhs, target) && flat(rhs, target)) {
        work = rewrite(work, Rule::Distribute, render(l, target), op, render(r, target));
    }
    assert(work@ == after_distribute(
        WorkForm { lhs: lhs@, op, rhs: rhs@, steps: Seq::empty() },
        lf,
        rf,
        t,
    ));
    let lv = terms_of_degree(l, 1);
    let lc = terms_of_degree(l, 0);
    let rv = terms_of_degree(r, 1);
    let rc = terms_of_degree(r, 0);
    let a = total_of(&lv).subtract(&total_of(&rv));
    let c = total_of(&rc).subtract(&total_of(&lc));
    let moved = rv.len() > 0 || lc.len() > 0;
    let ghost before_move = work@;
    let single_sides = if moved {
        let left = join_terms(lv, negate_terms(&rv));
        let right = join_terms(rc, negate_terms(&lc));
        work = rewrite(work, Rule::MoveTerm, render(&left, target), op, render(&right, target));
        left.len() == 1 && right.len() == 1
    } else {
        l.len() == 1 && r.len() == 1
    };
    assert(work@ == after_move(before_move, lf, rf, t));
    assert(single_sides == (left_side(lf, rf).len() == 1 && right_side(lf, rf).len() == 1));
    let ghost before_combine = work@;
    if !single_sides {
        let left = single_term(&a, 1);
        let right = single_term(&c, 0);
        work =
        rewrite(
            work,
            Rule::CombineLikeTerms,
            render(&left, target),
            op,
            render(&right, target),
        );
    }
    assert(work@ == after_combine(before_combine, lf, rf, t));
    if a.is_zero() {
        let zero = NumericValue::integer(true, Natural::zero());
        proof {
            crate::numeric::lemma_whole_form(true, 0);
        }
        let status = if relation_holds(op, &zero, &c) {
            TerminalStatus::InfiniteSolutions
        } else {
            TerminalStatus::NoSolution
        };
        let roots: Vec<Expression> = Vec::new();
        proof {
            lemma_forms(roots@);
            assert(forms(roots@) =~= Seq::<ExpressionForm>::empty());
        }
        return finish(work, roots, status);
    }
    let ghost before_flip = work@;
    if is_order(op) && a.is_negative() {
        let left = single_term(&a.negate(), 1);
        let right = single_term(&c.negate(), 0);
        work =
        rewrite(
            work,
            Rule::FlipInequality,
            render(&left, target),
            mirror(op),
            render(&right, target),
        );
    }
    assert(work@ == after_flip(before_flip, a@.value(), c@.value(), t));
    let k = c.divide(&a).unwrap();
    proof {
        lemma_normal_form_of(k@);
    }
    let ghost before_divide = work@;
    if !solved(&work.lhs, &work.rhs, target) {
        let unknown = Expression::Variable(Token::variable(target));
        let value = Expression::Numeric(k.duplicate());
        assert(unknown@ == ExpressionForm::Variable(t));
        assert(value@ == ExpressionForm::Numeric(normal_form(c@.value() / a@.value())));
        let op_now = work.op;
        work = rewrite(work, Rule::DivideByCoefficient, unknown, op_now, value);
    }
    assert(work@ == after_divide(before_divide, a@.value(), c@.value(), t));
    let mut roots: Vec<Expression> = Vec::new();
    roots.push(Expression::Numeric(k));
    proof {
        lemma_forms(roots@);
        assert(forms(roots@) =~= seq![
            ExpressionForm::Numeric(normal_form(c@.value() / a@.value())),
        ]);
    }
    finish(work, roots, TerminalStatus::Solved)
}

} // verus!
