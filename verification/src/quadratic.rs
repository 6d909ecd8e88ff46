//! Equations of degree two, solved by their discriminant.

use crate::ast::{forms, lemma_forms, Expression, ExpressionForm};
use crate::engine::{after_distribute, finish, flat, relation, rewrite, rewritten, OutcomeForm, Solution, Work, WorkForm};
use crate::error::{FailureReason, TerminalStatus};
use crate::log::{DerivationLog, Rule};
use crate::natural::{is_square, square, square_root, Natural};
use crate::numeric::{
    lemma_normal_form_of, lemma_whole_form, normal_form, NumericForm, NumericValue,
};
use crate::rational::{quotient, Rational};
use crate::render::{render, rendered};
use crate::terms::{
    all_normal, copy_terms, join_terms, negate_terms, negated, of_degree, terms_of_degree,
    total, total_of, view_of, Term, TermForm,
};
use crate::token::{Token, TokenType};
use vstd::prelude::*;

verus! {

/// The side is the constant zero and nothing else.
pub open spec fn is_zero_side(r: Seq<TermForm>) -> bool {
    r.len() == 1 && r[0].degree == 0 && r[0].coefficient == 0real
}

/// The left side once the right side is zero.
pub open spec fn cleared(l: Seq<TermForm>, r: Seq<TermForm>) -> Seq<TermForm> {
    if is_zero_side(r) {
        l
    } else {
        l + negated(r)
    }
}

/// One term each of degree two, one and zero, in that order.
pub open spec fn is_standard(p: Seq<TermForm>) -> bool {
    p.len() == 3 && p[0].degree == 2 && p[1].degree == 1 && p[2].degree == 0
}

/// The sum `a2 x^2 + a1 x + a0`.
pub open spec fn standard(a2: real, a1: real, a0: real) -> Seq<TermForm> {
    seq![
        TermForm { coefficient: a2, degree: 2 },
        TermForm { coefficient: a1, degree: 1 },
        TermForm { coefficient: a0, degree: 0 },
    ]
}

/// The discriminant of `a2 x^2 + a1 x + a0`.
pub open spec fn discriminant(a2: real, a1: real, a0: real) -> real {
    a1 * a1 - 4real * a2 * a0
}

/// Numerator and denominator of a normal form.
pub open spec fn parts(f: NumericForm) -> (nat, nat) {
    match f.fraction {
        None => (f.magnitude, 1),
        Some(pair) => (pair.0.magnitude, pair.1.magnitude),
    }
}

/// The number, in lowest terms, is a square over a square.
pub open spec fn has_root(d: real) -> bool {
    is_square(parts(normal_form(d)).0) && is_square(parts(normal_form(d)).1)
}

/// The root of the numerator over the root of the denominator.
pub open spec fn root_of(d: real) -> real {
    quotient(
        square_root(parts(normal_form(d)).0) as int,
        square_root(parts(normal_form(d)).1) as int,
    )
}

/// The name of the built-in square root.
pub open spec fn sqrt_name() -> Seq<char> {
    seq!['s', 'q', 'r', 't']
}

/// A root that is no fraction, written out: `(-a1 - sqrt{d}) / 2 a2` or the
/// same with `+`, in brackets.
pub open spec fn symbolic_root(a2: real, a1: real, d: real, op: TokenType) -> ExpressionForm {
    ExpressionForm::Grouping(
        Box::new(
            ExpressionForm::Binary {
                lhs: Box::new(
                    ExpressionForm::Binary {
                        lhs: Box::new(ExpressionForm::Numeric(normal_form(-a1))),
                        op,
                        rhs: Box::new(
                            ExpressionForm::Function {
                                name: sqrt_name(),
                                args: seq![ExpressionForm::Numeric(normal_form(d))],
                            },
                        ),
                    },
                ),
                op: TokenType::Over,
                rhs: Box::new(ExpressionForm::Numeric(normal_form(2real * a2))),
            },
        ),
    )
}

/// The roots of `a2 x^2 + a1 x + a0` for a discriminant `d` that is not
/// negative: numbers where the discriminant has a root among the fractions,
/// one of them where it is zero; else the two roots written out.
pub open spec fn roots_of(a2: real, a1: real, d: real) -> Seq<ExpressionForm> {
    if !has_root(d) {
        seq![symbolic_root(a2, a1, d, TokenType::Minus), symbolic_root(a2, a1, d, TokenType::Plus)]
    } else if d == 0real {
        seq![ExpressionForm::Numeric(normal_form(-a1 / (2real * a2)))]
    } else {
        seq![
            ExpressionForm::Numeric(normal_form((-a1 - root_of(d)) / (2real * a2))),
            ExpressionForm::Numeric(normal_form((-a1 + root_of(d)) / (2real * a2))),
        ]
    }
}

/// One root, or two roots joined by `or`.
pub open spec fn alternatives(roots: Seq<ExpressionForm>) -> ExpressionForm {
    if roots.len() == 1 {
        roots[0]
    } else {
        ExpressionForm::Binary {
            lhs: Box::new(roots[0]),
            op: TokenType::Or,
            rhs: Box::new(roots[1]),
        }
    }
}

/// Where the right side is not zero, it moves to the left, negated.
pub open spec fn after_clear(w: WorkForm, l: Seq<TermForm>, r: Seq<TermForm>, t: Seq<char>) -> WorkForm {
    if is_zero_side(r) {
        w
    } else {
        rewritten(
            w,
            Rule::MoveTerm,
            rendered(cleared(l, r), t),
            w.op,
            rendered(Seq::empty(), t),
        )
    }
}

/// Where the left side is not yet one term of each degree, the terms of each
/// degree are added up.
pub open spec fn after_collect(w: WorkForm, p: Seq<TermForm>, t: Seq<char>) -> WorkForm {
    if is_standard(p) {
        w
    } else {
        rewritten(
            w,
            Rule::CombineLikeTerms,
            rendered(
                standard(total(of_degree(p, 2)), total(of_degree(p, 1)), total(of_degree(p, 0))),
                t,
            ),
            w.op,
            rendered(Seq::empty(), t),
        )
    }
}

/// The outcome of solving an equation of degree two for the unknown `t`, its
/// sides being the sums `l` and `r` of degree at most two.
///
/// Without a term of degree two left, no rule applies. A negative
/// discriminant leaves no solution. Else the roots stand in the last step.
pub open spec fn squared(
    lhs: ExpressionForm,
    op: TokenType,
    rhs: ExpressionForm,
    l: Seq<TermForm>,
    r: Seq<TermForm>,
    t: Seq<char>,
) -> OutcomeForm {
    let start = WorkForm { lhs, op, rhs, steps: Seq::empty() };
    let p = cleared(l, r);
    let a2 = total(of_degree(p, 2));
    let a1 = total(of_degree(p, 1));
    let a0 = total(of_degree(p, 0));
    let d = discriminant(a2, a1, a0);
    let w = after_collect(after_clear(after_distribute(start, l, r, t), l, r, t), p, t);
    if a2 == 0real {
        OutcomeForm {
            statement: relation(w.lhs, w.op, w.rhs),
            roots: Seq::empty(),
            steps: w.steps,
            status: TerminalStatus::Failed(FailureReason::NoApplicableRule),
        }
    } else if d < 0real {
        OutcomeForm {
            statement: relation(w.lhs, w.op, w.rhs),
            roots: Seq::empty(),
            steps: w.steps,
            status: TerminalStatus::NoSolution,
        }
    } else {
        let roots = roots_of(a2, a1, d);
        let done = rewritten(
            w,
            Rule::QuadraticFormula,
            ExpressionForm::Variable(t),
            w.op,
            alternatives(roots),
        );
        OutcomeForm {
            statement: relation(done.lhs, done.op, done.rhs),
            roots,
            steps: done.steps,
            status: TerminalStatus::Solved,
        }
    }
}

fn number(v: NumericValue) -> (e: Expression)
    ensures
        e@ == ExpressionForm::Numeric(v@),
{
    Expression::Numeric(v)
}

fn symbolic(minus_a1: &NumericValue, d: &NumericValue, two_a2: &NumericValue, op: TokenType) -> (e:
    Expression)
    ensures
        e@ == ExpressionForm::Grouping(
            Box::new(
                ExpressionForm::Binary {
                    lhs: Box::new(
                        ExpressionForm::Binary {
                            lhs: Box::new(ExpressionForm::Numeric(minus_a1@)),
                            op,
                            rhs: Box::new(
                                ExpressionForm::Function {
                                    name: sqrt_name(),
                                    args: seq![ExpressionForm::Numeric(d@)],
                                },
                            ),
                        },
                    ),
                    op: TokenType::Over,
                    rhs: Box::new(ExpressionForm::Numeric(two_a2@)),
                },
            ),
        ),
{
    let mut args: Vec<Expression> = Vec::new();
    args.push(number(d.duplicate()));
    proof {
        reveal_strlit("sqrt");
        assert("sqrt"@ =~= sqrt_name());
        lemma_forms(args@);
        assert(forms(args@) =~= seq![ExpressionForm::Numeric(d@)]);
    }
    let root = Expression::Function { name: Token::ident("sqrt"), args };
    assert(root@ == ExpressionForm::Function {
        name: sqrt_name(),
        args: seq![ExpressionForm::Numeric(d@)],
    });
    let top = Expression::Binary {
        lhs: Box::new(number(minus_a1.duplicate())),
        op: Token::operator(op),
        rhs: Box::new(root),
    };
    assert(top@ == ExpressionForm::Binary {
        lhs: Box::new(ExpressionForm::Numeric(minus_a1@)),
        op,
        rhs: Box::new(root@),
    });
    let whole = Expression::Binary {
        lhs: Box::new(top),
        op: Token::operator(TokenType::Over),
        rhs: Box::new(number(two_a2.duplicate())),
    };
    assert(whole@ == ExpressionForm::Binary {
        lhs: Box::new(top@),
        op: TokenType::Over,
        rhs: Box::new(ExpressionForm::Numeric(two_a2@)),
    });
    Expression::Grouping(Box::new(whole))
}

/// The root of a value that is not negative, where it has one among the
/// fractions.
pub fn rational_root(d: &NumericValue) -> (r: Option<NumericValue>)
    ensures
        r is Some <==> has_root(d@.value()),
        r matches Some(s) ==> s@.is_normal() && s@.value() == root_of(d@.value()),
{
    let d = d.normalize();
    let (n, m) = match d.fraction() {
        None => (d.magnitude(), Natural::one()),
        Some((top, bottom)) => (top.magnitude(), bottom.magnitude()),
    };
    assert((n@, m@) == parts(d@));
    match n.exact_root() {
        None => None,
        Some(sn) => match m.exact_root() {
            None => None,
            Some(sm) => {
                assert(sm@ != 0) by {
                    assert(square(0) == 0) by (nonlinear_arith);
                }
                let q = Rational::new(false, sn, sm).unwrap();
                Some(NumericValue::from_rational(&q))
            },
        },
    }
}

fn roots_for(a2: &NumericValue, a1: &NumericValue, d: &NumericValue) -> (roots: Vec<Expression>)
    requires
        d@.is_normal(),
        a2@.value() != 0real,
        d@.value() >= 0real,
    ensures
        forms(roots@) == roots_of(a2@.value(), a1@.value(), d@.value()),
        roots@.len() == 1 || roots@.len() == 2,
{
    proof {
        lemma_whole_form(true, 2);
        lemma_normal_form_of(d@);
    }
    let two = NumericValue::integer(true, Natural::from_u64(2));
    let two_a2 = two.multiply(a2);
    let minus_a1 = a1.negate();
    proof {
        assert(two@.value() == 2real);
        assert(two_a2@.value() == 2real * a2@.value());
        assert(two_a2@.value() != 0real);
        lemma_normal_form_of(two_a2@);
        lemma_normal_form_of(minus_a1@);
    }
    let mut roots: Vec<Expression> = Vec::new();
    match rational_root(d) {
        None => {
            roots.push(symbolic(&minus_a1, d, &two_a2, TokenType::Minus));
            roots.push(symbolic(&minus_a1, d, &two_a2, TokenType::Plus));
            proof {
                lemma_forms(roots@);
                assert(forms(roots@) =~= roots_of(a2@.value(), a1@.value(), d@.value()));
            }
        },
        Some(s) => {
            if d.is_zero() {
                let root = minus_a1.divide(&two_a2).unwrap();
                proof {
                    lemma_normal_form_of(root@);
                }
                roots.push(number(root));
                proof {
                    lemma_forms(roots@);
                    assert(forms(roots@) =~= roots_of(a2@.value(), a1@.value(), d@.value()));
                }
            } else {
                let low = minus_a1.subtract(&s).divide(&two_a2).unwrap();
                let high = minus_a1.add(&s).divide(&two_a2).unwrap();
                proof {
                    lemma_normal_form_of(low@);
                    lemma_normal_form_of(high@);
                }
                roots.push(number(low));
                roots.push(number(high));
                proof {
                    lemma_forms(roots@);
                    assert(forms(roots@) =~= roots_of(a2@.value(), a1@.value(), d@.value()));
                }
            }
        },
    }
    roots
}

fn alternatives_of(roots: &Vec<Expression>) -> (e: Expression)
    requires
        roots@.len() == 1 || roots@.len() == 2,
    ensures
        e@ == alternatives(forms(roots@)),
{
    proof {
        lemma_forms(roots@);
    }
    if roots.len() == 1 {
        roots[0].duplicate()
    } else {
        Expression::Binary {
            lhs: Box::new(roots[0].duplicate()),
            op: Token::operator(TokenType::Or),
            rhs: Box::new(roots[1].duplicate()),
        }
    }
}

fn standard_terms(a2: &NumericValue, a1: &NumericValue, a0: &NumericValue) -> (out: Vec<Term>)
    requires
        a2@.is_normal(),
        a1@.is_normal(),
        a0@.is_normal(),
    ensures
        view_of(out@) == standard(a2@.value(), a1@.value(), a0@.value()),
        all_normal(out@),
{
    let mut out: Vec<Term> = Vec::new();
    out.push(Term { coefficient: a2.duplicate(), degree: Natural::from_u64(2) });
    out.push(Term { coefficient: a1.duplicate(), degree: Natural::from_u64(1) });
    out.push(Term { coefficient: a0.duplicate(), degree: Natural::from_u64(0) });
    assert(view_of(out@) =~= standard(a2@.value(), a1@.value(), a0@.value()));
    out
}

fn zero_side(r: &Vec<Term>) -> (b: bool)
    ensures
        b == is_zero_side(view_of(r@)),
{
    r.len() == 1 && r[0].degree.is_zero() && r[0].coefficient.is_zero()
}

fn standard_shape(p: &Vec<Term>) -> (b: bool)
    ensures
        b == is_standard(view_of(p@)),
{
    p.len() == 3 && p[0].degree.equals(&Natural::from_u64(2)) && p[1].degree.equals(
        &Natural::from_u64(1),
    ) && p[2].degree.is_zero()
}

/// Solves an equation of degree two whose sides are the sums `l` and `r`.
pub(crate) fn square_terms(
    lhs: &Expression,
    op: TokenType,
    rhs: &Expression,
    l: &Vec<Term>,
    r: &Vec<Term>,
    target: &String,
) -> (s: Solution)
    requires
        all_normal(l@),
        all_normal(r@),
    ensures
        s@ == squared(lhs@, op, rhs@, view_of(l@), view_of(r@), target@),
{
    let ghost lf = view_of(l@);
    let ghost rf = view_of(r@);
    let ghost t = target@;
    let mut work = Work { lhs: lhs.duplicate(), op, rhs: rhs.duplicate(), log: DerivationLog::new() };
    if !(flat(lhs, target) && flat(rhs, target)) {
        work = rewrite(work, Rule::Distribute, render(l, target), op, render(r, target));
    }
    let nothing: Vec<Term> = Vec::new();
    assert(view_of(nothing@) =~= Seq::<TermForm>::empty());
    let ghost before_clear = work@;
    let p = if zero_side(r) {
        copy_terms(l)
    } else {
        let p = join_terms(copy_terms(l), negate_terms(r));
        work = rewrite(work, Rule::MoveTerm, render(&p, target), op, render(&nothing, target));
        p
    };
    assert(view_of(p@) == cleared(lf, rf));
    assert(work@ == after_clear(before_clear, lf, rf, t));
    let a2 = total_of(&terms_of_degree(&p, 2));
    let a1 = total_of(&terms_of_degree(&p, 1));
    let a0 = total_of(&terms_of_degree(&p, 0));
    let ghost before_collect = work@;
    if !standard_shape(&p) {
        let shaped = standard_terms(&a2, &a1, &a0);
        work =
        rewrite(
            work,
            Rule::CombineLikeTerms,
            render(&shaped, target),
            op,
            render(&nothing, target),
        );
    }
    assert(work@ == after_collect(before_collect, view_of(p@), t));
    let no_roots: Vec<Expression> = Vec::new();
    proof {
        lemma_forms(no_roots@);
        assert(forms(no_roots@) =~= Seq::<ExpressionForm>::empty());
        lemma_whole_form(true, 4);
    }
    if a2.is_zero() {
        return finish(work, no_roots, TerminalStatus::Failed(FailureReason::NoApplicableRule));
    }
    let four = NumericValue::integer(true, Natural::from_u64(4));
    let d = a1.multiply(&a1).subtract(&four.multiply(&a2).multiply(&a0));
    if d.is_negative() {
        return finish(work, no_roots, TerminalStatus::NoSolution);
    }
    let roots = roots_for(&a2, &a1, &d);
    let unknown = Expression::Variable(Token::variable(target));
    assert(unknown@ == ExpressionForm::Variable(t));
    let op_now = work.op;
    work = rewrite(work, Rule::QuadraticFormula, unknown, op_now, alternatives_of(&roots));
    finish(work, roots, TerminalStatus::Solved)
}

} // verus!
