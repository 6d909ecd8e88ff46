//! Writing a sum of terms as an expression.

use crate::ast::{Expression, ExpressionForm};
use crate::natural::Natural;
use crate::numeric::{lemma_whole_form, normal_form, whole_form, NumericValue};
use crate::terms::{view_of, Term, TermForm};
use crate::token::{Token, TokenType};
use vstd::prelude::*;

verus! {

/// The unknown to the power `degree`, written out: the name itself for degree
/// one.
pub open spec fn rendered_power(degree: nat, target: Seq<char>) -> ExpressionForm {
    if degree == 1 {
        ExpressionForm::Variable(target)
    } else {
        ExpressionForm::Binary {
            lhs: Box::new(ExpressionForm::Variable(target)),
            op: TokenType::Up,
            rhs: Box::new(ExpressionForm::Numeric(whole_form(true, degree))),
        }
    }
}

/// A term written out: the coefficient in normal form, times the power of the
/// unknown; a constant is the coefficient alone, and a coefficient of one is
/// left out.
pub open spec fn rendered_term(t: TermForm, target: Seq<char>) -> ExpressionForm {
    if t.degree == 0 {
        ExpressionForm::Numeric(normal_form(t.coefficient))
    } else if t.coefficient == 1real {
        rendered_power(t.degree, target)
    } else {
        ExpressionForm::Binary {
            lhs: Box::new(ExpressionForm::Numeric(normal_form(t.coefficient))),
            op: TokenType::Star,
            rhs: Box::new(rendered_power(t.degree, target)),
        }
    }
}

/// A sum written out: its terms joined by `+` from the left; zero for no
/// term.
pub open spec fn rendered(ts: Seq<TermForm>, target: Seq<char>) -> ExpressionForm
    decreases ts.len(),
{
    if ts.len() == 0 {
        ExpressionForm::Numeric(whole_form(true, 0))
    } else if ts.len() == 1 {
        rendered_term(ts[0], target)
    } else {
        ExpressionForm::Binary {
            lhs: Box::new(rendered(ts.drop_last(), target)),
            op: TokenType::Plus,
            rhs: Box::new(rendered_term(ts.last(), target)),
        }
    }
}

fn render_power(degree: &Natural, target: &String) -> (e: Expression)
    ensures
        e@ == rendered_power(degree@, target@),
{
    let name = Expression::Variable(Token::variable(target));
    assert(name@ == ExpressionForm::Variable(target@));
    if degree.equals(&Natural::one()) {
        name
    } else {
        let exponent = Expression::Numeric(NumericValue::integer(true, degree.duplicate()));
        assert(exponent@ == ExpressionForm::Numeric(whole_form(true, degree@)));
        let e = Expression::Binary {
            lhs: Box::new(name),
            op: Token::operator(TokenType::Up),
            rhs: Box::new(exponent),
        };
        assert(e@ == rendered_power(degree@, target@));
        e
    }
}

/// A term written out.
pub fn render_term(t: &Term, target: &String) -> (e: Expression)
    ensures
        e@ == rendered_term(t@, target@),
{
    proof {
        lemma_whole_form(true, 1);
    }
    let one = NumericValue::integer(true, Natural::one());
    let coefficient = t.coefficient.normalize();
    if t.degree.is_zero() {
        let e = Expression::Numeric(coefficient);
        assert(e@ == ExpressionForm::Numeric(normal_form(t@.coefficient)));
        e
    } else if coefficient.equals(&one) {
        render_power(&t.degree, target)
    } else {
        let factor = Expression::Numeric(coefficient);
        assert(factor@ == ExpressionForm::Numeric(normal_form(t@.coefficient)));
        let power = render_power(&t.degree, target);
        let e = Expression::Binary {
            lhs: Box::new(factor),
            op: Token::operator(TokenType::Star),
            rhs: Box::new(power),
        };
        assert(e@ == rendered_term(t@, target@));
        e
    }
}

/// A sum written out.
pub fn render(ts: &Vec<Term>, target: &String) -> (e: Expression)
    ensures
        e@ == rendered(view_of(ts@), target@),
{
    if ts.len() == 0 {
        return Expression::Numeric(NumericValue::integer(true, Natural::zero()));
    }
    let ghost all = view_of(ts@);
    let mut acc = render_term(&ts[0], target);
    let mut i: usize = 1;
    assert(all.take(1)[0] == ts@[0]@);
    while i < ts.len()
        invariant
            1 <= i <= ts.len(),
            all == view_of(ts@),
            acc@ == rendered(all.take(i as int), target@),
        decreases ts.len() - i,
    {
        proof {
            let next = all.take(i + 1);
            assert(next.drop_last() =~= all.take(i as int));
            assert(next.last() == ts@[i as int]@);
        }
        acc = Expression::Binary {
            lhs: Box::new(acc),
            op: Token::operator(TokenType::Plus),
            rhs: Box::new(render_term(&ts[i], target)),
        };
        i = i + 1;
    }
    assert(all.take(ts@.len() as int) =~= all);
    acc
}

} // verus!
