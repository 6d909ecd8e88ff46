//! Laws of multiplying out: the sum of terms has the value of the
//! expression.

use crate::ast::ExpressionForm;
use crate::classify::is_bound;
use crate::environment::EntryForm;
use crate::expand::{
    bound, divided, expand, expand_all, find_local, frac_name, joined, lemma_expand_all_len,
    powered, Expansion, Expansions,
};
use crate::numeric::{is_whole, real_int_power, whole_part};
use crate::rational::real_power;
use crate::term_laws::{
    lemma_value_concat, lemma_value_negated, lemma_value_product, lemma_value_raised,
    lemma_value_scaled, value_at,
};
use crate::terms::{constant_only, negated, total, TermForm};
use crate::token::TokenType;
use vstd::prelude::*;

verus! {

/// A sum without the unknown has its total as its value everywhere.
pub proof fn lemma_value_constant(ts: Seq<TermForm>, x: real)
    requires
        constant_only(ts),
    ensures
        value_at(ts, x) == total(ts),
    decreases ts.len(),
{
    if ts.len() > 0 {
        let init = ts.drop_last();
        assert(constant_only(init)) by {
            assert forall|i: int| 0 <= i < init.len() implies (#[trigger] init[i]).degree == 0 by {
                assert(init[i] == ts[i]);
            }
        }
        lemma_value_constant(init, x);
        let c = ts.last().coefficient;
        assert(ts.last().degree == 0);
        assert(c * 1real == c) by (nonlinear_arith);
    }
}

/// The value of a sum of one term.
pub proof fn lemma_value_single(t: TermForm, x: real)
    ensures
        value_at(seq![t], x) == t.coefficient * real_power(x, t.degree),
{
    let s = seq![t];
    assert(s.drop_last() =~= Seq::<TermForm>::empty());
    assert(value_at(s.drop_last(), x) == 0real);
    assert(s.last() == t);
}

proof fn lemma_inverse_product(k: real, p: real)
    requires
        k != 0real,
        p != 0real,
    ensures
        k * p != 0real,
        (1real / k) * (1real / p) == 1real / (k * p),
{
    assert(k * p != 0real && (1real / k) * (1real / p) == 1real / (k * p)) by (nonlinear_arith)
        requires
            k != 0real,
            p != 0real,
    ;
}

/// A power of an inverse is the inverse of the power.
pub proof fn lemma_inverse_power(k: real, m: nat)
    requires
        k != 0real,
    ensures
        real_power(k, m) != 0real,
        real_power(1real / k, m) == 1real / real_power(k, m),
    decreases m,
{
    if m > 0 {
        lemma_inverse_power(k, (m - 1) as nat);
        lemma_inverse_product(k, real_power(k, (m - 1) as nat));
    }
}

/// What two sums joined by an operator are worth at `x`, by what the two
/// sums are worth there.
pub proof fn law_joined_value(
    op: TokenType,
    l: Seq<TermForm>,
    r: Seq<TermForm>,
    x: real,
)
    ensures
        joined(op, l, r) matches Expansion::Terms(ts) ==> match op {
            TokenType::Plus => value_at(ts, x) == value_at(l, x) + value_at(r, x),
            TokenType::Minus => value_at(ts, x) == value_at(l, x) - value_at(r, x),
            TokenType::Star => value_at(ts, x) == value_at(l, x) * value_at(r, x),
            TokenType::Over => value_at(r, x) != 0real && value_at(ts, x) == value_at(l, x)
                / value_at(r, x),
            TokenType::Up => is_whole(value_at(r, x)) && value_at(ts, x) == real_int_power(
                value_at(l, x),
                whole_part(value_at(r, x)),
            ),
            _ => false,
        },
{
    match op {
        TokenType::Plus => {
            lemma_value_concat(l, r, x);
        },
        TokenType::Minus => {
            lemma_value_concat(l, negated(r), x);
            lemma_value_negated(r, x);
        },
        TokenType::Star => {
            lemma_value_product(l, r, x);
        },
        TokenType::Over => {
            law_divided_value(l, r, x);
        },
        TokenType::Up => {
            if powered(l, r) is Terms {
                lemma_value_constant(r, x);
                let n = whole_part(total(r));
                if n >= 0 {
                    lemma_value_raised(l, n as nat, x);
                } else {
                    lemma_value_constant(l, x);
                    let k = total(l);
                    let inverse = TermForm { coefficient: 1real / k, degree: 0 };
                    lemma_value_raised(seq![inverse], (-n) as nat, x);
                    lemma_value_single(inverse, x);
                    assert((1real / k) * 1real == 1real / k) by (nonlinear_arith);
                    lemma_inverse_power(k, (-n) as nat);
                }
            }
        },
        _ => {},
    }
}

/// What a quotient of two sums is worth at `x`.
pub proof fn law_divided_value(l: Seq<TermForm>, r: Seq<TermForm>, x: real)
    ensures
        divided(l, r) matches Expansion::Terms(ts) ==> value_at(r, x) != 0real && value_at(ts, x)
            == value_at(l, x) / value_at(r, x),
{
    if divided(l, r) is Terms {
        lemma_value_constant(r, x);
        let k = total(r);
        lemma_value_scaled(l, 1real / k, x);
        let v = value_at(l, x);
        assert(v * (1real / k) == v / k) by (nonlinear_arith)
            requires
                k != 0real,
        ;
    }
}

/// Multiplying out keeps the value: what the sum of an expression is worth at
/// `x` follows from what the sums of its parts are worth there, as the
/// expression says.
///
/// A number is worth itself, the unknown is worth `x`, a bound name its
/// value, and a parameter what its argument is worth. An operator does to
/// the values of its two sides what it stands for. Brackets change nothing.
/// `frac` divides. A call is worth the body of the function with the
/// arguments for its parameters.
pub proof fn law_expansion_keeps_value(
    e: ExpressionForm,
    env: Map<Seq<char>, EntryForm>,
    target: Option<Seq<char>>,
    locals: Seq<(Seq<char>, Seq<TermForm>)>,
    fuel: nat,
    x: real,
)
    ensures
        expand(e, env, target, locals, fuel) matches Expansion::Terms(ts) ==> match e {
            ExpressionForm::Numeric(n) => value_at(ts, x) == n.value(),
            ExpressionForm::Variable(name) => match find_local(locals, name) {
                Some(argument) => value_at(ts, x) == value_at(argument, x),
                None => if target == Some(name) {
                    value_at(ts, x) == x
                } else {
                    is_bound(env, name) && value_at(ts, x) == env[name]->Value_0.value()
                },
            },
            ExpressionForm::Binary { lhs, op, rhs } => {
                &&& expand(*lhs, env, target, locals, fuel) matches Expansion::Terms(l)
                &&& expand(*rhs, env, target, locals, fuel) matches Expansion::Terms(r)
                &&& joined(op, l, r) == Expansion::Terms(ts)
            },
            ExpressionForm::Grouping(inner) => expand(*inner, env, target, locals, fuel)
                == Expansion::Terms(ts),
            ExpressionForm::Function { name, args } => {
                &&& name == frac_name()
                &&& args.len() == 2
                &&& expand_all(args, 0, env, target, locals, fuel) matches Expansions::Sums(values)
                &&& values.len() == 2
                &&& value_at(values[1], x) != 0real
                &&& value_at(ts, x) == value_at(values[0], x) / value_at(values[1], x)
            },
            ExpressionForm::Call { name, args } => {
                &&& env.contains_key(name)
                &&& env[name] matches EntryForm::Function { params, body }
                &&& fuel > 0
                &&& expand_all(args, 0, env, target, locals, fuel) matches Expansions::Sums(values)
                &&& values.len() == params.len()
                &&& expand(body, env, target, bound(params, values), (fuel - 1) as nat)
                    == Expansion::Terms(ts)
            },
        },
{
    match e {
        ExpressionForm::Numeric(n) => {
            let t = TermForm { coefficient: n.value(), degree: 0 };
            lemma_value_single(t, x);
            assert(n.value() * 1real == n.value()) by (nonlinear_arith);
        },
        ExpressionForm::Variable(name) => {
            if find_local(locals, name) is None {
                if target == Some(name) {
                    let t = TermForm { coefficient: 1real, degree: 1 };
                    lemma_value_single(t, x);
                    assert(real_power(x, 1) == x * real_power(x, 0));
                    assert(1real * (x * 1real) == x) by (nonlinear_arith);
                } else if is_bound(env, name) {
                    let v = env[name]->Value_0.value();
                    let t = TermForm { coefficient: v, degree: 0 };
                    lemma_value_single(t, x);
                    assert(v * 1real == v) by (nonlinear_arith);
                }
            }
        },
        ExpressionForm::Binary { lhs, op, rhs } => {},
        ExpressionForm::Grouping(inner) => {},
        ExpressionForm::Function { name, args } => {
            if name == frac_name() && args.len() == 2 {
                lemma_expand_all_len(args, 0, env, target, locals, fuel);
                match expand_all(args, 0, env, target, locals, fuel) {
                    Expansions::Sums(values) => {
                        law_divided_value(values[0], values[1], x);
                    },
                    Expansions::Halted(_) => {},
                }
            }
        },
        ExpressionForm::Call { name, args } => {
            lemma_expand_all_len(args, 0, env, target, locals, fuel);
        },
    }
}

} // verus!
