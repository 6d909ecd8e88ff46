//! Laws of writing sums out: a sum that was written out and is multiplied
//! out again, is the sum it was.

use crate::ast::ExpressionForm;
use crate::environment::EntryForm;
use crate::expand::{expand, find_local, joined, powered, Expansion};
use crate::numeric::{is_whole, lemma_whole_form, real_of, whole_form, whole_part};
use crate::quadratic_laws::representable;
use crate::render::{rendered, rendered_power, rendered_term};
use crate::terms::{constant_only, product, raised, times, total, unit, TermForm};
use crate::token::TokenType;
use vstd::prelude::*;

verus! {

/// Every coefficient is a fraction of integers.
pub open spec fn all_representable(ts: Seq<TermForm>) -> bool {
    forall|i: int| 0 <= i < ts.len() ==> representable((#[trigger] ts[i]).coefficient)
}

/// The unknown as a sum.
pub open spec fn unknown() -> Seq<TermForm> {
    seq![TermForm { coefficient: 1real, degree: 1 }]
}

/// The unknown multiplied by itself `n` times is one term of degree `n`.
pub proof fn lemma_raised_unknown(n: nat)
    ensures
        raised(unknown(), n) == seq![TermForm { coefficient: 1real, degree: n }],
    decreases n,
{
    if n == 0 {
        assert(unit() =~= seq![TermForm { coefficient: 1real, degree: 0 }]);
    } else {
        lemma_raised_unknown((n - 1) as nat);
        let before = TermForm { coefficient: 1real, degree: (n - 1) as nat };
        let a = seq![before];
        let none = Seq::<TermForm>::empty();
        assert(a.drop_last() =~= none);
        assert(product(none, unknown()) == none);
        assert(1real * 1real == 1real) by (nonlinear_arith);
        assert(times(unknown(), before) =~= seq![TermForm { coefficient: 1real, degree: n }]);
        assert(none + seq![TermForm { coefficient: 1real, degree: n }] =~= seq![
            TermForm { coefficient: 1real, degree: n },
        ]);
    }
}

/// A power of the unknown, written out and multiplied out again, is one
/// term.
pub proof fn lemma_power_expands_back(
    d: nat,
    t: Seq<char>,
    env: Map<Seq<char>, EntryForm>,
    fuel: nat,
)
    requires
        d >= 1,
    ensures
        expand(rendered_power(d, t), env, Some(t), Seq::empty(), fuel) == Expansion::Terms(
            seq![TermForm { coefficient: 1real, degree: d }],
        ),
{
    let name = ExpressionForm::Variable(t);
    assert(find_local(Seq::empty(), t) is None);
    assert(expand(name, env, Some(t), Seq::empty(), fuel) == Expansion::Terms(unknown()));
    if d != 1 {
        let exponent = ExpressionForm::Numeric(whole_form(true, d));
        lemma_whole_form(true, d);
        let dv = d as real;
        let r = seq![TermForm { coefficient: dv, degree: 0 }];
        assert(1real * dv == dv) by (nonlinear_arith);
        assert(expand(exponent, env, Some(t), Seq::empty(), fuel) == Expansion::Terms(r));
        assert(r.drop_last() =~= Seq::<TermForm>::empty());
        assert(total(r.drop_last()) == 0real);
        assert(total(r) == dv);
        assert(real_of(d as int) == dv);
        assert(is_whole(dv));
        assert(real_of(whole_part(dv)) == dv);
        assert(whole_part(dv) == d);
        lemma_raised_unknown(d);
        assert(powered(unknown(), r) == Expansion::Terms(
            seq![TermForm { coefficient: 1real, degree: d }],
        ));
        assert(joined(TokenType::Up, unknown(), r) == powered(unknown(), r));
    }
}

/// A term, written out and multiplied out again, is the term.
pub proof fn lemma_term_expands_back(
    tm: TermForm,
    t: Seq<char>,
    env: Map<Seq<char>, EntryForm>,
    fuel: nat,
)
    requires
        representable(tm.coefficient),
    ensures
        expand(rendered_term(tm, t), env, Some(t), Seq::empty(), fuel) == Expansion::Terms(
            seq![tm],
        ),
{
    let c = tm.coefficient;
    let d = tm.degree;
    assert(tm == TermForm { coefficient: c, degree: d });
    let number = ExpressionForm::Numeric(crate::numeric::normal_form(c));
    assert(expand(number, env, Some(t), Seq::empty(), fuel) == Expansion::Terms(
        seq![TermForm { coefficient: c, degree: 0 }],
    ));
    if d == 0 {
        assert(rendered_term(tm, t) == number);
    } else {
        lemma_power_expands_back(d, t, env, fuel);
        if c == 1real {
            assert(rendered_term(tm, t) == rendered_power(d, t));
        } else {
            let factor = seq![TermForm { coefficient: c, degree: 0 }];
            let power = seq![TermForm { coefficient: 1real, degree: d }];
            let none = Seq::<TermForm>::empty();
            assert(factor.drop_last() =~= none);
            assert(product(none, power) == none);
            assert(1real * c == c) by (nonlinear_arith);
            assert(times(power, factor.last()) =~= seq![tm]);
            assert(none + seq![tm] =~= seq![tm]);
            assert(product(factor, power) == seq![tm]);
            assert(joined(TokenType::Star, factor, power) == Expansion::Terms(seq![tm]));
            assert(rendered_term(tm, t) == ExpressionForm::Binary {
                lhs: Box::new(number),
                op: TokenType::Star,
                rhs: Box::new(rendered_power(d, t)),
            });
        }
    }
}

/// A sum of at least one term whose coefficients are fractions, written out
/// and multiplied out again, is the sum it was: the statements of a
/// derivation can be read back.
pub proof fn law_rendered_expands_back(
    ts: Seq<TermForm>,
    t: Seq<char>,
    env: Map<Seq<char>, EntryForm>,
    fuel: nat,
)
    requires
        ts.len() > 0,
        all_representable(ts),
    ensures
        expand(rendered(ts, t), env, Some(t), Seq::empty(), fuel) == Expansion::Terms(ts),
    decreases ts.len(),
{
    if ts.len() == 1 {
        lemma_term_expands_back(ts[0], t, env, fuel);
        assert(seq![ts[0]] =~= ts);
    } else {
        let init = ts.drop_last();
        assert(all_representable(init)) by {
            assert forall|i: int| 0 <= i < init.len() implies representable(
                (#[trigger] init[i]).coefficient,
            ) by {
                assert(init[i] == ts[i]);
            }
        }
        law_rendered_expands_back(init, t, env, fuel);
        lemma_term_expands_back(ts.last(), t, env, fuel);
        assert(init + seq![ts.last()] =~= ts);
        assert(joined(TokenType::Plus, init, seq![ts.last()]) == Expansion::Terms(ts));
    }
}

} // verus!
