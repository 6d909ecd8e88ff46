//! Laws of the solver for equations of degree two.

use crate::ast::ExpressionForm;
use crate::error::TerminalStatus;
use crate::natural::{square, square_root};
use crate::numeric::{lemma_normal_shape, normal_form};
use crate::quadratic::{cleared, discriminant, has_root, is_zero_side, parts, root_of, squared};
use crate::rational::{lemma_quotient_mul, lemma_quotient_zero, quotient, signed};
use crate::term_laws::{
    lemma_value_concat, lemma_value_negated, lemma_value_quadratic, value_at,
};
use crate::terms::{negated, of_degree, total, within_degree, TermForm};
use crate::token::TokenType;
use vstd::prelude::*;

verus! {

/// The real is a fraction of integers: its normal form denotes it.
pub open spec fn representable(x: real) -> bool {
    normal_form(x).is_normal() && normal_form(x).value() == x
}

/// The root of a number that has one among the fractions is not negative, and
/// its square is the number.
pub proof fn lemma_root_squares(d: real)
    requires
        representable(d),
        d >= 0real,
        has_root(d),
    ensures
        root_of(d) >= 0real,
        root_of(d) * root_of(d) == d,
{
    let f = normal_form(d);
    lemma_normal_shape(f);
    let n = parts(f).0;
    let m = parts(f).1;
    let sn = square_root(n);
    let sm = square_root(m);
    assert(square(sn) == n);
    assert(square(sm) == m);
    assert(m >= 1);
    assert(sm >= 1) by (nonlinear_arith)
        requires
            sm * sm == m,
            m >= 1,
    ;
    lemma_quotient_mul(sn as int, sm as int, sn as int, sm as int);
    lemma_quotient_zero(sn as int, sm as int);
    lemma_quotient_zero(signed(!f.sign, n), m as int);
    lemma_quotient_zero(n as int, m as int);
    assert(d == quotient(n as int, m as int));
}

/// A sum with a negated sum joined to it has the difference of the values.
proof fn lemma_value_cleared(l: Seq<TermForm>, r: Seq<TermForm>, x: real)
    ensures
        value_at(cleared(l, r), x) == value_at(l, x) - value_at(r, x),
{
    if is_zero_side(r) {
        assert(r.drop_last() =~= Seq::<TermForm>::empty());
        assert(value_at(r.drop_last(), x) == 0real);
        let p = crate::rational::real_power(x, 0);
        assert(0real * p == 0real) by (nonlinear_arith);
    } else {
        lemma_value_concat(l, negated(r), x);
        lemma_value_negated(r, x);
    }
}

proof fn lemma_within_cleared(l: Seq<TermForm>, r: Seq<TermForm>)
    requires
        within_degree(l, 2),
        within_degree(r, 2),
    ensures
        within_degree(cleared(l, r), 2),
{
    let p = cleared(l, r);
    assert forall|i: int| 0 <= i < p.len() implies (#[trigger] p[i]).degree <= 2 by {
        if !is_zero_side(r) {
            if i < l.len() {
                assert(p[i] == l[i]);
            } else {
                assert(p[i].degree == r[i - l.len()].degree);
            }
        }
    }
}

/// A quotient times its divisor is the dividend.
proof fn lemma_div_mul(x: real, y: real)
    requires
        y != 0real,
    ensures
        (x / y) * y == x,
{
    assert((x / y) * y == x) by (nonlinear_arith)
        requires
            y != 0real,
    ;
}

/// Completing the square.
proof fn lemma_complete_square(a2: real, a1: real, a0: real, y: real)
    ensures
        4real * a2 * (a2 * (y * y) + a1 * y + a0) == (2real * a2 * y + a1) * (2real * a2 * y
            + a1) - (a1 * a1 - 4real * a2 * a0),
{
    assert(4real * a2 * (a2 * (y * y) + a1 * y + a0) == (2real * a2 * y + a1) * (2real * a2 * y
        + a1) - (a1 * a1 - 4real * a2 * a0)) by (nonlinear_arith);
}

/// A product is zero only where a factor is.
proof fn lemma_zero_product(x: real, y: real)
    requires
        x * y == 0real,
    ensures
        x == 0real || y == 0real,
{
    assert(x == 0real || y == 0real) by (nonlinear_arith)
        requires
            x * y == 0real,
    ;
}

/// A square is not negative, and the squares of `s` and `-s` are the same.
proof fn lemma_squares(u: real, s: real)
    ensures
        u * u >= 0real,
        (u == s || u == -s) ==> u * u == s * s,
        u * u - s * s == (u - s) * (u + s),
{
    assert(u * u >= 0real) by (nonlinear_arith);
    assert(u * u - s * s == (u - s) * (u + s)) by (nonlinear_arith);
    if u == -s {
        assert((-s) * (-s) == s * s) by (nonlinear_arith);
    }
}

/// Whether `y` is a zero of `a2 y^2 + a1 y + a0`, by the square of
/// `2 a2 y + a1`.
proof fn lemma_zero_by_square(a2: real, a1: real, a0: real, y: real)
    requires
        a2 != 0real,
    ensures
        (a2 * (y * y) + a1 * y + a0 == 0real) <==> ((2real * a2 * y + a1) * (2real * a2 * y
            + a1) == a1 * a1 - 4real * a2 * a0),
{
    lemma_complete_square(a2, a1, a0, y);
    let v = a2 * (y * y) + a1 * y + a0;
    let f = 4real * a2;
    assert(f * v == 4real * a2 * v) by (nonlinear_arith)
        requires
            f == 4real * a2,
    ;
    if v == 0real {
        assert(f * v == 0real) by (nonlinear_arith)
            requires
                v == 0real,
        ;
    }
    if f * v == 0real {
        lemma_zero_product(f, v);
    }
}

/// Equal multiples by a factor other than zero are multiples of equal
/// numbers.
proof fn lemma_cancel(w: real, x: real, y: real)
    requires
        w != 0real,
        w * x == w * y,
    ensures
        x == y,
{
    assert(w * (x - y) == 0real) by (nonlinear_arith)
        requires
            w * x == w * y,
    ;
    lemma_zero_product(w, x - y);
}

/// The roots that the solver gives for an equation of degree two satisfy it,
/// and nothing else does.
///
/// For sides of degree at most two with a term of degree two left: where the
/// discriminant is negative, the solve ends without a solution and no `y`
/// makes the two sides equal. Where it is not negative and has a root among
/// the fractions, the solve ends as solved with the two numbers
/// `(-a1 - s) / 2 a2` and `(-a1 + s) / 2 a2`, one number where they are the
/// same; each makes the two sides equal, and every `y` that does is one of
/// them.
pub proof fn law_quadratic_roots(
    lhs: ExpressionForm,
    op: TokenType,
    rhs: ExpressionForm,
    l: Seq<TermForm>,
    r: Seq<TermForm>,
    t: Seq<char>,
    y: real,
)
    requires
        within_degree(l, 2),
        within_degree(r, 2),
        total(of_degree(cleared(l, r), 2)) != 0real,
        representable(
            discriminant(
                total(of_degree(cleared(l, r), 2)),
                total(of_degree(cleared(l, r), 1)),
                total(of_degree(cleared(l, r), 0)),
            ),
        ),
    ensures
        ({
            let p = cleared(l, r);
            let a2 = total(of_degree(p, 2));
            let a1 = total(of_degree(p, 1));
            let a0 = total(of_degree(p, 0));
            let d = discriminant(a2, a1, a0);
            let out = squared(lhs, op, rhs, l, r, t);
            let low = (-a1 - root_of(d)) / (2real * a2);
            let high = (-a1 + root_of(d)) / (2real * a2);
            &&& d < 0real ==> out.status == TerminalStatus::NoSolution && value_at(l, y)
                != value_at(r, y)
            &&& d >= 0real && has_root(d) ==> {
                &&& out.status == TerminalStatus::Solved
                &&& out.roots == (if d == 0real {
                    seq![ExpressionForm::Numeric(normal_form(low))]
                } else {
                    seq![
                        ExpressionForm::Numeric(normal_form(low)),
                        ExpressionForm::Numeric(normal_form(high)),
                    ]
                })
                &&& value_at(l, low) == value_at(r, low)
                &&& value_at(l, high) == value_at(r, high)
                &&& value_at(l, y) == value_at(r, y) ==> y == low || y == high
            }
        }),
{
    let p = cleared(l, r);
    let a2 = total(of_degree(p, 2));
    let a1 = total(of_degree(p, 1));
    let a0 = total(of_degree(p, 0));
    let d = discriminant(a2, a1, a0);
    let w = 2real * a2;
    lemma_within_cleared(l, r);
    lemma_value_cleared(l, r, y);
    lemma_value_quadratic(p, y);
    lemma_zero_by_square(a2, a1, a0, y);
    let u = w * y + a1;
    if d < 0real {
        lemma_squares(u, 0real);
    } else if has_root(d) {
        lemma_root_squares(d);
        let s = root_of(d);
        let low = (-a1 - s) / w;
        let high = (-a1 + s) / w;
        lemma_div_mul(-a1 - s, w);
        lemma_div_mul(-a1 + s, w);
        assert(w * low == low * w && w * high == high * w) by (nonlinear_arith);
        lemma_value_cleared(l, r, low);
        lemma_value_quadratic(p, low);
        lemma_zero_by_square(a2, a1, a0, low);
        lemma_squares(w * low + a1, s);
        lemma_value_cleared(l, r, high);
        lemma_value_quadratic(p, high);
        lemma_zero_by_square(a2, a1, a0, high);
        lemma_squares(w * high + a1, s);
        if value_at(l, y) == value_at(r, y) {
            lemma_squares(u, s);
            lemma_zero_product(u - s, u + s);
            if u == s {
                lemma_cancel(w, y, high);
            } else {
                lemma_cancel(w, y, low);
            }
        }
        if d == 0real {
            lemma_zero_product(s, s);
        }
    }
}

} // verus!
