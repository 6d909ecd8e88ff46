//! What the operations on sums of terms mean for the values of the sums.

use crate::rational::real_power;
use crate::terms::{
    negated, of_degree, product, raised, scaled, times, total, unit, within_degree, TermForm,
};
use vstd::prelude::*;

verus! {

/// The value of the sum at `x`: each coefficient times `x` to the power of
/// its degree, added up.
pub open spec fn value_at(ts: Seq<TermForm>, x: real) -> real
    decreases ts.len(),
{
    if ts.len() == 0 {
        0real
    } else {
        value_at(ts.drop_last(), x) + ts.last().coefficient * real_power(x, ts.last().degree)
    }
}

/// The value of a sum with one term more.
pub proof fn lemma_value_push(ts: Seq<TermForm>, t: TermForm, x: real)
    ensures
        value_at(ts.push(t), x) == value_at(ts, x) + t.coefficient * real_power(x, t.degree),
        total(ts.push(t)) == total(ts) + t.coefficient,
{
    assert(ts.push(t).drop_last() =~= ts);
}

/// Two sums joined have the values of both, added.
pub proof fn lemma_value_concat(a: Seq<TermForm>, b: Seq<TermForm>, x: real)
    ensures
        value_at(a + b, x) == value_at(a, x) + value_at(b, x),
        total(a + b) == total(a) + total(b),
    decreases b.len(),
{
    if b.len() == 0 {
        assert(a + b =~= a);
    } else {
        lemma_value_concat(a, b.drop_last(), x);
        assert((a + b).drop_last() =~= a + b.drop_last());
    }
}

/// A negated sum has the negated value.
pub proof fn lemma_value_negated(a: Seq<TermForm>, x: real)
    ensures
        value_at(negated(a), x) == -value_at(a, x),
        total(negated(a)) == -total(a),
    decreases a.len(),
{
    if a.len() > 0 {
        lemma_value_negated(a.drop_last(), x);
        assert(negated(a).drop_last() =~= negated(a.drop_last()));
        let c = a.last().coefficient;
        let p = real_power(x, a.last().degree);
        assert((-c) * p == -(c * p)) by (nonlinear_arith);
    }
}

/// A sum scaled by `k` has its value scaled by `k`.
pub proof fn lemma_value_scaled(a: Seq<TermForm>, k: real, x: real)
    ensures
        value_at(scaled(a, k), x) == value_at(a, x) * k,
        total(scaled(a, k)) == total(a) * k,
    decreases a.len(),
{
    if a.len() > 0 {
        lemma_value_scaled(a.drop_last(), k, x);
        assert(scaled(a, k).drop_last() =~= scaled(a.drop_last(), k));
        let c = a.last().coefficient;
        let p = real_power(x, a.last().degree);
        let v = value_at(a.drop_last(), x);
        let s = total(a.drop_last());
        assert(v * k + (c * k) * p == (v + c * p) * k) by (nonlinear_arith);
        assert(s * k + c * k == (s + c) * k) by (nonlinear_arith);
    } else {
        assert(0real * k == 0real) by (nonlinear_arith);
    }
}

/// Powers of one number multiply by adding their exponents.
pub proof fn lemma_real_power_adds(x: real, m: nat, n: nat)
    ensures
        real_power(x, m + n) == real_power(x, m) * real_power(x, n),
    decreases m,
{
    if m == 0 {
        assert(1real * real_power(x, n) == real_power(x, n)) by (nonlinear_arith);
    } else {
        lemma_real_power_adds(x, (m - 1) as nat, n);
        let a = real_power(x, (m - 1) as nat);
        let b = real_power(x, n);
        assert(real_power(x, m + n) == x * real_power(x, (m + n - 1) as nat));
        assert(x * (a * b) == (x * a) * b) by (nonlinear_arith);
    }
}

/// A sum multiplied by a term has its value multiplied by the value of the
/// term.
pub proof fn lemma_value_times(a: Seq<TermForm>, t: TermForm, x: real)
    ensures
        value_at(times(a, t), x) == value_at(a, x) * (t.coefficient * real_power(x, t.degree)),
    decreases a.len(),
{
    let tv = t.coefficient * real_power(x, t.degree);
    if a.len() > 0 {
        lemma_value_times(a.drop_last(), t, x);
        assert(times(a, t).drop_last() =~= times(a.drop_last(), t));
        let c = a.last().coefficient;
        let d = a.last().degree;
        lemma_real_power_adds(x, d, t.degree);
        let p = real_power(x, d);
        let q = real_power(x, t.degree);
        let v = value_at(a.drop_last(), x);
        assert(v * (t.coefficient * q) + (c * t.coefficient) * (p * q) == (v + c * p) * (
        t.coefficient * q)) by (nonlinear_arith);
    } else {
        assert(0real * tv == 0real) by (nonlinear_arith);
    }
}

/// The product of two sums has the product of their values.
pub proof fn lemma_value_product(a: Seq<TermForm>, b: Seq<TermForm>, x: real)
    ensures
        value_at(product(a, b), x) == value_at(a, x) * value_at(b, x),
    decreases a.len(),
{
    let vb = value_at(b, x);
    if a.len() > 0 {
        lemma_value_product(a.drop_last(), b, x);
        lemma_value_times(b, a.last(), x);
        lemma_value_concat(product(a.drop_last(), b), times(b, a.last()), x);
        let v = value_at(a.drop_last(), x);
        let tv = a.last().coefficient * real_power(x, a.last().degree);
        assert(v * vb + vb * tv == (v + tv) * vb) by (nonlinear_arith);
    } else {
        assert(0real * vb == 0real) by (nonlinear_arith);
    }
}

/// A sum raised to a power has its value raised to that power.
pub proof fn lemma_value_raised(a: Seq<TermForm>, n: nat, x: real)
    ensures
        value_at(raised(a, n), x) == real_power(value_at(a, x), n),
    decreases n,
{
    let v = value_at(a, x);
    if n == 0 {
        let u = unit();
        assert(u.drop_last() =~= Seq::<TermForm>::empty());
        assert(value_at(u.drop_last(), x) == 0real);
        assert(1real * 1real == 1real) by (nonlinear_arith);
    } else {
        lemma_value_raised(a, (n - 1) as nat, x);
        lemma_value_product(raised(a, (n - 1) as nat), a, x);
        let r = real_power(v, (n - 1) as nat);
        assert(r * v == v * r) by (nonlinear_arith);
    }
}

/// The terms of one degree of a sum with one term more.
pub proof fn lemma_of_degree_push(ts: Seq<TermForm>, t: TermForm, d: nat)
    ensures
        of_degree(ts.push(t), d) == (if t.degree == d {
            of_degree(ts, d).push(t)
        } else {
            of_degree(ts, d)
        }),
{
    assert(ts.push(t).drop_last() =~= ts);
}

/// The value of a sum of degree at most one, by its coefficient and its
/// constant.
pub proof fn lemma_value_linear(ts: Seq<TermForm>, x: real)
    requires
        within_degree(ts, 1),
    ensures
        value_at(ts, x) == total(of_degree(ts, 1)) * x + total(of_degree(ts, 0)),
    decreases ts.len(),
{
    if ts.len() == 0 {
        assert(0real * x == 0real) by (nonlinear_arith);
    } else {
        let init = ts.drop_last();
        let t = ts.last();
        assert(within_degree(init, 1)) by {
            assert forall|i: int| 0 <= i < init.len() implies (#[trigger] init[i]).degree <= 1 by {
                assert(init[i] == ts[i]);
            }
        }
        lemma_value_linear(init, x);
        let a = total(of_degree(init, 1));
        let c = total(of_degree(init, 0));
        if t.degree == 0 {
            lemma_value_push(of_degree(init, 0), t, x);
            assert(t.coefficient * 1real == t.coefficient) by (nonlinear_arith);
        } else {
            assert(t.degree == 1);
            lemma_value_push(of_degree(init, 1), t, x);
            assert(real_power(x, 1) == x * real_power(x, 0));
            assert(a * x + t.coefficient * (x * 1real) == (a + t.coefficient) * x)
                by (nonlinear_arith);
        }
    }
}

/// The value of a sum of degree at most two, by its three coefficients.
pub proof fn lemma_value_quadratic(ts: Seq<TermForm>, x: real)
    requires
        within_degree(ts, 2),
    ensures
        value_at(ts, x) == total(of_degree(ts, 2)) * (x * x) + total(of_degree(ts, 1)) * x
            + total(of_degree(ts, 0)),
    decreases ts.len(),
{
    if ts.len() == 0 {
        assert(0real * (x * x) + 0real * x == 0real) by (nonlinear_arith);
    } else {
        let init = ts.drop_last();
        let t = ts.last();
        assert(within_degree(init, 2)) by {
            assert forall|i: int| 0 <= i < init.len() implies (#[trigger] init[i]).degree <= 2 by {
                assert(init[i] == ts[i]);
            }
        }
        lemma_value_quadratic(init, x);
        let a2 = total(of_degree(init, 2));
        let a1 = total(of_degree(init, 1));
        let c = t.coefficient;
        if t.degree == 0 {
            lemma_value_push(of_degree(init, 0), t, x);
            assert(c * 1real == c) by (nonlinear_arith);
        } else if t.degree == 1 {
            lemma_value_push(of_degree(init, 1), t, x);
            assert(real_power(x, 1) == x * real_power(x, 0));
            assert(a1 * x + c * (x * 1real) == (a1 + c) * x) by (nonlinear_arith);
        } else {
            assert(t.degree == 2);
            lemma_value_push(of_degree(init, 2), t, x);
            assert(real_power(x, 2) == x * real_power(x, 1));
            assert(real_power(x, 1) == x * real_power(x, 0));
            assert(a2 * (x * x) + c * (x * (x * 1real)) == (a2 + c) * (x * x))
                by (nonlinear_arith);
        }
    }
}

} // verus!
