//! Sums of terms: each term a coefficient times a power of the unknown.

use crate::natural::Natural;
use crate::numeric::{lemma_whole_form, NumericValue};
use vstd::prelude::*;

verus! {

/// The mathematical content of a term: `coefficient` times the unknown to the
/// power `degree`.
pub struct TermForm {
    pub coefficient: real,
    pub degree: nat,
}

/// A term: a coefficient times a power of the unknown.
#[derive(Debug)]
pub struct Term {
    pub coefficient: NumericValue,
    pub degree: Natural,
}

impl View for Term {
    type V = TermForm;

    open spec fn view(&self) -> TermForm {
        TermForm { coefficient: self.coefficient@.value(), degree: self.degree@ }
    }
}

/// The contents of the terms of `s`.
pub open spec fn view_of(s: Seq<Term>) -> Seq<TermForm> {
    Seq::new(s.len(), |i: int| s[i]@)
}

/// Every coefficient is in normal form.
pub open spec fn all_normal(s: Seq<Term>) -> bool {
    forall|i: int| 0 <= i < s.len() ==> (#[trigger] s[i]).coefficient@.is_normal()
}

/// Every term with its coefficient negated.
pub open spec fn negated(ts: Seq<TermForm>) -> Seq<TermForm> {
    Seq::new(
        ts.len(),
        |i: int| TermForm { coefficient: -ts[i].coefficient, degree: ts[i].degree },
    )
}

/// Every term with its coefficient multiplied by `k`.
pub open spec fn scaled(ts: Seq<TermForm>, k: real) -> Seq<TermForm> {
    Seq::new(
        ts.len(),
        |i: int| TermForm { coefficient: ts[i].coefficient * k, degree: ts[i].degree },
    )
}

/// Every term multiplied by the term `t`.
pub open spec fn times(ts: Seq<TermForm>, t: TermForm) -> Seq<TermForm> {
    Seq::new(
        ts.len(),
        |i: int|
            TermForm {
                coefficient: ts[i].coefficient * t.coefficient,
                degree: ts[i].degree + t.degree,
            },
    )
}

/// The product of two sums, multiplied out: for each term of `a` in turn, the
/// terms of `b` multiplied by it.
pub open spec fn product(a: Seq<TermForm>, b: Seq<TermForm>) -> Seq<TermForm>
    decreases a.len(),
{
    if a.len() == 0 {
        Seq::empty()
    } else {
        product(a.drop_last(), b) + times(b, a.last())
    }
}

/// The constant one as a sum.
pub open spec fn unit() -> Seq<TermForm> {
    seq![TermForm { coefficient: 1real, degree: 0 }]
}

/// The sum multiplied by itself `n` times, multiplied out.
pub open spec fn raised(ts: Seq<TermForm>, n: nat) -> Seq<TermForm>
    decreases n,
{
    if n == 0 {
        unit()
    } else {
        product(raised(ts, (n - 1) as nat), ts)
    }
}

/// The sum of the coefficients.
pub open spec fn total(ts: Seq<TermForm>) -> real
    decreases ts.len(),
{
    if ts.len() == 0 {
        0real
    } else {
        total(ts.drop_last()) + ts.last().coefficient
    }
}

/// No term holds the unknown.
pub open spec fn constant_only(ts: Seq<TermForm>) -> bool {
    forall|i: int| 0 <= i < ts.len() ==> (#[trigger] ts[i]).degree == 0
}

/// No term has a degree above `d`.
pub open spec fn within_degree(ts: Seq<TermForm>, d: nat) -> bool {
    forall|i: int| 0 <= i < ts.len() ==> (#[trigger] ts[i]).degree <= d
}

/// The terms of degree `d`, in their order.
pub open spec fn of_degree(ts: Seq<TermForm>, d: nat) -> Seq<TermForm>
    decreases ts.len(),
{
    if ts.len() == 0 {
        Seq::empty()
    } else if ts.last().degree == d {
        of_degree(ts.drop_last(), d).push(ts.last())
    } else {
        of_degree(ts.drop_last(), d)
    }
}

/// The constant `v` as a sum of one term.
pub fn constant_term(v: &NumericValue) -> (out: Vec<Term>)
    ensures
        view_of(out@) == seq![TermForm { coefficient: v@.value(), degree: 0 }],
        all_normal(out@),
{
    let mut out: Vec<Term> = Vec::new();
    out.push(Term { coefficient: v.normalize(), degree: Natural::zero() });
    assert(view_of(out@) =~= seq![TermForm { coefficient: v@.value(), degree: 0 }]);
    out
}

/// The unknown itself as a sum of one term.
pub fn unknown_term() -> (out: Vec<Term>)
    ensures
        view_of(out@) == seq![TermForm { coefficient: 1real, degree: 1 }],
        all_normal(out@),
{
    let mut out: Vec<Term> = Vec::new();
    proof {
        lemma_whole_form(true, 1);
    }
    out.push(
        Term { coefficient: NumericValue::integer(true, Natural::one()), degree: Natural::one() },
    );
    assert(view_of(out@) =~= seq![TermForm { coefficient: 1real, degree: 1 }]);
    out
}

/// A copy of the terms.
pub fn copy_terms(ts: &Vec<Term>) -> (out: Vec<Term>)
    ensures
        view_of(out@) == view_of(ts@),
        all_normal(ts@) ==> all_normal(out@),
{
    let mut out: Vec<Term> = Vec::new();
    let mut i: usize = 0;
    while i < ts.len()
        invariant
            i <= ts.len(),
            out@.len() == i,
            forall|k: int| 0 <= k < i ==> (#[trigger] out@[k])@ == ts@[k]@,
            forall|k: int|
                0 <= k < i ==> (#[trigger] out@[k]).coefficient@ == ts@[k].coefficient@,
        decreases ts.len() - i,
    {
        out.push(
            Term { coefficient: ts[i].coefficient.duplicate(), degree: ts[i].degree.duplicate() },
        );
        i = i + 1;
    }
    assert(view_of(out@) =~= view_of(ts@));
    out
}

/// The two sums joined.
pub fn join_terms(a: Vec<Term>, b: Vec<Term>) -> (out: Vec<Term>)
    ensures
        view_of(out@) == view_of(a@) + view_of(b@),
        all_normal(a@) && all_normal(b@) ==> all_normal(out@),
{
    let mut out = a;
    let mut rest = b;
    out.append(&mut rest);
    assert(view_of(out@) =~= view_of(a@) + view_of(b@));
    out
}

/// Every term with its coefficient negated.
pub fn negate_terms(ts: &Vec<Term>) -> (out: Vec<Term>)
    ensures
        view_of(out@) == negated(view_of(ts@)),
        all_normal(out@),
{
    let mut out: Vec<Term> = Vec::new();
    let mut i: usize = 0;
    while i < ts.len()
        invariant
            i <= ts.len(),
            out@.len() == i,
            all_normal(out@),
            forall|k: int|
                0 <= k < i ==> (#[trigger] out@[k])@ == (TermForm {
                    coefficient: -ts@[k]@.coefficient,
                    degree: ts@[k]@.degree,
                }),
        decreases ts.len() - i,
    {
        out.push(Term { coefficient: ts[i].coefficient.negate(), degree: ts[i].degree.duplicate() });
        i = i + 1;
    }
    assert(view_of(out@) =~= negated(view_of(ts@)));
    out
}

/// Every term with its coefficient multiplied by `k`.
pub fn scale_terms(ts: &Vec<Term>, k: &NumericValue) -> (out: Vec<Term>)
    ensures
        view_of(out@) == scaled(view_of(ts@), k@.value()),
        all_normal(out@),
{
    let mut out: Vec<Term> = Vec::new();
    let mut i: usize = 0;
    while i < ts.len()
        invariant
            i <= ts.len(),
            out@.len() == i,
            all_normal(out@),
            forall|k2: int|
                0 <= k2 < i ==> (#[trigger] out@[k2])@ == (TermForm {
                    coefficient: ts@[k2]@.coefficient * k@.value(),
                    degree: ts@[k2]@.degree,
                }),
        decreases ts.len() - i,
    {
        out.push(
            Term { coefficient: ts[i].coefficient.multiply(k), degree: ts[i].degree.duplicate() },
        );
        i = i + 1;
    }
    assert(view_of(out@) =~= scaled(view_of(ts@), k@.value()));
    out
}

/// Every term multiplied by the term `t`.
pub fn times_term(ts: &Vec<Term>, t: &Term) -> (out: Vec<Term>)
    ensures
        view_of(out@) == times(view_of(ts@), t@),
        all_normal(out@),
{
    let mut out: Vec<Term> = Vec::new();
    let mut i: usize = 0;
    while i < ts.len()
        invariant
            i <= ts.len(),
            out@.len() == i,
            all_normal(out@),
            forall|k: int|
                0 <= k < i ==> (#[trigger] out@[k])@ == (TermForm {
                    coefficient: ts@[k]@.coefficient * t@.coefficient,
                    degree: ts@[k]@.degree + t@.degree,
                }),
        decreases ts.len() - i,
    {
        out.push(
            Term {
                coefficient: ts[i].coefficient.multiply(&t.coefficient),
                degree: ts[i].degree.add(&t.degree),
            },
        );
        i = i + 1;
    }
    assert(view_of(out@) =~= times(view_of(ts@), t@));
    out
}

/// The product of two sums, multiplied out.
pub fn product_terms(a: &Vec<Term>, b: &Vec<Term>) -> (out: Vec<Term>)
    ensures
        view_of(out@) == product(view_of(a@), view_of(b@)),
        all_normal(out@),
{
    let mut out: Vec<Term> = Vec::new();
    let mut i: usize = 0;
    assert(view_of(out@) =~= Seq::<TermForm>::empty());
    while i < a.len()
        invariant
            i <= a.len(),
            all_normal(out@),
            view_of(out@) == product(view_of(a@).take(i as int), view_of(b@)),
        decreases a.len() - i,
    {
        let row = times_term(b, &a[i]);
        proof {
            let next = view_of(a@).take(i + 1);
            assert(next.drop_last() =~= view_of(a@).take(i as int));
            assert(next.last() == a@[i as int]@);
        }
        out = join_terms(out, row);
        i = i + 1;
    }
    assert(view_of(a@).take(a@.len() as int) =~= view_of(a@));
    out
}

/// The sum multiplied by itself `n` times, multiplied out.
pub fn raise_terms(ts: &Vec<Term>, n: &Natural) -> (out: Vec<Term>)
    ensures
        view_of(out@) == raised(view_of(ts@), n@),
        all_normal(out@),
{
    let one = NumericValue::integer(true, Natural::one());
    proof {
        lemma_whole_form(true, 1);
    }
    let mut out = constant_term(&one);
    let mut done = Natural::zero();
    while !done.equals(n)
        invariant
            done@ <= n@,
            all_normal(out@),
            view_of(out@) == raised(view_of(ts@), done@),
        decreases n@ - done@,
    {
        out = product_terms(&out, ts);
        done = done.add(&Natural::one());
    }
    out
}

/// The sum of the coefficients, in normal form.
pub fn total_of(ts: &Vec<Term>) -> (sum: NumericValue)
    ensures
        sum@.is_normal(),
        sum@.value() == total(view_of(ts@)),
{
    proof {
        lemma_whole_form(true, 0);
    }
    let mut sum = NumericValue::integer(true, Natural::zero());
    let mut i: usize = 0;
    while i < ts.len()
        invariant
            i <= ts.len(),
            sum@.is_normal(),
            sum@.value() == total(view_of(ts@).take(i as int)),
        decreases ts.len() - i,
    {
        proof {
            let next = view_of(ts@).take(i + 1);
            assert(next.drop_last() =~= view_of(ts@).take(i as int));
            assert(next.last() == ts@[i as int]@);
        }
        sum = sum.add(&ts[i].coefficient);
        i = i + 1;
    }
    assert(view_of(ts@).take(ts@.len() as int) =~= view_of(ts@));
    sum
}

/// Whether no term holds the unknown.
pub fn is_constant_only(ts: &Vec<Term>) -> (r: bool)
    ensures
        r == constant_only(view_of(ts@)),
{
    let mut i: usize = 0;
    while i < ts.len()
        invariant
            i <= ts.len(),
            forall|k: int| 0 <= k < i ==> (#[trigger] view_of(ts@)[k]).degree == 0,
        decreases ts.len() - i,
    {
        if !ts[i].degree.is_zero() {
            assert(view_of(ts@)[i as int].degree != 0);
            return false;
        }
        i = i + 1;
    }
    true
}

/// Whether no term has a degree above `d`.
pub fn is_within_degree(ts: &Vec<Term>, d: u64) -> (r: bool)
    ensures
        r == within_degree(view_of(ts@), d as nat),
{
    let bound = Natural::from_u64(d);
    let mut i: usize = 0;
    while i < ts.len()
        invariant
            i <= ts.len(),
            bound@ == d,
            forall|k: int| 0 <= k < i ==> (#[trigger] view_of(ts@)[k]).degree <= d,
        decreases ts.len() - i,
    {
        if ts[i].degree.compare(&bound) == crate::natural::Order::Greater {
            assert(view_of(ts@)[i as int].degree > d);
            return false;
        }
        i = i + 1;
    }
    true
}

/// The terms of degree `d`, in their order.
pub fn terms_of_degree(ts: &Vec<Term>, d: u64) -> (out: Vec<Term>)
    ensures
        view_of(out@) == of_degree(view_of(ts@), d as nat),
        all_normal(ts@) ==> all_normal(out@),
{
    let wanted = Natural::from_u64(d);
    let mut out: Vec<Term> = Vec::new();
    let mut i: usize = 0;
    assert(view_of(out@) =~= Seq::<TermForm>::empty());
    while i < ts.len()
        invariant
            i <= ts.len(),
            wanted@ == d,
            all_normal(ts@) ==> all_normal(out@),
            view_of(out@) == of_degree(view_of(ts@).take(i as int), d as nat),
        decreases ts.len() - i,
    {
        proof {
            let next = view_of(ts@).take(i + 1);
            assert(next.drop_last() =~= view_of(ts@).take(i as int));
            assert(next.last() == ts@[i as int]@);
        }
        if ts[i].degree.equals(&wanted) {
            let ghost before = view_of(out@);
            out.push(
                Term {
                    coefficient: ts[i].coefficient.duplicate(),
                    degree: ts[i].degree.duplicate(),
                },
            );
            assert(view_of(out@) =~= before.push(ts@[i as int]@));
        }
        i = i + 1;
    }
    assert(view_of(ts@).take(ts@.len() as int) =~= view_of(ts@));
    out
}

} // verus!
