//! Numeric values: exact numbers in the forms in which they can be written.

use crate::natural::{
    gcd, lemma_gcd_divides, lemma_gcd_positive, lemma_lowest_terms_unique,
    lemma_reduced_is_coprime, power, Natural, Order,
};
use crate::rational::{
    lemma_quotient_div, lemma_quotient_order, lemma_quotient_scale, lemma_quotient_zero, magnitude,
    quotient, real_order, real_power, signed, Rational,
};
use vstd::prelude::*;

verus! {

/// An arithmetic failure.
#[derive(Clone, Copy, Debug, PartialEq, Eq, Structural)]
pub enum ArithmeticError {
    /// The divisor denotes zero.
    DivisionByZero,
}

/// The mathematical content of a numeric value.
///
/// A value is written either directly, as `magnitude` scaled by a power of
/// `base` with an optional repeating tail, or as a fraction of two values.
pub struct NumericForm {
    /// True for a value that is not negated.
    pub sign: bool,
    /// The number that the written digits denote.
    pub magnitude: nat,
    /// The base in which exponent and period count digits.
    pub base: nat,
    /// How many of the lowest digits repeat without end below the last one.
    pub period: Option<nat>,
    /// The power of the base by which the magnitude is scaled.
    pub exponent: Option<int>,
    /// Numerator and denominator.
    pub fraction: Option<Box<(NumericForm, NumericForm)>>,
}

/// `1` for a set sign flag, `-1` otherwise.
pub open spec fn signum(sign: bool) -> real {
    if sign {
        1real
    } else {
        -1real
    }
}

/// `base` to the power `e`, for any integer `e`.
pub open spec fn scale(base: nat, e: int) -> real {
    if e >= 0 {
        power(base, e as nat) as real
    } else {
        1real / (power(base, (-e) as nat) as real)
    }
}

/// The digits `m` followed by their lowest `p` digits repeated without end,
/// counted in units of the last written digit.
pub open spec fn mantissa(m: nat, base: nat, period: Option<nat>) -> real {
    match period {
        None => m as real,
        Some(p) => m as real + ((m % power(base, p)) as real) / ((power(base, p) - 1) as real),
    }
}

impl NumericForm {
    /// The real number that the form denotes.
    pub open spec fn value(self) -> real
        decreases self,
    {
        match self.fraction {
            Some(pair) => signum(self.sign) * (pair.0.value() / pair.1.value()),
            None => signum(self.sign) * (mantissa(self.magnitude, self.base, self.period) * scale(
                self.base,
                match self.exponent {
                    Some(e) => e,
                    None => 0,
                },
            )),
        }
    }

    /// The form is one that can be written: a base of at least two, a period of
    /// at least one digit, and a fraction that stands alone over a denominator
    /// other than zero.
    pub open spec fn wf(self) -> bool
        decreases self,
    {
        &&& self.base >= 2
        &&& self.period matches Some(p) ==> p >= 1
        &&& match self.fraction {
            Some(pair) => {
                &&& self.magnitude == 0
                &&& self.period is None
                &&& self.exponent is None
                &&& pair.0.wf()
                &&& pair.1.wf()
                &&& pair.1.value() != 0real
            },
            None => true,
        }
    }

    /// A natural number written in base ten with nothing else set.
    pub open spec fn is_plain(self) -> bool {
        &&& self.sign
        &&& self.base == 10
        &&& self.period is None
        &&& self.exponent is None
        &&& self.fraction is None
    }

    /// The one form that stands for its number: a whole number written in
    /// base ten, or a fraction of two such numbers in lowest terms with a
    /// denominator of at least two; zero is not negated.
    pub open spec fn is_normal(self) -> bool {
        &&& self.base == 10
        &&& self.period is None
        &&& self.exponent is None
        &&& match self.fraction {
            None => self.magnitude == 0 ==> self.sign,
            Some(pair) => {
                &&& self.magnitude == 0
                &&& pair.0.is_plain()
                &&& pair.1.is_plain()
                &&& pair.0.magnitude >= 1
                &&& pair.1.magnitude >= 2
                &&& gcd(pair.0.magnitude, pair.1.magnitude) == 1
            },
        }
    }
}

/// The form with the opposite sign.
pub open spec fn opposite_form(f: NumericForm) -> NumericForm {
    NumericForm {
        sign: !f.sign,
        magnitude: f.magnitude,
        base: f.base,
        period: f.period,
        exponent: f.exponent,
        fraction: f.fraction,
    }
}

/// The whole number `signed(!sign, m)` written plainly.
pub open spec fn whole_form(sign: bool, m: nat) -> NumericForm {
    NumericForm { sign, magnitude: m, base: 10, period: None, exponent: None, fraction: None }
}

/// The fraction `n / d` with the given sign.
pub open spec fn fraction_form(sign: bool, n: nat, d: nat) -> NumericForm {
    NumericForm {
        sign,
        magnitude: 0,
        base: 10,
        period: None,
        exponent: None,
        fraction: Some(Box::new((whole_form(true, n), whole_form(true, d)))),
    }
}

/// A power of a base of at least one is at least one; a power of at least one
/// of a base of at least two is at least two.
pub proof fn lemma_power_positive(b: nat, e: nat)
    requires
        b >= 1,
    ensures
        power(b, e) >= 1,
        b >= 2 && e >= 1 ==> power(b, e) >= 2,
    decreases e,
{
    if e > 0 {
        lemma_power_positive(b, (e - 1) as nat);
        let rest = power(b, (e - 1) as nat);
        assert(b * rest >= b) by (nonlinear_arith)
            requires
                rest >= 1,
                b >= 1,
        ;
    }
}

proof fn lemma_signed_product(sign: bool, x: int)
    requires
        x >= 0,
    ensures
        (if sign {
            1int
        } else {
            -1int
        }) * x == signed(!sign, x as nat),
{
    assert(1 * x == x && (-1) * x == -x) by (nonlinear_arith);
}

/// The value of a directly written form, as one fraction.
pub proof fn lemma_direct_value(
    sign: bool,
    m: nat,
    base: nat,
    period: Option<nat>,
    e: int,
    scale_by: nat,
)
    requires
        base >= 2,
        period matches Some(p) ==> p >= 1,
        scale_by == power(base, (if e >= 0 {
            e
        } else {
            -e
        }) as nat),
    ensures
        ({
            let unit: int = match period {
                Some(p) => power(base, p) - 1,
                None => 1,
            };
            let top: int = match period {
                Some(p) => m * (power(base, p) - 1) + m % power(base, p),
                None => m as int,
            };
            &&& unit >= 1
            &&& top >= 0
            &&& scale_by >= 1
            &&& e >= 0 ==> signum(sign) * (mantissa(m, base, period) * scale(base, e)) == quotient(
                signed(!sign, (top * scale_by) as nat),
                unit,
            )
            &&& e < 0 ==> unit * scale_by >= 1 && signum(sign) * (mantissa(m, base, period) * scale(
                base,
                e,
            )) == quotient(signed(!sign, top as nat), unit * scale_by)
        }),
{
    lemma_power_positive(base, (if e >= 0 {
        e
    } else {
        -e
    }) as nat);
    let s = scale_by as int;
    let sg: int = if sign {
        1
    } else {
        -1
    };
    assert(signum(sign) == sg as real);
    match period {
        Some(p) => {
            lemma_power_positive(base, p);
            let pw = power(base, p) as int;
            let r = (m % power(base, p)) as int;
            let unit = pw - 1;
            let top = m * unit + r;
            assert(m * unit >= 0) by (nonlinear_arith)
                requires
                    m >= 0,
                    unit >= 1,
            ;
            if e >= 0 {
                assert(top * s >= 0) by (nonlinear_arith)
                    requires
                        top >= 0,
                        s >= 1,
                ;
                lemma_signed_product(sign, top * s);
                assert((sg as real) * (((m as real) + (r as real) / (unit as real)) * (s as real))
                    == ((sg * (top * s)) as real) / (unit as real)) by (nonlinear_arith)
                    requires
                        unit >= 1,
                        top == m * unit + r,
                ;
            } else {
                assert(unit * s >= 1) by (nonlinear_arith)
                    requires
                        unit >= 1,
                        s >= 1,
                ;
                lemma_signed_product(sign, top);
                assert((sg as real) * (((m as real) + (r as real) / (unit as real)) * (1real / (
                s as real))) == ((sg * top) as real) / ((unit * s) as real)) by (nonlinear_arith)
                    requires
                        unit >= 1,
                        s >= 1,
                        top == m * unit + r,
                ;
            }
        },
        None => {
            if e >= 0 {
                assert(m * s >= 0) by (nonlinear_arith)
                    requires
                        m >= 0,
                        s >= 1,
                ;
                lemma_signed_product(sign, m * s);
                assert((sg as real) * ((m as real) * (s as real)) == ((sg * (m * s)) as real) / (
                1int as real)) by (nonlinear_arith);
            } else {
                assert(1 * s == s) by (nonlinear_arith);
                lemma_signed_product(sign, m as int);
                assert((sg as real) * ((m as real) * (1real / (s as real))) == ((sg * m) as real)
                    / ((1 * s) as real)) by (nonlinear_arith)
                    requires
                        s >= 1,
                ;
            }
        },
    }
}


/// A plainly written whole number denotes `m`, negated where the sign flag is
/// not set.
pub proof fn lemma_whole_form(sign: bool, m: nat)
    ensures
        whole_form(sign, m).wf(),
        whole_form(sign, m).value() == quotient(signed(!sign, m), 1),
        whole_form(sign, m).value() == signum(sign) * (m as real),
{
    assert(power(10, 0) == 1);
    lemma_signed_product(sign, m as int);
    let sg: int = if sign {
        1
    } else {
        -1
    };
    assert(signum(sign) == sg as real);
    assert((sg as real) * ((m as real) * (1int as real)) == ((sg * m) as real) / (1int as real)
        && (sg as real) * ((m as real) * (1int as real)) == (sg as real) * (m as real))
        by (nonlinear_arith);
}

/// A fraction of two plainly written whole numbers denotes their quotient.
pub proof fn lemma_fraction_form(sign: bool, n: nat, d: nat)
    requires
        d >= 1,
    ensures
        fraction_form(sign, n, d).wf(),
        fraction_form(sign, n, d).value() == quotient(signed(!sign, n), d as int),
{
    lemma_whole_form(true, n);
    lemma_whole_form(true, d);
    lemma_signed_product(sign, n as int);
    let sg: int = if sign {
        1
    } else {
        -1
    };
    assert(signum(sign) == sg as real);
    assert((1real * (d as real)) != 0real && (sg as real) * ((1real * (n as real)) / (1real * (
    d as real))) == ((sg * n) as real) / (d as real)) by (nonlinear_arith)
        requires
            d >= 1,
    ;
}

/// `x` to the power `e`, for any integer `e`.
pub open spec fn real_int_power(x: real, e: int) -> real {
    if e >= 0 {
        real_power(x, e as nat)
    } else {
        1real / real_power(x, (-e) as nat)
    }
}

/// A power is zero exactly where the base is zero and the exponent is not.
pub proof fn lemma_real_power_zero(x: real, e: nat)
    ensures
        (real_power(x, e) == 0real) <==> (x == 0real && e >= 1),
    decreases e,
{
    if e > 0 {
        lemma_real_power_zero(x, (e - 1) as nat);
        let rest = real_power(x, (e - 1) as nat);
        assert((x * rest == 0real) <==> (x == 0real || rest == 0real)) by (nonlinear_arith);
    }
}

/// The normal form of the number `q`.
pub open spec fn normal_form(q: real) -> NumericForm {
    choose|f: NumericForm| f.is_normal() && f.value() == q
}

/// A normal form is well formed, and it is a plainly written whole number or
/// a fraction of two such numbers, with the value that this says.
pub proof fn lemma_normal_shape(a: NumericForm)
    requires
        a.is_normal(),
    ensures
        a.wf(),
        a.fraction is None ==> a == whole_form(a.sign, a.magnitude) && a.value() == quotient(
            signed(!a.sign, a.magnitude),
            1,
        ),
        a.fraction matches Some(pair) ==> a == fraction_form(
            a.sign,
            pair.0.magnitude,
            pair.1.magnitude,
        ) && a.value() == quotient(signed(!a.sign, pair.0.magnitude), pair.1.magnitude as int),
{
    match a.fraction {
        None => {
            lemma_whole_form(a.sign, a.magnitude);
        },
        Some(pair) => {
            assert(pair.0 == whole_form(true, pair.0.magnitude));
            assert(pair.1 == whole_form(true, pair.1.magnitude));
            assert(*pair == (pair.0, pair.1));
            lemma_fraction_form(a.sign, pair.0.magnitude, pair.1.magnitude);
        },
    }
}

/// Two normal forms of one number are the same form.
pub proof fn lemma_normal_unique(a: NumericForm, b: NumericForm)
    requires
        a.is_normal(),
        b.is_normal(),
        a.value() == b.value(),
    ensures
        a == b,
{
    lemma_normal_shape(a);
    lemma_normal_shape(b);
    let (an, ad): (nat, nat) = match a.fraction {
        None => (a.magnitude, 1),
        Some(pair) => (pair.0.magnitude, pair.1.magnitude),
    };
    let (bn, bd): (nat, nat) = match b.fraction {
        None => (b.magnitude, 1),
        Some(pair) => (pair.0.magnitude, pair.1.magnitude),
    };
    let sa = signed(!a.sign, an);
    let sb = signed(!b.sign, bn);
    lemma_quotient_order(sa, ad as int, sb, bd as int);
    assert(sa * bd == sb * ad);
    assert(an * bd == bn * ad && (an > 0 ==> a.sign == b.sign)) by (nonlinear_arith)
        requires
            sa * bd == sb * ad,
            sa == signed(!a.sign, an),
            sb == signed(!b.sign, bn),
            ad >= 1,
            bd >= 1,
    ;
    assert(gcd(an, ad) == 1 && gcd(bn, bd) == 1) by {
        assert(forall|m: nat| gcd(m, 1) == gcd(1, m % 1) && gcd(1, 0) == 1);
    }
    lemma_lowest_terms_unique(an, ad, bn, bd);
}

/// A well-formed form denotes a fraction of two integers: the result holds
/// a numerator and a positive denominator.
pub proof fn lemma_rational_value(v: NumericForm) -> (nd: (int, int))
    requires
        v.wf(),
    ensures
        nd.1 > 0,
        v.value() == quotient(nd.0, nd.1),
    decreases v,
{
    match v.fraction {
        Some(pair) => {
            let n = lemma_rational_value(pair.0);
            let d = lemma_rational_value(pair.1);
            lemma_quotient_zero(d.0, d.1);
            lemma_quotient_div(n.0, n.1, d.0, d.1);
            let flip: int = if d.0 < 0 {
                -1
            } else {
                1
            };
            let keep: int = if v.sign {
                1
            } else {
                -1
            };
            lemma_quotient_scale(n.0 * d.1, n.1 * d.0, flip);
            assert(n.1 * d.0 * flip > 0) by (nonlinear_arith)
                requires
                    n.1 > 0,
                    d.0 != 0,
                    flip == (if d.0 < 0 {
                        -1int
                    } else {
                        1int
                    }),
            ;
            lemma_quotient_zero(n.0 * d.1 * flip, n.1 * d.0 * flip);
            assert(n.0 * d.1 * flip * keep == (if v.sign {
                n.0 * d.1 * flip
            } else {
                -(n.0 * d.1 * flip)
            })) by (nonlinear_arith)
                requires
                    keep == (if v.sign {
                        1int
                    } else {
                        -1int
                    }),
            ;
            (n.0 * d.1 * flip * keep, n.1 * d.0 * flip)
        },
        None => {
            let e: int = match v.exponent {
                Some(e) => e,
                None => 0,
            };
            let s = power(v.base, (if e >= 0 {
                e
            } else {
                -e
            }) as nat);
            lemma_direct_value(v.sign, v.magnitude, v.base, v.period, e, s);
            let unit: int = match v.period {
                Some(p) => power(v.base, p) - 1,
                None => 1,
            };
            let top: int = match v.period {
                Some(p) => v.magnitude * (power(v.base, p) - 1) + v.magnitude % power(v.base, p),
                None => v.magnitude as int,
            };
            if e >= 0 {
                (signed(!v.sign, (top * s) as nat), unit)
            } else {
                (signed(!v.sign, top as nat), unit * s)
            }
        },
    }
}

/// Every fraction of integers has a normal form.
pub proof fn lemma_normal_exists(n: int, d: int) -> (f: NumericForm)
    requires
        d > 0,
    ensures
        f.is_normal(),
        f.value() == quotient(n, d),
{
    let m = magnitude(n);
    let g = gcd(m, d as nat);
    lemma_gcd_positive(m, d as nat);
    let k = lemma_gcd_divides(m, d as nat);
    lemma_reduced_is_coprime(m, d as nat, k.0, k.1);
    assert(k.1 >= 1) by (nonlinear_arith)
        requires
            d == k.1 * g,
            d > 0,
    ;
    let sign = n >= 0;
    lemma_quotient_scale(signed(!sign, k.0), k.1 as int, g as int);
    assert(signed(!sign, k.0) * g == n) by (nonlinear_arith)
        requires
            m == k.0 * g,
            m == magnitude(n),
            sign == (n >= 0),
    ;
    if k.1 == 1 {
        lemma_whole_form(sign, k.0);
        whole_form(sign, k.0)
    } else {
        if k.0 == 0 {
            assert(gcd(0, k.1) == gcd(k.1, 0nat % k.1));
            assert(gcd(k.1, 0) == k.1);
        }
        lemma_fraction_form(sign, k.0, k.1);
        fraction_form(sign, k.0, k.1)
    }
}

/// A normal form is the normal form of the number that it denotes.
pub proof fn lemma_normal_form_of(f: NumericForm)
    requires
        f.is_normal(),
    ensures
        normal_form(f.value()) == f,
{
    lemma_normal_unique(normal_form(f.value()), f);
}

/// Normalizing is idempotent: the normal form of a value is its own normal
/// form.
pub proof fn law_normalize_idempotent(v: NumericForm)
    requires
        v.wf(),
    ensures
        normal_form(v.value()).is_normal(),
        normal_form(v.value()).value() == v.value(),
        normal_form(normal_form(v.value()).value()) == normal_form(v.value()),
{
    let nd = lemma_rational_value(v);
    let f = lemma_normal_exists(nd.0, nd.1);
    lemma_normal_form_of(f);
}

/// Two well-formed values denote the same number exactly when they have the
/// same normal form.
pub proof fn law_equal_iff_same_normal_form(a: NumericForm, b: NumericForm)
    requires
        a.wf(),
        b.wf(),
    ensures
        (a.value() == b.value()) <==> (normal_form(a.value()) == normal_form(b.value())),
{
    law_normalize_idempotent(a);
    law_normalize_idempotent(b);
}

/// The integer `z` as a real.
pub open spec fn real_of(z: int) -> real {
    z as real
}

/// Whether the real is a whole number.
pub open spec fn is_whole(x: real) -> bool {
    exists|z: int| #[trigger] real_of(z) == x
}

/// The whole number that the real `x` is, where it is one.
pub open spec fn whole_part(x: real) -> int {
    choose|z: int| #[trigger] real_of(z) == x
}

/// A normal form denotes a whole number exactly when it is no fraction.
pub proof fn lemma_normal_whole(f: NumericForm)
    requires
        f.is_normal(),
    ensures
        is_whole(f.value()) <==> f.fraction is None,
        f.fraction is None ==> f.value() == signed(!f.sign, f.magnitude) as real && whole_part(
            f.value(),
        ) == signed(!f.sign, f.magnitude),
{
    lemma_normal_shape(f);
    match f.fraction {
        None => {
            let s = signed(!f.sign, f.magnitude);
            assert((s as real) / (1int as real) == s as real) by (nonlinear_arith);
            assert(real_of(s) == f.value());
        },
        Some(pair) => {
            let n = pair.0.magnitude;
            let d = pair.1.magnitude;
            let s = signed(!f.sign, n);
            if is_whole(f.value()) {
                let z = whole_part(f.value());
                assert((z as real) / (1int as real) == z as real) by (nonlinear_arith);
                lemma_quotient_order(z, 1, s, d as int);
                assert(z * d == s * 1);
                let m = magnitude(z);
                assert(m * d == n * 1) by (nonlinear_arith)
                    requires
                        z * d == s * 1,
                        s == signed(!f.sign, n),
                        m == magnitude(z),
                        d >= 2,
                ;
                assert(gcd(m, 1) == gcd(1, m % 1) && gcd(1, 0) == 1);
                lemma_lowest_terms_unique(m, 1, n, d);
            }
        },
    }
}

/// An exact number, in any of the forms in which it can be written.
#[derive(Debug)]
pub struct NumericValue {
    sign: bool,
    magnitude: Natural,
    base: u32,
    period: Option<u32>,
    exponent: Option<i64>,
    fraction: Option<Box<(NumericValue, NumericValue)>>,
}

impl View for NumericValue {
    type V = NumericForm;

    closed spec fn view(&self) -> NumericForm {
        self.form()
    }
}

impl NumericValue {
    spec fn form(&self) -> NumericForm
        decreases self,
    {
        NumericForm {
            sign: self.sign,
            magnitude: self.magnitude@,
            base: self.base as nat,
            period: match self.period {
                Some(p) => Some(p as nat),
                None => None,
            },
            exponent: match self.exponent {
                Some(e) => Some(e as int),
                None => None,
            },
            fraction: match self.fraction {
                Some(pair) => Some(Box::new((pair.0.form(), pair.1.form()))),
                None => None,
            },
        }
    }

    #[verifier::type_invariant]
    spec fn valid(&self) -> bool {
        self.form().wf()
    }

    /// The whole number with magnitude `magnitude`, negated where `sign` is
    /// not set.
    pub fn integer(sign: bool, magnitude: Natural) -> (r: NumericValue)
        ensures
            r@ == whole_form(sign, magnitude@),
    {
        NumericValue { sign, magnitude, base: 10, period: None, exponent: None, fraction: None }
    }

    /// A directly written value; nothing where the base is below two or the
    /// period is zero digits long.
    pub fn literal(
        sign: bool,
        magnitude: Natural,
        base: u32,
        period: Option<u32>,
        exponent: Option<i64>,
    ) -> (r: Option<NumericValue>)
        ensures
            r is Some <==> base >= 2 && period != Some(0u32),
            r matches Some(v) ==> v@ == (NumericForm {
                sign,
                magnitude: magnitude@,
                base: base as nat,
                period: match period {
                    Some(p) => Some(p as nat),
                    None => None,
                },
                exponent: match exponent {
                    Some(e) => Some(e as int),
                    None => None,
                },
                fraction: None,
            }),
    {
        let period_ok = match period {
            Some(p) => p != 0,
            None => true,
        };
        if base >= 2 && period_ok {
            Some(NumericValue { sign, magnitude, base, period, exponent, fraction: None })
        } else {
            None
        }
    }

    /// The fraction of two values, negated where `sign` is not set; fails
    /// where the denominator denotes zero.
    pub fn ratio(sign: bool, numerator: NumericValue, denominator: NumericValue) -> (r: Result<
        NumericValue,
        ArithmeticError,
    >)
        ensures
            r is Err <==> denominator@.value() == 0real,
            r matches Ok(v) ==> v@ == (NumericForm {
                sign,
                magnitude: 0,
                base: 10,
                period: None,
                exponent: None,
                fraction: Some(Box::new((numerator@, denominator@))),
            }),
    {
        proof {
            use_type_invariant(&numerator);
            use_type_invariant(&denominator);
        }
        if denominator.to_rational().is_zero() {
            Err(ArithmeticError::DivisionByZero)
        } else {
            Ok(
                NumericValue {
                    sign,
                    magnitude: Natural::zero(),
                    base: 10,
                    period: None,
                    exponent: None,
                    fraction: Some(Box::new((numerator, denominator))),
                },
            )
        }
    }

    /// Whether the value is not negated.
    pub fn sign(&self) -> (r: bool)
        ensures
            r == self@.sign,
    {
        self.sign
    }

    /// The number that the written digits denote.
    pub fn magnitude(&self) -> (r: Natural)
        ensures
            r@ == self@.magnitude,
    {
        self.magnitude.duplicate()
    }

    /// The base in which exponent and period count digits.
    pub fn base(&self) -> (r: u32)
        ensures
            r == self@.base,
    {
        self.base
    }

    /// How many of the lowest digits repeat without end.
    pub fn period(&self) -> (r: Option<u32>)
        ensures
            r is Some == self@.period is Some,
            r matches Some(p) ==> self@.period == Some(p as nat),
    {
        self.period
    }

    /// The power of the base by which the magnitude is scaled.
    pub fn exponent(&self) -> (r: Option<i64>)
        ensures
            r is Some == self@.exponent is Some,
            r matches Some(e) ==> self@.exponent == Some(e as int),
    {
        self.exponent
    }

    /// Numerator and denominator, where the value is written as a fraction.
    pub fn fraction(&self) -> (r: Option<(NumericValue, NumericValue)>)
        ensures
            r is Some == self@.fraction is Some,
            r matches Some(pair) ==> self@.fraction == Some(Box::new((pair.0@, pair.1@))),
    {
        match &self.fraction {
            Some(pair) => Some((pair.0.duplicate(), pair.1.duplicate())),
            None => None,
        }
    }

    /// The value as it is written, with the opposite sign.
    pub fn opposite(&self) -> (r: NumericValue)
        ensures
            r@ == opposite_form(self@),
    {
        proof {
            use_type_invariant(self);
        }
        let copy = self.duplicate();
        NumericValue {
            sign: !copy.sign,
            magnitude: copy.magnitude,
            base: copy.base,
            period: copy.period,
            exponent: copy.exponent,
            fraction: copy.fraction,
        }
    }

    /// A copy of the value, in the form in which it is written.
    pub fn duplicate(&self) -> (r: NumericValue)
        ensures
            r@ == self@,
        decreases self,
    {
        proof {
            use_type_invariant(self);
        }
        let fraction = match &self.fraction {
            Some(pair) => Some(Box::new((pair.0.duplicate(), pair.1.duplicate()))),
            None => None,
        };
        NumericValue {
            sign: self.sign,
            magnitude: self.magnitude.duplicate(),
            base: self.base,
            period: self.period,
            exponent: self.exponent,
            fraction,
        }
    }

    /// The value as one fraction.
    pub fn to_rational(&self) -> (r: Rational)
        ensures
            self@.wf(),
            r.value() == self@.value(),
        decreases self,
    {
        proof {
            use_type_invariant(self);
        }
        match &self.fraction {
            Some(pair) => {
                let n = pair.0.to_rational();
                let d = pair.1.to_rational();
                let q = n.divide(&d).unwrap();
                if self.sign {
                    q
                } else {
                    q.negate()
                }
            },
            None => {
                let base = Natural::from_u64(self.base as u64);
                let (top, unit) = match self.period {
                    Some(p) => {
                        let pw = base.pow(p as u64);
                        proof {
                            lemma_power_positive(self.base as nat, p as nat);
                        }
                        let unit = pw.checked_sub(&Natural::one()).unwrap();
                        let rem = self.magnitude.div_rem(&pw).unwrap().1;
                        (self.magnitude.mul(&unit).add(&rem), unit)
                    },
                    None => (self.magnitude.duplicate(), Natural::one()),
                };
                let e: i64 = match self.exponent {
                    Some(e) => e,
                    None => 0,
                };
                if e >= 0 {
                    let s = base.pow(e as u64);
                    proof {
                        lemma_direct_value(
                            self.sign,
                            self.magnitude@,
                            self.base as nat,
                            self@.period,
                            e as int,
                            s@,
                        );
                    }
                    Rational::new(!self.sign, top.mul(&s), unit).unwrap()
                } else {
                    let s = base.pow((-(e + 1)) as u64 + 1);
                    proof {
                        lemma_direct_value(
                            self.sign,
                            self.magnitude@,
                            self.base as nat,
                            self@.period,
                            e as int,
                            s@,
                        );
                    }
                    Rational::new(!self.sign, top, unit.mul(&s)).unwrap()
                }
            },
        }
    }

    /// The normal form of the number that `q` denotes.
    pub fn from_rational(q: &Rational) -> (r: NumericValue)
        ensures
            r@.is_normal(),
            r@.value() == q.value(),
            r@ == normal_form(q.value()),
    {
        let reduced = q.reduce();
        let (negative, num, den) = reduced.into_parts();
        proof {
            assert(signed(negative, num@) == reduced.numerator());
            if num@ == 0 {
                assert(gcd(0, den@) == gcd(den@, 0nat % den@));
                assert(gcd(den@, 0) == den@);
            }
        }
        if den.equals(&Natural::one()) {
            let sign = !negative;
            proof {
                lemma_whole_form(sign, num@);
            }
            let r = NumericValue::integer(sign, num);
            proof {
                lemma_normal_form_of(r@);
            }
            r
        } else {
            proof {
                lemma_whole_form(true, num@);
                lemma_whole_form(true, den@);
                lemma_fraction_form(!negative, num@, den@);
            }
            let n = NumericValue::integer(true, num);
            let d = NumericValue::integer(true, den);
            let r = NumericValue {
                sign: !negative,
                magnitude: Natural::zero(),
                base: 10,
                period: None,
                exponent: None,
                fraction: Some(Box::new((n, d))),
            };
            proof {
                lemma_normal_form_of(r@);
            }
            r
        }
    }

    /// The normal form of the value.
    pub fn normalize(&self) -> (r: NumericValue)
        ensures
            r@.is_normal(),
            r@.value() == self@.value(),
            r@ == normal_form(self@.value()),
    {
        NumericValue::from_rational(&self.to_rational())
    }

    /// The value as a whole number, where it is one: whether it is at least
    /// zero, and its magnitude.
    pub fn to_integer(&self) -> (r: Option<(bool, Natural)>)
        ensures
            r is Some <==> is_whole(self@.value()),
            r matches Some(p) ==> whole_part(self@.value()) == signed(!p.0, p.1@) && (p.1@ == 0
                ==> p.0),
    {
        let normal = self.normalize();
        proof {
            lemma_normal_whole(normal@);
        }
        match normal.fraction {
            Some(_) => None,
            None => Some((normal.sign, normal.magnitude)),
        }
    }

    /// Whether the value denotes zero.
    pub fn is_zero(&self) -> (r: bool)
        ensures
            r == (self@.value() == 0real),
    {
        self.to_rational().is_zero()
    }

    /// Whether the value denotes a number below zero.
    pub fn is_negative(&self) -> (r: bool)
        ensures
            r == (self@.value() < 0real),
    {
        self.to_rational().is_negative()
    }

    /// The sum of the two values, in normal form.
    pub fn add(&self, other: &NumericValue) -> (r: NumericValue)
        ensures
            r@.is_normal(),
            r@.value() == self@.value() + other@.value(),
    {
        NumericValue::from_rational(&self.to_rational().add(&other.to_rational()))
    }

    /// The difference of the two values, in normal form.
    pub fn subtract(&self, other: &NumericValue) -> (r: NumericValue)
        ensures
            r@.is_normal(),
            r@.value() == self@.value() - other@.value(),
    {
        NumericValue::from_rational(&self.to_rational().subtract(&other.to_rational()))
    }

    /// The product of the two values, in normal form.
    pub fn multiply(&self, other: &NumericValue) -> (r: NumericValue)
        ensures
            r@.is_normal(),
            r@.value() == self@.value() * other@.value(),
    {
        NumericValue::from_rational(&self.to_rational().multiply(&other.to_rational()))
    }

    /// The quotient of the two values, in normal form; fails where `other`
    /// denotes zero.
    pub fn divide(&self, other: &NumericValue) -> (r: Result<NumericValue, ArithmeticError>)
        ensures
            r is Err <==> other@.value() == 0real,
            r matches Ok(v) ==> v@.is_normal() && v@.value() == self@.value() / other@.value(),
    {
        match self.to_rational().divide(&other.to_rational()) {
            Some(q) => Ok(NumericValue::from_rational(&q)),
            None => Err(ArithmeticError::DivisionByZero),
        }
    }

    /// The value raised to a whole power, in normal form; fails for a
    /// negative power of zero.
    pub fn power(&self, exponent: i64) -> (r: Result<NumericValue, ArithmeticError>)
        ensures
            r is Err <==> exponent < 0 && self@.value() == 0real,
            r matches Ok(v) ==> v@.is_normal() && v@.value() == real_int_power(
                self@.value(),
                exponent as int,
            ),
    {
        let q = self.to_rational();
        if exponent >= 0 {
            Ok(NumericValue::from_rational(&q.power(exponent as u64)))
        } else {
            let n: u64 = (-(exponent + 1)) as u64 + 1;
            proof {
                lemma_real_power_zero(q.value(), n as nat);
                assert((1int as real) / (1int as real) == 1real) by (nonlinear_arith);
            }
            let one = Rational::from_natural(false, Natural::one());
            match one.divide(&q.power(n)) {
                Some(inverse) => Ok(NumericValue::from_rational(&inverse)),
                None => Err(ArithmeticError::DivisionByZero),
            }
        }
    }

    /// The value with the opposite sign, in normal form.
    pub fn negate(&self) -> (r: NumericValue)
        ensures
            r@.is_normal(),
            r@.value() == -self@.value(),
    {
        NumericValue::from_rational(&self.to_rational().negate())
    }

    /// Whether the two values denote the same number.
    pub fn equals(&self, other: &NumericValue) -> (r: bool)
        ensures
            r == (self@.value() == other@.value()),
    {
        self.to_rational().equals(&other.to_rational())
    }

    /// How the number that the value denotes stands to that of `other`.
    pub fn compare(&self, other: &NumericValue) -> (ord: Order)
        ensures
            ord == real_order(self@.value(), other@.value()),
    {
        self.to_rational().compare(&other.to_rational())
    }
}

} // verus!
