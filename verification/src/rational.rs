//! Exact fractions of arbitrary-precision integers.

use crate::natural::{
    gcd, lemma_gcd_divides, lemma_gcd_positive, lemma_reduced_is_coprime, order_of, Natural, Order,
};
use vstd::arithmetic::div_mod::lemma_fundamental_div_mod_converse;
use vstd::prelude::*;

verus! {

/// The real number `n / d`.
pub open spec fn quotient(n: int, d: int) -> real {
    (n as real) / (d as real)
}

/// The integer with magnitude `n`, negative where `negative` is set.
pub open spec fn signed(negative: bool, n: nat) -> int {
    if negative {
        -(n as int)
    } else {
        n as int
    }
}

/// How the real `a` stands to the real `b`.
pub open spec fn real_order(a: real, b: real) -> Order {
    if a < b {
        Order::Less
    } else if a == b {
        Order::Equal
    } else {
        Order::Greater
    }
}

/// `x` multiplied by itself `e` times.
pub open spec fn real_power(x: real, e: nat) -> real
    decreases e,
{
    if e == 0 {
        1real
    } else {
        x * real_power(x, (e - 1) as nat)
    }
}

/// The sum of two fractions.
pub proof fn lemma_quotient_add(a: int, b: int, c: int, d: int)
    requires
        b != 0,
        d != 0,
    ensures
        quotient(a, b) + quotient(c, d) == quotient(a * d + c * b, b * d),
        b * d != 0,
{
    assert((a as real) / (b as real) + (c as real) / (d as real) == ((a * d + c * b) as real) / ((b
        * d) as real) && b * d != 0) by (nonlinear_arith)
        requires
            b != 0,
            d != 0,
    ;
}

/// The product of two fractions.
pub proof fn lemma_quotient_mul(a: int, b: int, c: int, d: int)
    requires
        b != 0,
        d != 0,
    ensures
        quotient(a, b) * quotient(c, d) == quotient(a * c, b * d),
        b * d != 0,
{
    assert(((a as real) / (b as real)) * ((c as real) / (d as real)) == ((a * c) as real) / ((b
        * d) as real) && b * d != 0) by (nonlinear_arith)
        requires
            b != 0,
            d != 0,
    ;
}

/// The quotient of two fractions.
pub proof fn lemma_quotient_div(a: int, b: int, c: int, d: int)
    requires
        b != 0,
        c != 0,
        d != 0,
    ensures
        quotient(a, b) / quotient(c, d) == quotient(a * d, b * c),
        b * c != 0,
        quotient(c, d) != 0real,
{
    assert(((a as real) / (b as real)) / ((c as real) / (d as real)) == ((a * d) as real) / ((b
        * c) as real) && b * c != 0 && (c as real) / (d as real) != 0real) by (nonlinear_arith)
        requires
            b != 0,
            c != 0,
            d != 0,
    ;
}

/// Two fractions with positive denominators stand as their cross products
/// do.
pub proof fn lemma_quotient_order(a: int, b: int, c: int, d: int)
    requires
        b > 0,
        d > 0,
    ensures
        real_order(quotient(a, b), quotient(c, d)) == order_of(a * d, c * b),
{
    assert(((a as real) / (b as real) < (c as real) / (d as real)) <==> (a * d < c * b))
        by (nonlinear_arith)
        requires
            b > 0,
            d > 0,
    ;
    assert(((a as real) / (b as real) == (c as real) / (d as real)) <==> (a * d == c * b))
        by (nonlinear_arith)
        requires
            b > 0,
            d > 0,
    ;
}

/// A fraction keeps its value where numerator and denominator are multiplied
/// by the same number other than zero.
pub proof fn lemma_quotient_scale(a: int, b: int, k: int)
    requires
        b != 0,
        k != 0,
    ensures
        quotient(a * k, b * k) == quotient(a, b),
        b * k != 0,
{
    assert(((a * k) as real) / ((b * k) as real) == (a as real) / (b as real) && b * k != 0)
        by (nonlinear_arith)
        requires
            b != 0,
            k != 0,
    ;
}

/// A fraction is zero where its numerator is, negative where numerator and
/// denominator differ in sign, and negated with its numerator.
pub proof fn lemma_quotient_zero(a: int, b: int)
    requires
        b != 0,
    ensures
        (quotient(a, b) == 0real) <==> a == 0,
        (quotient(a, b) < 0real) <==> (a < 0 && b > 0) || (a > 0 && b < 0),
        quotient(-a, b) == -quotient(a, b),
{
    assert((((a as real) / (b as real)) == 0real) <==> a == 0) by (nonlinear_arith)
        requires
            b != 0,
    ;
    assert((((a as real) / (b as real)) < 0real) <==> ((a < 0 && b > 0) || (a > 0 && b < 0)))
        by (nonlinear_arith)
        requires
            b != 0,
    ;
    assert(((-a) as real) / (b as real) == -((a as real) / (b as real))) by (nonlinear_arith)
        requires
            b != 0,
    ;
}


/// The magnitude of an integer.
pub open spec fn magnitude(i: int) -> nat {
    if i < 0 {
        (-i) as nat
    } else {
        i as nat
    }
}

proof fn lemma_signed_mul(an: bool, x: nat, bn: bool, y: nat)
    ensures
        signed(an != bn, x * y) == signed(an, x) * signed(bn, y),
        signed(an, x * y) == signed(an, x) * y,
{
    assert(signed(an != bn, x * y) == signed(an, x) * signed(bn, y) && signed(an, x * y) == signed(
        an,
        x,
    ) * y) by (nonlinear_arith);
}

/// Sum of two signed magnitudes.
fn signed_sum(an: bool, x: &Natural, bn: bool, y: &Natural) -> (r: (bool, Natural))
    ensures
        signed(r.0, r.1@) == signed(an, x@) + signed(bn, y@),
{
    if an == bn {
        (an, x.add(y))
    } else {
        match x.checked_sub(y) {
            Some(d) => (an, d),
            None => (bn, y.checked_sub(x).unwrap()),
        }
    }
}

/// Order of two signed magnitudes.
fn signed_order(an: bool, x: &Natural, bn: bool, y: &Natural) -> (ord: Order)
    ensures
        ord == order_of(signed(an, x@), signed(bn, y@)),
{
    if an == bn {
        if an {
            y.compare(x)
        } else {
            x.compare(y)
        }
    } else if x.is_zero() && y.is_zero() {
        Order::Equal
    } else if an {
        Order::Less
    } else {
        Order::Greater
    }
}

/// An exact fraction: a signed numerator over a positive denominator.
#[derive(Debug)]
pub struct Rational {
    negative: bool,
    num: Natural,
    den: Natural,
}

impl Rational {
    #[verifier::type_invariant]
    spec fn positive_denominator(&self) -> bool {
        self.den@ > 0
    }

    /// The signed numerator.
    pub closed spec fn numerator(&self) -> int {
        signed(self.negative, self.num@)
    }

    /// The denominator.
    pub closed spec fn denominator(&self) -> int {
        self.den@ as int
    }

    /// The real number that the fraction denotes.
    pub open spec fn value(&self) -> real {
        quotient(self.numerator(), self.denominator())
    }

    /// Numerator and denominator have no common divisor.
    pub open spec fn lowest_terms(&self) -> bool {
        gcd(magnitude(self.numerator()), self.denominator() as nat) == 1
    }

    /// The fraction of a signed numerator over a denominator; nothing where the
    /// denominator is zero.
    pub fn new(negative: bool, num: Natural, den: Natural) -> (r: Option<Rational>)
        ensures
            r is Some <==> den@ != 0,
            r matches Some(q) ==> q.numerator() == signed(negative, num@) && q.denominator()
                == den@,
    {
        if den.is_zero() {
            None
        } else {
            Some(Rational { negative, num, den })
        }
    }

    /// The whole number with magnitude `n`.
    pub fn from_natural(negative: bool, n: Natural) -> (r: Rational)
        ensures
            r.numerator() == signed(negative, n@),
            r.denominator() == 1,
    {
        Rational { negative, num: n, den: Natural::one() }
    }

    /// Whether the fraction is below zero, the magnitude of the numerator, and
    /// the denominator.
    pub fn into_parts(self) -> (p: (bool, Natural, Natural))
        ensures
            p.0 == (self.numerator() < 0),
            p.1@ == magnitude(self.numerator()),
            p.2@ == self.denominator(),
            p.2@ > 0,
    {
        proof {
            use_type_invariant(&self);
        }
        let negative = self.negative && !self.num.is_zero();
        (negative, self.num, self.den)
    }

    /// A copy of the fraction.
    pub fn duplicate(&self) -> (r: Rational)
        ensures
            r.numerator() == self.numerator(),
            r.denominator() == self.denominator(),
    {
        proof {
            use_type_invariant(self);
        }
        Rational { negative: self.negative, num: self.num.duplicate(), den: self.den.duplicate() }
    }

    /// Whether the fraction is zero.
    pub fn is_zero(&self) -> (r: bool)
        ensures
            r == (self.value() == 0real),
            r == (self.numerator() == 0),
    {
        proof {
            use_type_invariant(self);
            lemma_quotient_zero(self.numerator(), self.denominator());
        }
        self.num.is_zero()
    }

    /// Whether the fraction is below zero.
    pub fn is_negative(&self) -> (r: bool)
        ensures
            r == (self.value() < 0real),
            r == (self.numerator() < 0),
    {
        proof {
            use_type_invariant(self);
            lemma_quotient_zero(self.numerator(), self.denominator());
        }
        self.negative && !self.num.is_zero()
    }

    /// Whether the fraction is a whole number.
    pub fn is_whole(&self) -> (r: bool)
        ensures
            r == (self.denominator() == 1),
    {
        self.den.equals(&Natural::one())
    }

    /// The fraction with the opposite sign.
    pub fn negate(&self) -> (r: Rational)
        ensures
            r.value() == -self.value(),
            r.numerator() == -self.numerator(),
            r.denominator() == self.denominator(),
    {
        proof {
            use_type_invariant(self);
            lemma_quotient_zero(self.numerator(), self.denominator());
        }
        Rational { negative: !self.negative, num: self.num.duplicate(), den: self.den.duplicate() }
    }

    /// The sum of the two fractions.
    pub fn add(&self, other: &Rational) -> (r: Rational)
        ensures
            r.value() == self.value() + other.value(),
    {
        proof {
            use_type_invariant(self);
            use_type_invariant(other);
        }
        let x = self.num.mul(&other.den);
        let y = other.num.mul(&self.den);
        let den = self.den.mul(&other.den);
        let (negative, num) = signed_sum(self.negative, &x, other.negative, &y);
        proof {
            lemma_quotient_add(
                self.numerator(),
                self.denominator(),
                other.numerator(),
                other.denominator(),
            );
            lemma_signed_mul(self.negative, self.num@, false, other.den@);
            lemma_signed_mul(other.negative, other.num@, false, self.den@);
        }
        Rational { negative, num, den }
    }

    /// The difference of the two fractions.
    pub fn subtract(&self, other: &Rational) -> (r: Rational)
        ensures
            r.value() == self.value() - other.value(),
    {
        self.add(&other.negate())
    }

    /// The product of the two fractions.
    pub fn multiply(&self, other: &Rational) -> (r: Rational)
        ensures
            r.value() == self.value() * other.value(),
    {
        proof {
            use_type_invariant(self);
            use_type_invariant(other);
            lemma_quotient_mul(
                self.numerator(),
                self.denominator(),
                other.numerator(),
                other.denominator(),
            );
            lemma_signed_mul(self.negative, self.num@, other.negative, other.num@);
        }
        Rational {
            negative: self.negative != other.negative,
            num: self.num.mul(&other.num),
            den: self.den.mul(&other.den),
        }
    }

    /// The quotient of the two fractions; nothing where `other` is zero.
    pub fn divide(&self, other: &Rational) -> (r: Option<Rational>)
        ensures
            r is Some <==> other.value() != 0real,
            r matches Some(q) ==> q.value() == self.value() / other.value(),
    {
        proof {
            use_type_invariant(self);
            use_type_invariant(other);
            lemma_quotient_zero(other.numerator(), other.denominator());
        }
        if other.num.is_zero() {
            None
        } else {
            proof {
                let sign: int = if other.negative {
                    -1
                } else {
                    1
                };
                lemma_quotient_div(
                    self.numerator(),
                    self.denominator(),
                    other.numerator(),
                    other.denominator(),
                );
                lemma_quotient_scale(
                    self.numerator() * other.denominator(),
                    self.denominator() * other.numerator(),
                    sign,
                );
                lemma_signed_mul(self.negative, self.num@, other.negative, other.den@);
                assert(self.denominator() * other.numerator() * sign == self.den@ * other.num@)
                    by (nonlinear_arith)
                    requires
                        other.numerator() == signed(other.negative, other.num@),
                        sign == (if other.negative {
                            -1int
                        } else {
                            1int
                        }),
                        self.denominator() == self.den@,
                ;
                assert(self.numerator() * other.denominator() * sign == signed(
                    self.negative != other.negative,
                    self.num@ * other.den@,
                )) by (nonlinear_arith)
                    requires
                        self.numerator() == signed(self.negative, self.num@),
                        sign == (if other.negative {
                            -1int
                        } else {
                            1int
                        }),
                        other.denominator() == other.den@,
                ;
                assert(self.den@ * other.num@ > 0) by (nonlinear_arith)
                    requires
                        self.den@ > 0,
                        other.num@ > 0,
                ;
            }
            Some(
                Rational {
                    negative: self.negative != other.negative,
                    num: self.num.mul(&other.den),
                    den: self.den.mul(&other.num),
                },
            )
        }
    }

    /// The fraction raised to the power `e`.
    pub fn power(&self, e: u64) -> (r: Rational)
        ensures
            r.value() == real_power(self.value(), e as nat),
    {
        let mut acc = Rational::from_natural(false, Natural::one());
        let mut i: u64 = 0;
        assert((1int as real) / (1int as real) == 1real) by (nonlinear_arith);
        while i < e
            invariant
                i <= e,
                acc.value() == real_power(self.value(), i as nat),
            decreases e - i,
        {
            assert(real_power(self.value(), (i + 1) as nat) == self.value() * real_power(
                self.value(),
                i as nat,
            ));
            acc = self.multiply(&acc);
            i = i + 1;
        }
        acc
    }

    /// How the fraction stands to `other`.
    pub fn compare(&self, other: &Rational) -> (ord: Order)
        ensures
            ord == real_order(self.value(), other.value()),
    {
        proof {
            use_type_invariant(self);
            use_type_invariant(other);
            lemma_quotient_order(
                self.numerator(),
                self.denominator(),
                other.numerator(),
                other.denominator(),
            );
            lemma_signed_mul(self.negative, self.num@, false, other.den@);
            lemma_signed_mul(other.negative, other.num@, false, self.den@);
        }
        let x = self.num.mul(&other.den);
        let y = other.num.mul(&self.den);
        signed_order(self.negative, &x, other.negative, &y)
    }

    /// Whether the two fractions denote the same number.
    pub fn equals(&self, other: &Rational) -> (r: bool)
        ensures
            r == (self.value() == other.value()),
    {
        self.compare(other) == Order::Equal
    }

    /// The same number in lowest terms.
    pub fn reduce(&self) -> (r: Rational)
        ensures
            r.value() == self.value(),
            r.lowest_terms(),
    {
        proof {
            use_type_invariant(self);
        }
        let g = self.num.gcd(&self.den);
        proof {
            lemma_gcd_positive(self.num@, self.den@);
        }
        let ghost k = lemma_gcd_divides(self.num@, self.den@);
        let num = self.num.div_rem(&g).unwrap().0;
        let den = self.den.div_rem(&g).unwrap().0;
        proof {
            assert(self.num@ == k.0 * g@ + 0 && self.den@ == k.1 * g@ + 0);
            lemma_fundamental_div_mod_converse(self.num@ as int, g@ as int, k.0 as int, 0);
            lemma_fundamental_div_mod_converse(self.den@ as int, g@ as int, k.1 as int, 0);
            lemma_reduced_is_coprime(self.num@, self.den@, k.0, k.1);
            assert(k.1 > 0) by (nonlinear_arith)
                requires
                    self.den@ == k.1 * g@,
                    self.den@ > 0,
            ;
            lemma_quotient_scale(signed(self.negative, k.0), k.1 as int, g@ as int);
            lemma_signed_mul(self.negative, k.0, false, g@);
        }
        Rational { negative: self.negative, num, den }
    }
}

} // verus!
