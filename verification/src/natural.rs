//! Arbitrary-precision natural numbers, kept as decimal digits.

use vstd::arithmetic::div_mod::{lemma_fundamental_div_mod, lemma_fundamental_div_mod_converse};
use vstd::prelude::*;

verus! {

/// Outcome of comparing two numbers.
#[derive(Clone, Copy, Debug, PartialEq, Eq, Structural)]
pub enum Order {
    Less,
    Equal,
    Greater,
}

/// How `a` stands to `b`.
pub open spec fn order_of(a: int, b: int) -> Order {
    if a < b {
        Order::Less
    } else if a == b {
        Order::Equal
    } else {
        Order::Greater
    }
}

/// The number written by the digits of `s` from index `i` upwards, least
/// significant digit first.
pub open spec fn digits_value(s: Seq<u8>, i: int) -> nat
    decreases s.len() - i,
{
    if i < 0 || i >= s.len() {
        0
    } else {
        s[i] as nat + 10 * digits_value(s, i + 1)
    }
}

/// Every element is a decimal digit.
pub open spec fn all_decimal(s: Seq<u8>) -> bool {
    forall|i: int| 0 <= i < s.len() ==> s[i] < 10
}

/// The digit at index `i`, zero past the end.
pub open spec fn digit_at(s: Seq<u8>, i: int) -> nat {
    if 0 <= i < s.len() {
        s[i] as nat
    } else {
        0
    }
}

/// Greatest common divisor, by Euclid's recursion.
pub open spec fn gcd(a: nat, b: nat) -> nat
    decreases b,
{
    if b == 0 {
        a
    } else {
        gcd(b, a % b)
    }
}

/// `b` multiplied by itself `e` times.
pub open spec fn power(b: nat, e: nat) -> nat
    decreases e,
{
    if e == 0 {
        1
    } else {
        b * power(b, (e - 1) as nat)
    }
}

/// The square of `s`.
pub open spec fn square(s: nat) -> nat {
    s * s
}

/// Whether `n` is the square of a natural number.
pub open spec fn is_square(n: nat) -> bool {
    exists|s: nat| #[trigger] square(s) == n
}

/// The natural number whose square `n` is, where there is one.
pub open spec fn square_root(n: nat) -> nat {
    choose|s: nat| #[trigger] square(s) == n
}

/// The number written by the digits of `s` in the base `base`, most
/// significant digit first.
pub open spec fn radix_value(s: Seq<u32>, base: nat) -> nat
    decreases s.len(),
{
    if s.len() == 0 {
        0
    } else {
        radix_value(s.drop_last(), base) * base + s.last() as nat
    }
}

/// Every element is a digit of the base `base`.
pub open spec fn digits_below(s: Seq<u32>, base: nat) -> bool {
    forall|i: int| 0 <= i < s.len() ==> (#[trigger] s[i]) < base
}

spec fn longer(x: Seq<u8>, y: Seq<u8>) -> int {
    if x.len() >= y.len() {
        x.len() as int
    } else {
        y.len() as int
    }
}

/// Digits of `x + y * d + carry`, read from index `i` of both operands.
spec fn fma_digits(x: Seq<u8>, y: Seq<u8>, d: nat, i: int, carry: nat) -> Seq<u8>
    decreases
        (if i < longer(x, y) {
            longer(x, y) - i
        } else {
            0
        }),
{
    if i >= longer(x, y) {
        if carry == 0 {
            Seq::empty()
        } else {
            seq![carry as u8]
        }
    } else {
        let t = digit_at(x, i) + digit_at(y, i) * d + carry;
        seq![(t % 10) as u8] + fma_digits(x, y, d, i + 1, t / 10)
    }
}

/// Digits of `x - y - borrow`, read from index `i` of both operands.
spec fn sub_digits(x: Seq<u8>, y: Seq<u8>, i: int, borrow: nat) -> Seq<u8>
    decreases
        (if i < longer(x, y) {
            longer(x, y) - i
        } else {
            0
        }),
{
    if i >= longer(x, y) {
        Seq::empty()
    } else {
        let t = digit_at(x, i) - digit_at(y, i) - borrow;
        if t < 0 {
            seq![(t + 10) as u8] + sub_digits(x, y, i + 1, 1)
        } else {
            seq![t as u8] + sub_digits(x, y, i + 1, 0)
        }
    }
}

/// The borrow that is left when `sub_digits` has run through both operands.
spec fn sub_borrow(x: Seq<u8>, y: Seq<u8>, i: int, borrow: nat) -> nat
    decreases
        (if i < longer(x, y) {
            longer(x, y) - i
        } else {
            0
        }),
{
    if i >= longer(x, y) {
        borrow
    } else if digit_at(x, i) - digit_at(y, i) - borrow < 0 {
        sub_borrow(x, y, i + 1, 1)
    } else {
        sub_borrow(x, y, i + 1, 0)
    }
}

/// Decimal digits of `n`, least significant first.
spec fn decimal_digits(n: nat) -> Seq<u8>
    decreases n,
{
    if n == 0 {
        Seq::empty()
    } else {
        seq![(n % 10) as u8] + decimal_digits(n / 10)
    }
}

proof fn lemma_value_cons(d: u8, rest: Seq<u8>, i: int)
    requires
        i >= 0,
    ensures
        digits_value(seq![d] + rest, i + 1) == digits_value(rest, i),
    decreases rest.len() - i,
{
    let s = seq![d] + rest;
    if i < rest.len() {
        lemma_value_cons(d, rest, i + 1);
        assert(s[i + 1] == rest[i]);
    }
}

proof fn lemma_value_prepend(d: u8, rest: Seq<u8>)
    ensures
        digits_value(seq![d] + rest, 0) == d as nat + 10 * digits_value(rest, 0),
        all_decimal(rest) && d < 10 ==> all_decimal(seq![d] + rest),
{
    lemma_value_cons(d, rest, 0);
    let s = seq![d] + rest;
    assert(s[0] == d);
    if all_decimal(rest) && d < 10 {
        assert forall|i: int| 0 <= i < s.len() implies s[i] < 10 by {
            if i > 0 {
                assert(s[i] == rest[i - 1]);
            }
        }
    }
}

proof fn lemma_value_suffix_le(s: Seq<u8>, i: int)
    requires
        0 <= i,
    ensures
        digits_value(s, i) <= digits_value(s, 0),
    decreases i,
{
    if i > 0 {
        lemma_value_suffix_le(s, i - 1);
        if i - 1 < s.len() {
            assert(digits_value(s, i - 1) == s[i - 1] as nat + 10 * digits_value(s, i));
        }
    }
}

proof fn lemma_fma_digits(x: Seq<u8>, y: Seq<u8>, d: nat, i: int, carry: nat)
    requires
        all_decimal(x),
        all_decimal(y),
        d < 10,
        carry < 10,
        i >= 0,
    ensures
        all_decimal(fma_digits(x, y, d, i, carry)),
        digits_value(fma_digits(x, y, d, i, carry), 0) == digits_value(x, i) + digits_value(y, i)
            * d + carry,
    decreases
        (if i < longer(x, y) {
            longer(x, y) - i
        } else {
            0
        }),
{
    let r = fma_digits(x, y, d, i, carry);
    let vy = digits_value(y, i + 1);
    if i >= longer(x, y) {
        assert(digits_value(y, i) * d == 0) by (nonlinear_arith)
            requires
                digits_value(y, i) == 0,
        ;
        if carry != 0 {
            assert(r[0] == carry as u8);
            assert(digits_value(r, 1) == 0);
        }
    } else {
        let xi = digit_at(x, i);
        let yi = digit_at(y, i);
        assert(yi * d <= 81) by (nonlinear_arith)
            requires
                yi <= 9,
                d <= 9,
        ;
        let t = xi + yi * d + carry;
        let rest = fma_digits(x, y, d, i + 1, t / 10);
        lemma_fma_digits(x, y, d, i + 1, t / 10);
        lemma_value_prepend((t % 10) as u8, rest);
        assert(digits_value(y, i) * d == yi * d + 10 * (vy * d)) by (nonlinear_arith)
            requires
                digits_value(y, i) == yi + 10 * vy,
        ;
    }
}

proof fn lemma_sub_digits(x: Seq<u8>, y: Seq<u8>, i: int, borrow: nat)
    requires
        all_decimal(x),
        all_decimal(y),
        borrow <= 1,
        i >= 0,
    ensures
        all_decimal(sub_digits(x, y, i, borrow)),
        sub_borrow(x, y, i, borrow) <= 1,
        sub_borrow(x, y, i, borrow) == 0 ==> digits_value(sub_digits(x, y, i, borrow), 0)
            == digits_value(x, i) - digits_value(y, i) - borrow,
        sub_borrow(x, y, i, borrow) == 1 ==> digits_value(x, i) - digits_value(y, i) - borrow < 0,
    decreases
        (if i < longer(x, y) {
            longer(x, y) - i
        } else {
            0
        }),
{
    if i < longer(x, y) {
        let t = digit_at(x, i) - digit_at(y, i) - borrow;
        if t < 0 {
            lemma_sub_digits(x, y, i + 1, 1);
            lemma_value_prepend((t + 10) as u8, sub_digits(x, y, i + 1, 1));
        } else {
            lemma_sub_digits(x, y, i + 1, 0);
            lemma_value_prepend(t as u8, sub_digits(x, y, i + 1, 0));
        }
    }
}

proof fn lemma_decimal_digits(n: nat)
    ensures
        all_decimal(decimal_digits(n)),
        digits_value(decimal_digits(n), 0) == n,
    decreases n,
{
    if n != 0 {
        lemma_decimal_digits(n / 10);
        lemma_value_prepend((n % 10) as u8, decimal_digits(n / 10));
    }
}

/// `x + y * d`, digit by digit.
fn fma(x: &Vec<u8>, y: &Vec<u8>, d: u8) -> (out: Vec<u8>)
    requires
        all_decimal(x@),
        all_decimal(y@),
        d < 10,
    ensures
        all_decimal(out@),
        digits_value(out@, 0) == digits_value(x@, 0) + digits_value(y@, 0) * d,
{
    let n = if x.len() >= y.len() {
        x.len()
    } else {
        y.len()
    };
    let mut out: Vec<u8> = Vec::new();
    let mut carry: u8 = 0;
    let mut i: usize = 0;
    while i < n
        invariant
            i <= n,
            n == longer(x@, y@),
            all_decimal(x@),
            all_decimal(y@),
            d < 10,
            carry < 10,
            out@ + fma_digits(x@, y@, d as nat, i as int, carry as nat) == fma_digits(
                x@,
                y@,
                d as nat,
                0,
                0,
            ),
        decreases n - i,
    {
        let xi: u8 = if i < x.len() {
            x[i]
        } else {
            0
        };
        let yi: u8 = if i < y.len() {
            y[i]
        } else {
            0
        };
        assert(yi * d <= 81) by (nonlinear_arith)
            requires
                yi <= 9,
                d <= 9,
        ;
        let t: u8 = xi + yi * d + carry;
        proof {
            let rest = fma_digits(x@, y@, d as nat, i + 1, (t / 10) as nat);
            assert(fma_digits(x@, y@, d as nat, i as int, carry as nat) == seq![(t % 10) as u8]
                + rest);
            assert(out@.push((t % 10) as u8) + rest =~= out@ + (seq![(t % 10) as u8] + rest));
        }
        out.push(t % 10);
        carry = t / 10;
        i = i + 1;
    }
    proof {
        lemma_fma_digits(x@, y@, d as nat, 0, 0);
        if carry == 0 {
            assert(out@ + Seq::<u8>::empty() =~= out@);
        } else {
            assert(out@ + seq![carry] =~= out@.push(carry));
        }
    }
    if carry != 0 {
        out.push(carry);
    }
    out
}

/// `x - y` where `y` is not the greater, digit by digit.
fn checked_sub_digits(x: &Vec<u8>, y: &Vec<u8>) -> (out: Option<Vec<u8>>)
    requires
        all_decimal(x@),
        all_decimal(y@),
    ensures
        out is Some <==> digits_value(x@, 0) >= digits_value(y@, 0),
        out matches Some(r) ==> all_decimal(r@) && digits_value(r@, 0) == digits_value(x@, 0)
            - digits_value(y@, 0),
{
    let n = if x.len() >= y.len() {
        x.len()
    } else {
        y.len()
    };
    let mut out: Vec<u8> = Vec::new();
    let mut borrow: u8 = 0;
    let mut i: usize = 0;
    while i < n
        invariant
            i <= n,
            n == longer(x@, y@),
            all_decimal(x@),
            all_decimal(y@),
            borrow <= 1,
            out@ + sub_digits(x@, y@, i as int, borrow as nat) == sub_digits(x@, y@, 0, 0),
            sub_borrow(x@, y@, i as int, borrow as nat) == sub_borrow(x@, y@, 0, 0),
        decreases n - i,
    {
        let xi: u8 = if i < x.len() {
            x[i]
        } else {
            0
        };
        let yi: u8 = if i < y.len() {
            y[i]
        } else {
            0
        };
        let (digit, next): (u8, u8) = if xi < yi + borrow {
            (xi + 10 - yi - borrow, 1)
        } else {
            (xi - yi - borrow, 0)
        };
        proof {
            let rest = sub_digits(x@, y@, i + 1, next as nat);
            assert(sub_digits(x@, y@, i as int, borrow as nat) == seq![digit] + rest);
            assert(out@.push(digit) + rest =~= out@ + (seq![digit] + rest));
        }
        out.push(digit);
        borrow = next;
        i = i + 1;
    }
    proof {
        lemma_sub_digits(x@, y@, 0, 0);
        assert(out@ + Seq::<u8>::empty() =~= out@);
    }
    if borrow == 0 {
        Some(out)
    } else {
        None
    }
}

/// Compares two digit strings by the numbers they write.
fn compare_digits(x: &Vec<u8>, y: &Vec<u8>) -> (ord: Order)
    requires
        all_decimal(x@),
        all_decimal(y@),
    ensures
        ord == order_of(digits_value(x@, 0) as int, digits_value(y@, 0) as int),
{
    let mut i: usize = if x.len() >= y.len() {
        x.len()
    } else {
        y.len()
    };
    let mut ord = Order::Equal;
    while i > 0
        invariant
            all_decimal(x@),
            all_decimal(y@),
            ord == order_of(digits_value(x@, i as int) as int, digits_value(y@, i as int) as int),
        decreases i,
    {
        i = i - 1;
        let xi: u8 = if i < x.len() {
            x[i]
        } else {
            0
        };
        let yi: u8 = if i < y.len() {
            y[i]
        } else {
            0
        };
        if ord == Order::Equal {
            if xi < yi {
                ord = Order::Less;
            } else if xi > yi {
                ord = Order::Greater;
            }
        }
    }
    ord
}

/// `x * 10 + d`.
fn shift_in(x: &Vec<u8>, d: u8) -> (out: Vec<u8>)
    requires
        all_decimal(x@),
        d < 10,
    ensures
        all_decimal(out@),
        digits_value(out@, 0) == 10 * digits_value(x@, 0) + d,
{
    let mut out: Vec<u8> = Vec::new();
    out.push(d);
    let mut i: usize = 0;
    while i < x.len()
        invariant
            i <= x.len(),
            out@ == seq![d] + x@.subrange(0, i as int),
        decreases x.len() - i,
    {
        assert(out@.push(x@[i as int]) =~= seq![d] + x@.subrange(0, i + 1));
        out.push(x[i]);
        i = i + 1;
    }
    proof {
        assert(x@.subrange(0, x@.len() as int) =~= x@);
        lemma_value_prepend(d, x@);
    }
    out
}


proof fn lemma_value_drop_zero(s: Seq<u8>, i: int)
    requires
        s.len() > 0,
        s.last() == 0,
        0 <= i,
    ensures
        digits_value(s.drop_last(), i) == digits_value(s, i),
    decreases s.len() - i,
{
    let t = s.drop_last();
    if i < t.len() {
        lemma_value_drop_zero(s, i + 1);
        assert(t[i] == s[i]);
    } else if i < s.len() {
        assert(digits_value(s, i + 1) == 0);
    }
}

/// Quotient and remainder of `a` by a positive `b`, by long division.
fn div_rem_digits(a: &Vec<u8>, b: &Vec<u8>) -> (out: (Vec<u8>, Vec<u8>))
    requires
        all_decimal(a@),
        all_decimal(b@),
        digits_value(b@, 0) > 0,
    ensures
        all_decimal(out.0@),
        all_decimal(out.1@),
        digits_value(out.0@, 0) == digits_value(a@, 0) / digits_value(b@, 0),
        digits_value(out.1@, 0) == digits_value(a@, 0) % digits_value(b@, 0),
{
    let ghost vb = digits_value(b@, 0);
    let mut q: Vec<u8> = Vec::new();
    let mut r: Vec<u8> = Vec::new();
    let mut i: usize = a.len();
    assert(0 * vb == 0) by (nonlinear_arith);
    while i > 0
        invariant
            i <= a.len(),
            all_decimal(a@),
            all_decimal(b@),
            all_decimal(q@),
            all_decimal(r@),
            vb == digits_value(b@, 0),
            vb > 0,
            digits_value(a@, i as int) == digits_value(q@, 0) * vb + digits_value(r@, 0),
            digits_value(r@, 0) < vb,
        decreases i,
    {
        i = i - 1;
        let mut cur = shift_in(&r, a[i]);
        let ghost start = digits_value(cur@, 0);
        let mut qd: u8 = 0;
        let mut done = false;
        while !done
            invariant
                all_decimal(cur@),
                all_decimal(b@),
                vb == digits_value(b@, 0),
                vb > 0,
                start == qd * vb + digits_value(cur@, 0),
                start < 10 * vb,
                qd <= 9,
                done ==> digits_value(cur@, 0) < vb,
            decreases
                (if done {
                    0
                } else {
                    1 + digits_value(cur@, 0)
                }),
        {
            match checked_sub_digits(&cur, b) {
                Some(next) => {
                    assert(qd + 1 <= 9 && (qd + 1) * vb == qd * vb + vb) by (nonlinear_arith)
                        requires
                            start >= qd * vb + vb,
                            start < 10 * vb,
                            vb > 0,
                            qd >= 0,
                    ;
                    cur = next;
                    qd = qd + 1;
                },
                None => {
                    done = true;
                },
            }
        }
        proof {
            let vq = digits_value(q@, 0);
            let vr = digits_value(r@, 0);
            let vc = digits_value(cur@, 0);
            assert(digits_value(a@, i as int) == a@[i as int] + 10 * digits_value(a@, i + 1));
            assert((10 * vq + qd) * vb + vc == a@[i as int] + 10 * (vq * vb + vr))
                by (nonlinear_arith)
                requires
                    10 * vr + a@[i as int] == qd * vb + vc,
            ;
        }
        q = shift_in(&q, qd);
        r = cur;
    }
    proof {
        lemma_fundamental_div_mod_converse(
            digits_value(a@, 0) as int,
            vb as int,
            digits_value(q@, 0) as int,
            digits_value(r@, 0) as int,
        );
    }
    (q, r)
}

/// `a * b`, one digit of `b` at a time from the top.
fn mul_digits(a: &Vec<u8>, b: &Vec<u8>) -> (out: Vec<u8>)
    requires
        all_decimal(a@),
        all_decimal(b@),
    ensures
        all_decimal(out@),
        digits_value(out@, 0) == digits_value(a@, 0) * digits_value(b@, 0),
{
    let ghost va = digits_value(a@, 0);
    let mut acc: Vec<u8> = Vec::new();
    let mut i: usize = b.len();
    assert(va * 0 == 0) by (nonlinear_arith);
    while i > 0
        invariant
            i <= b.len(),
            all_decimal(a@),
            all_decimal(b@),
            all_decimal(acc@),
            va == digits_value(a@, 0),
            digits_value(acc@, 0) == va * digits_value(b@, i as int),
        decreases i,
    {
        i = i - 1;
        proof {
            let hi = digits_value(b@, i + 1);
            assert(10 * (va * hi) + va * b@[i as int] == va * (b@[i as int] + 10 * hi))
                by (nonlinear_arith);
        }
        let shifted = shift_in(&acc, 0);
        acc = fma(&shifted, a, b[i]);
    }
    acc
}

/// An arbitrary-precision natural number.
#[derive(Debug)]
pub struct Natural {
    digits: Vec<u8>,
}

impl View for Natural {
    type V = nat;

    closed spec fn view(&self) -> nat {
        digits_value(self.digits@, 0)
    }
}

impl Natural {
    #[verifier::type_invariant]
    spec fn decimal(&self) -> bool {
        all_decimal(self.digits@)
    }

    /// The number zero.
    pub fn zero() -> (r: Natural)
        ensures
            r@ == 0,
    {
        Natural { digits: Vec::new() }
    }

    /// The number one.
    pub fn one() -> (r: Natural)
        ensures
            r@ == 1,
    {
        let mut digits: Vec<u8> = Vec::new();
        digits.push(1);
        assert(digits_value(digits@, 1) == 0);
        Natural { digits }
    }

    /// The natural number `n`.
    pub fn from_u64(n: u64) -> (r: Natural)
        ensures
            r@ == n,
    {
        let mut digits: Vec<u8> = Vec::new();
        let mut m = n;
        while m > 0
            invariant
                digits@ + decimal_digits(m as nat) == decimal_digits(n as nat),
            decreases m,
        {
            let d = (m % 10) as u8;
            proof {
                let rest = decimal_digits((m / 10) as nat);
                assert(digits@.push(d) + rest =~= digits@ + (seq![d] + rest));
            }
            digits.push(d);
            m = m / 10;
        }
        proof {
            assert(digits@ + Seq::<u8>::empty() =~= digits@);
            lemma_decimal_digits(n as nat);
        }
        Natural { digits }
    }

    /// The number written by `digits` in the base `base`, most significant
    /// digit first; nothing where the base is below two or an element is no
    /// digit of the base.
    pub fn from_digits(digits: &Vec<u32>, base: u32) -> (r: Option<Natural>)
        ensures
            r is Some <==> base >= 2 && digits_below(digits@, base as nat),
            r matches Some(n) ==> n@ == radix_value(digits@, base as nat),
    {
        if base < 2 {
            return None;
        }
        let radix = Natural::from_u64(base as u64);
        let mut acc = Natural::zero();
        let mut i: usize = 0;
        assert(digits@.take(0) =~= Seq::<u32>::empty());
        while i < digits.len()
            invariant
                i <= digits.len(),
                radix@ == base,
                digits_below(digits@.take(i as int), base as nat),
                acc@ == radix_value(digits@.take(i as int), base as nat),
            decreases digits.len() - i,
        {
            let d = digits[i];
            if d >= base {
                return None;
            }
            proof {
                let next = digits@.take(i + 1);
                assert(next.drop_last() =~= digits@.take(i as int));
                assert(next.last() == d);
                assert forall|k: int| 0 <= k < next.len() implies (#[trigger] next[k]) < base by {
                    if k < i {
                        assert(next[k] == digits@.take(i as int)[k]);
                    }
                }
            }
            acc = acc.mul(&radix).add(&Natural::from_u64(d as u64));
            i = i + 1;
        }
        assert(digits@.take(digits@.len() as int) =~= digits@);
        Some(acc)
    }

    /// The number as a `u64`, where it fits.
    pub fn to_u64(&self) -> (r: Option<u64>)
        ensures
            r is Some <==> self@ <= u64::MAX,
            r matches Some(v) ==> v == self@,
    {
        proof {
            use_type_invariant(self);
        }
        let mut acc: u64 = 0;
        let mut i: usize = self.digits.len();
        while i > 0
            invariant
                i <= self.digits.len(),
                all_decimal(self.digits@),
                acc == digits_value(self.digits@, i as int),
            decreases i,
        {
            i = i - 1;
            let d = self.digits[i] as u64;
            if acc > (u64::MAX - d) / 10 {
                proof {
                    lemma_value_suffix_le(self.digits@, i as int);
                }
                return None;
            }
            acc = acc * 10 + d;
        }
        Some(acc)
    }

    /// A copy of the number.
    pub fn duplicate(&self) -> (r: Natural)
        ensures
            r@ == self@,
    {
        proof {
            use_type_invariant(self);
        }
        let mut digits: Vec<u8> = Vec::new();
        let mut i: usize = 0;
        while i < self.digits.len()
            invariant
                i <= self.digits.len(),
                digits@ == self.digits@.subrange(0, i as int),
            decreases self.digits.len() - i,
        {
            assert(digits@.push(self.digits@[i as int]) =~= self.digits@.subrange(0, i + 1));
            digits.push(self.digits[i]);
            i = i + 1;
        }
        assert(digits@ =~= self.digits@);
        Natural { digits }
    }

    /// The decimal digits of the number, least significant first, without
    /// a zero at the top.
    pub fn to_decimal(&self) -> (out: Vec<u8>)
        ensures
            all_decimal(out@),
            digits_value(out@, 0) == self@,
            out@.len() > 0 ==> out@.last() != 0,
    {
        proof {
            use_type_invariant(self);
            assert(self.digits@.subrange(0, self.digits@.len() as int) =~= self.digits@);
        }
        let mut n: usize = self.digits.len();
        let mut out: Vec<u8> = Vec::new();
        while n > 0 && self.digits[n - 1] == 0
            invariant
                n <= self.digits.len(),
                all_decimal(self.digits@),
                digits_value(self.digits@.subrange(0, n as int), 0) == self@,
            decreases n,
        {
            proof {
                let s = self.digits@.subrange(0, n as int);
                lemma_value_drop_zero(s, 0);
                assert(s.drop_last() =~= self.digits@.subrange(0, n - 1));
            }
            n = n - 1;
        }
        let mut i: usize = 0;
        while i < n
            invariant
                i <= n,
                n <= self.digits.len(),
                out@ == self.digits@.subrange(0, i as int),
            decreases n - i,
        {
            assert(out@.push(self.digits@[i as int]) =~= self.digits@.subrange(0, i + 1));
            out.push(self.digits[i]);
            i = i + 1;
        }
        out
    }

    /// Whether the number is zero.
    pub fn is_zero(&self) -> (r: bool)
        ensures
            r == (self@ == 0),
    {
        let zero = Natural::zero();
        self.compare(&zero) == Order::Equal
    }

    /// How the number stands to `other`.
    pub fn compare(&self, other: &Natural) -> (ord: Order)
        ensures
            ord == order_of(self@ as int, other@ as int),
    {
        proof {
            use_type_invariant(self);
            use_type_invariant(other);
        }
        compare_digits(&self.digits, &other.digits)
    }

    /// Whether the two numbers are the same.
    pub fn equals(&self, other: &Natural) -> (r: bool)
        ensures
            r == (self@ == other@),
    {
        self.compare(other) == Order::Equal
    }

    /// The sum of the two numbers.
    pub fn add(&self, other: &Natural) -> (r: Natural)
        ensures
            r@ == self@ + other@,
    {
        proof {
            use_type_invariant(self);
            use_type_invariant(other);
            assert(other@ * 1 == other@) by (nonlinear_arith);
        }
        Natural { digits: fma(&self.digits, &other.digits, 1) }
    }

    /// The difference of the two numbers, where `other` is not the greater.
    pub fn checked_sub(&self, other: &Natural) -> (r: Option<Natural>)
        ensures
            r is Some <==> self@ >= other@,
            r matches Some(d) ==> d@ == self@ - other@,
    {
        proof {
            use_type_invariant(self);
            use_type_invariant(other);
        }
        match checked_sub_digits(&self.digits, &other.digits) {
            Some(digits) => Some(Natural { digits }),
            None => None,
        }
    }

    /// The product of the two numbers.
    pub fn mul(&self, other: &Natural) -> (r: Natural)
        ensures
            r@ == self@ * other@,
    {
        proof {
            use_type_invariant(self);
            use_type_invariant(other);
        }
        Natural { digits: mul_digits(&self.digits, &other.digits) }
    }

    /// Quotient and remainder by `other`; nothing where `other` is zero.
    pub fn div_rem(&self, other: &Natural) -> (r: Option<(Natural, Natural)>)
        ensures
            r is Some <==> other@ != 0,
            r matches Some(qr) ==> qr.0@ == self@ / other@ && qr.1@ == self@ % other@,
    {
        proof {
            use_type_invariant(self);
            use_type_invariant(other);
        }
        if other.is_zero() {
            None
        } else {
            let (q, r) = div_rem_digits(&self.digits, &other.digits);
            Some((Natural { digits: q }, Natural { digits: r }))
        }
    }

    /// The greatest common divisor of the two numbers.
    pub fn gcd(&self, other: &Natural) -> (g: Natural)
        ensures
            g@ == gcd(self@, other@),
    {
        let mut x = self.duplicate();
        let mut y = other.duplicate();
        while !y.is_zero()
            invariant
                gcd(x@, y@) == gcd(self@, other@),
            decreases y@,
        {
            proof {
                use_type_invariant(&x);
                use_type_invariant(&y);
            }
            let (_q, r) = div_rem_digits(&x.digits, &y.digits);
            x = y;
            y = Natural { digits: r };
        }
        x
    }

    /// The greatest number whose square is not above this one.
    pub fn sqrt_floor(&self) -> (r: Natural)
        ensures
            square(r@) <= self@ < square(r@ + 1),
    {
        let one = Natural::one();
        let two = Natural::from_u64(2);
        let mut lo = Natural::zero();
        let mut hi = self.add(&one);
        assert(square(0) == 0) by (nonlinear_arith);
        assert(square(self@ + 1) > self@) by (nonlinear_arith);
        loop
            invariant
                one@ == 1,
                two@ == 2,
                lo@ < hi@,
                square(lo@) <= self@ < square(hi@),
            ensures
                hi@ == lo@ + 1,
                square(lo@) <= self@ < square(hi@),
            decreases hi@ - lo@,
        {
            let next = lo.add(&one);
            if next.equals(&hi) {
                break ;
            }
            let mid = lo.add(&hi).div_rem(&two).unwrap().0;
            assert(lo@ < mid@ < hi@);
            if mid.mul(&mid).compare(self) == Order::Greater {
                hi = mid;
            } else {
                lo = mid;
            }
        }
        lo
    }

    /// The number whose square this one is, where there is one.
    pub fn exact_root(&self) -> (r: Option<Natural>)
        ensures
            r is Some <==> is_square(self@),
            r matches Some(s) ==> s@ == square_root(self@) && square(s@) == self@,
    {
        let root = self.sqrt_floor();
        if root.mul(&root).equals(self) {
            proof {
                assert(square(root@) == self@);
                lemma_square_injective(root@, square_root(self@));
            }
            Some(root)
        } else {
            proof {
                let n = self@;
                let r = root@;
                assert forall|s: nat| #[trigger] square(s) != n by {
                    if s < r {
                        assert(s * s < r * r) by (nonlinear_arith)
                            requires
                                s < r,
                        ;
                    } else if s > r {
                        assert(s * s >= (r + 1) * (r + 1)) by (nonlinear_arith)
                            requires
                                s >= r + 1,
                        ;
                    }
                }
            }
            None
        }
    }

    /// The number raised to the power `e`.
    pub fn pow(&self, e: u64) -> (r: Natural)
        ensures
            r@ == power(self@, e as nat),
    {
        let mut acc = Natural::one();
        let mut i: u64 = 0;
        while i < e
            invariant
                i <= e,
                acc@ == power(self@, i as nat),
            decreases e - i,
        {
            assert(power(self@, (i + 1) as nat) == self@ * power(self@, i as nat));
            acc = self.mul(&acc);
            i = i + 1;
        }
        acc
    }
}


/// The greatest common divisor divides both numbers: the result holds the two
/// quotients.
pub proof fn lemma_gcd_divides(a: nat, b: nat) -> (k: (nat, nat))
    ensures
        a == k.0 * gcd(a, b),
        b == k.1 * gcd(a, b),
    decreases b,
{
    let g = gcd(a, b);
    if b == 0 {
        assert(a == 1 * g && b == 0 * g) by (nonlinear_arith)
            requires
                g == a,
                b == 0,
        ;
        (1, 0)
    } else {
        let k = lemma_gcd_divides(b, a % b);
        lemma_fundamental_div_mod(a as int, b as int);
        let q = a / b;
        let m = a % b;
        assert(a == (q * k.0 + k.1) * g) by (nonlinear_arith)
            requires
                a == b * q + m,
                b == k.0 * g,
                m == k.1 * g,
        ;
        (q * k.0 + k.1, k.0)
    }
}

/// The greatest common divisor is a combination of the two numbers: the
/// result holds the two factors.
pub proof fn lemma_bezout(a: nat, b: nat) -> (xy: (int, int))
    ensures
        a * xy.0 + b * xy.1 == gcd(a, b),
    decreases b,
{
    if b == 0 {
        assert(a * 1 + b * 0 == a) by (nonlinear_arith);
        (1, 0)
    } else {
        let r = lemma_bezout(b, a % b);
        lemma_fundamental_div_mod(a as int, b as int);
        let q = (a / b) as int;
        let m = (a % b) as int;
        let g = gcd(a, b) as int;
        assert(a * r.1 + b * (r.0 - q * r.1) == g) by (nonlinear_arith)
            requires
                a == b * q + m,
                b * r.0 + m * r.1 == g,
        ;
        (r.1, r.0 - q * r.1)
    }
}

/// The greatest common divisor is positive unless both numbers are zero.
pub proof fn lemma_gcd_positive(a: nat, b: nat)
    requires
        a > 0 || b > 0,
    ensures
        gcd(a, b) > 0,
    decreases b,
{
    if b != 0 {
        lemma_gcd_positive(b, a % b);
    }
}

/// Dividing two numbers by their greatest common divisor leaves numbers
/// without a common divisor.
pub proof fn lemma_reduced_is_coprime(a: nat, b: nat, ka: nat, kb: nat)
    requires
        gcd(a, b) > 0,
        a == ka * gcd(a, b),
        b == kb * gcd(a, b),
    ensures
        gcd(ka, kb) == 1,
{
    let g = gcd(a, b) as int;
    let xy = lemma_bezout(a, b);
    let h = gcd(ka, kb) as int;
    let mn = lemma_gcd_divides(ka, kb);
    assert(ka * xy.0 + kb * xy.1 == 1) by (nonlinear_arith)
        requires
            a * xy.0 + b * xy.1 == g,
            a == ka * g,
            b == kb * g,
            g > 0,
    ;
    let w = mn.0 * xy.0 + mn.1 * xy.1;
    assert(h * w == 1) by (nonlinear_arith)
        requires
            ka * xy.0 + kb * xy.1 == 1,
            ka == mn.0 * h,
            kb == mn.1 * h,
            w == mn.0 * xy.0 + mn.1 * xy.1,
    ;
    assert(h == 1) by (nonlinear_arith)
        requires
            h * w == 1,
            h >= 0,
    ;
}

/// A fraction has one form in lowest terms.
pub proof fn lemma_lowest_terms_unique(a: nat, b: nat, c: nat, d: nat)
    requires
        b > 0,
        d > 0,
        gcd(a, b) == 1,
        gcd(c, d) == 1,
        a * d == c * b,
    ensures
        a == c,
        b == d,
{
    let xy = lemma_bezout(a, b);
    let uv = lemma_bezout(c, d);
    let k1 = c * xy.0 + d * xy.1;
    let k2 = a * uv.0 + b * uv.1;
    assert(d == b * k1) by (nonlinear_arith)
        requires
            a * xy.0 + b * xy.1 == 1,
            a * d == c * b,
            k1 == c * xy.0 + d * xy.1,
    ;
    assert(b == d * k2) by (nonlinear_arith)
        requires
            c * uv.0 + d * uv.1 == 1,
            a * d == c * b,
            k2 == a * uv.0 + b * uv.1,
    ;
    assert(b == d) by (nonlinear_arith)
        requires
            d == b * k1,
            b == d * k2,
            b > 0,
            d > 0,
    ;
    assert(a == c) by (nonlinear_arith)
        requires
            a * d == c * b,
            b == d,
            d > 0,
    ;
}


/// Two natural numbers with one square are one number.
pub proof fn lemma_square_injective(a: nat, b: nat)
    requires
        square(a) == square(b),
    ensures
        a == b,
{
    assert(a == b) by (nonlinear_arith)
        requires
            a * a == b * b,
    ;
}

} // verus!
