use equation_solver::natural::{Natural, Order};
use equation_solver::numeric::{ArithmeticError, NumericValue};
use equation_solver::rational::Rational;

fn natural(n: u64) -> Natural {
    Natural::from_u64(n)
}

fn whole(n: i64) -> NumericValue {
    NumericValue::integer(n >= 0, natural(n.unsigned_abs()))
}

fn frac(n: i64, d: u64) -> NumericValue {
    NumericValue::ratio(n >= 0, whole(n.abs()), whole(d as i64)).unwrap()
}

fn is_fraction_of(v: &NumericValue, sign: bool, n: u64, d: u64) -> bool {
    match v.fraction() {
        Some((top, bottom)) => {
            v.sign() == sign
                && v.base() == 10
                && v.period().is_none()
                && v.exponent().is_none()
                && v.magnitude().to_u64() == Some(0)
                && top.magnitude().to_u64() == Some(n)
                && top.fraction().is_none()
                && top.sign()
                && bottom.magnitude().to_u64() == Some(d)
                && bottom.fraction().is_none()
                && bottom.sign()
        }
        None => false,
    }
}

fn is_whole_number(v: &NumericValue, sign: bool, n: u64) -> bool {
    v.fraction().is_none()
        && v.sign() == sign
        && v.base() == 10
        && v.period().is_none()
        && v.exponent().is_none()
        && v.magnitude().to_u64() == Some(n)
}

#[test]
fn natural_round_trips_through_u64() {
    assert_eq!(natural(0).to_u64(), Some(0));
    assert_eq!(natural(7).to_u64(), Some(7));
    assert_eq!(natural(u64::MAX).to_u64(), Some(u64::MAX));
    assert!(natural(0).is_zero());
    assert!(!natural(10).is_zero());
}

#[test]
fn natural_beyond_u64_does_not_fit() {
    let big = natural(u64::MAX).add(&Natural::one());
    assert_eq!(big.to_u64(), None);
    // 18446744073709551616, least significant digit first
    let digits = big.to_decimal();
    let expected: Vec<u8> = "18446744073709551616".bytes().rev().map(|b| b - b'0').collect();
    assert_eq!(digits, expected);
}

#[test]
fn natural_arithmetic_is_exact() {
    assert_eq!(natural(999).add(&natural(1)).to_u64(), Some(1000));
    assert_eq!(natural(1000).checked_sub(&natural(1)).unwrap().to_u64(), Some(999));
    assert!(natural(3).checked_sub(&natural(4)).is_none());
    assert_eq!(natural(5).checked_sub(&natural(5)).unwrap().to_u64(), Some(0));
    assert_eq!(natural(12345).mul(&natural(6789)).to_u64(), Some(83810205));
    let product = natural(99999999999).mul(&natural(99999999999));
    let expected: Vec<u8> = "9999999999800000000001".bytes().rev().map(|b| b - b'0').collect();
    assert_eq!(product.to_decimal(), expected);
    assert_eq!(natural(2).pow(10).to_u64(), Some(1024));
    assert_eq!(natural(7).pow(0).to_u64(), Some(1));
}

#[test]
fn natural_division_gives_quotient_and_remainder() {
    let (q, r) = natural(1000).div_rem(&natural(7)).unwrap();
    assert_eq!(q.to_u64(), Some(142));
    assert_eq!(r.to_u64(), Some(6));
    let (q, r) = natural(5).div_rem(&natural(9)).unwrap();
    assert_eq!(q.to_u64(), Some(0));
    assert_eq!(r.to_u64(), Some(5));
    assert!(natural(5).div_rem(&natural(0)).is_none());
    let big = natural(u64::MAX).mul(&natural(u64::MAX));
    let (q, r) = big.div_rem(&natural(u64::MAX)).unwrap();
    assert_eq!(q.to_u64(), Some(u64::MAX));
    assert!(r.is_zero());
}

#[test]
fn natural_comparison_and_gcd() {
    assert_eq!(natural(3).compare(&natural(5)), Order::Less);
    assert_eq!(natural(5).compare(&natural(5)), Order::Equal);
    assert_eq!(natural(100).compare(&natural(99)), Order::Greater);
    assert!(natural(42).equals(&natural(42)));
    assert_eq!(natural(48).gcd(&natural(18)).to_u64(), Some(6));
    assert_eq!(natural(17).gcd(&natural(5)).to_u64(), Some(1));
    assert_eq!(natural(0).gcd(&natural(9)).to_u64(), Some(9));
}

#[test]
fn natural_square_roots() {
    assert_eq!(natural(10).sqrt_floor().to_u64(), Some(3));
    assert_eq!(natural(0).sqrt_floor().to_u64(), Some(0));
    assert_eq!(natural(49).exact_root().unwrap().to_u64(), Some(7));
    assert!(natural(50).exact_root().is_none());
    assert_eq!(natural(1).exact_root().unwrap().to_u64(), Some(1));
}

#[test]
fn natural_from_digits_in_a_base() {
    // 11101 in base two
    let bits: Vec<u32> = vec![1, 1, 1, 0, 1];
    assert_eq!(Natural::from_digits(&bits, 2).unwrap().to_u64(), Some(29));
    let hex: Vec<u32> = vec![15, 15];
    assert_eq!(Natural::from_digits(&hex, 16).unwrap().to_u64(), Some(255));
    assert!(Natural::from_digits(&bits, 1).is_none());
    let wrong: Vec<u32> = vec![1, 2];
    assert!(Natural::from_digits(&wrong, 2).is_none());
    let empty: Vec<u32> = vec![];
    assert_eq!(Natural::from_digits(&empty, 10).unwrap().to_u64(), Some(0));
}

#[test]
fn rational_arithmetic_is_exact() {
    let half = Rational::new(false, natural(1), natural(2)).unwrap();
    let third = Rational::new(false, natural(1), natural(3)).unwrap();
    let sum = half.add(&third).reduce();
    let (negative, n, d) = sum.into_parts();
    assert!(!negative);
    assert_eq!(n.to_u64(), Some(5));
    assert_eq!(d.to_u64(), Some(6));
    assert!(Rational::new(false, natural(1), natural(0)).is_none());
    let diff = third.subtract(&half);
    assert!(diff.is_negative());
    assert_eq!(third.compare(&half), Order::Less);
    assert!(half.divide(&Rational::from_natural(false, natural(0))).is_none());
    let quotient = half.divide(&third).unwrap().reduce();
    let (_, n, d) = quotient.into_parts();
    assert_eq!((n.to_u64(), d.to_u64()), (Some(3), Some(2)));
    let cube = half.power(3).reduce();
    let (_, n, d) = cube.into_parts();
    assert_eq!((n.to_u64(), d.to_u64()), (Some(1), Some(8)));
}

#[test]
fn periodic_decimal_equals_its_fraction() {
    // 0.(3): the digit 3, one digit repeating, scaled by ten to the minus one
    let third = NumericValue::literal(true, natural(3), 10, Some(1), Some(-1)).unwrap();
    assert!(third.equals(&frac(1, 3)));
    assert!(!third.equals(&frac(3, 10)));
    // 3.(3) is ten thirds
    let ten_thirds = NumericValue::literal(true, natural(33), 10, Some(1), Some(-1)).unwrap();
    assert!(ten_thirds.equals(&frac(10, 3)));
    // 0.1(6) is one sixth
    let sixth = NumericValue::literal(true, natural(16), 10, Some(1), Some(-2)).unwrap();
    assert!(sixth.equals(&frac(1, 6)));
    // 0.(142857) is one seventh
    let seventh = NumericValue::literal(true, natural(142857), 10, Some(6), Some(-6)).unwrap();
    assert!(seventh.equals(&frac(1, 7)));
}

#[test]
fn literal_forms_denote_their_numbers() {
    // 5e12
    let big = NumericValue::literal(true, natural(5), 10, None, Some(12)).unwrap();
    assert!(big.equals(&whole(5_000_000_000_000)));
    // 0.25
    let quarter = NumericValue::literal(true, natural(25), 10, None, Some(-2)).unwrap();
    assert!(quarter.equals(&frac(1, 4)));
    // 101 in base two, times two to the third
    let forty = NumericValue::literal(true, natural(5), 2, None, Some(3)).unwrap();
    assert!(forty.equals(&whole(40)));
    // 0.(1) in base two is one
    let one = NumericValue::literal(true, natural(1), 2, Some(1), Some(-1)).unwrap();
    assert!(one.equals(&whole(1)));
    // negative
    let minus = NumericValue::literal(false, natural(32), 10, None, None).unwrap();
    assert!(minus.equals(&whole(-32)));
    assert!(NumericValue::literal(true, natural(1), 1, None, None).is_none());
    assert!(NumericValue::literal(true, natural(1), 10, Some(0), None).is_none());
}

#[test]
fn fraction_with_zero_denominator_is_refused() {
    match NumericValue::ratio(true, whole(1), whole(0)) {
        Err(e) => assert_eq!(e, ArithmeticError::DivisionByZero),
        Ok(_) => panic!("expected a division by zero"),
    }
    // a nested fraction: (1/2) / (3/4) = 2/3
    let nested = NumericValue::ratio(true, frac(1, 2), frac(3, 4)).unwrap();
    assert!(nested.equals(&frac(2, 3)));
}

#[test]
fn normalizing_gives_lowest_terms() {
    let v = frac(6, 8).normalize();
    assert!(is_fraction_of(&v, true, 3, 4));
    let w = frac(-6, 3).normalize();
    assert!(is_whole_number(&w, false, 2));
    let zero = NumericValue::ratio(false, whole(0), whole(5)).unwrap().normalize();
    assert!(is_whole_number(&zero, true, 0));
    let periodic = NumericValue::literal(true, natural(3), 10, Some(1), Some(-1)).unwrap().normalize();
    assert!(is_fraction_of(&periodic, true, 1, 3));
}

#[test]
fn normalizing_twice_changes_nothing() {
    let values = vec![
        frac(6, 8),
        frac(-10, 4),
        whole(0),
        whole(-7),
        NumericValue::literal(true, natural(142857), 10, Some(6), Some(-6)).unwrap(),
        NumericValue::literal(false, natural(5), 2, None, Some(-3)).unwrap(),
    ];
    for v in values.iter() {
        let once = v.normalize();
        let twice = once.normalize();
        assert_eq!(once.sign(), twice.sign());
        assert!(once.magnitude().equals(&twice.magnitude()));
        assert_eq!(once.base(), twice.base());
        assert_eq!(once.period(), twice.period());
        assert_eq!(once.exponent(), twice.exponent());
        match (once.fraction(), twice.fraction()) {
            (None, None) => {}
            (Some((a, b)), Some((c, d))) => {
                assert!(a.magnitude().equals(&c.magnitude()));
                assert!(b.magnitude().equals(&d.magnitude()));
            }
            _ => panic!("forms differ"),
        }
        assert!(once.equals(v));
    }
}

#[test]
fn numeric_arithmetic_is_exact_and_normal() {
    assert!(is_fraction_of(&frac(1, 2).add(&frac(1, 3)), true, 5, 6));
    assert!(is_fraction_of(&frac(1, 2).subtract(&frac(1, 3)), true, 1, 6));
    assert!(is_fraction_of(&frac(1, 3).subtract(&frac(1, 2)), false, 1, 6));
    assert!(is_fraction_of(&frac(2, 3).multiply(&frac(3, 8)), true, 1, 4));
    assert!(is_whole_number(&frac(1, 2).add(&frac(1, 2)), true, 1));
    assert!(is_whole_number(&whole(3).negate(), false, 3));
    assert!(is_whole_number(&whole(0).negate(), true, 0));
    let q = frac(1, 2).divide(&frac(-1, 4)).unwrap();
    assert!(is_whole_number(&q, false, 2));
}

#[test]
fn numeric_division_by_zero_fails() {
    assert_eq!(whole(5).divide(&whole(0)).err(), Some(ArithmeticError::DivisionByZero));
    let almost = frac(1, 3).subtract(&NumericValue::literal(true, natural(3), 10, Some(1), Some(-1)).unwrap());
    assert_eq!(whole(5).divide(&almost).err(), Some(ArithmeticError::DivisionByZero));
}

#[test]
fn numeric_powers() {
    assert!(is_fraction_of(&frac(2, 3).power(-2).unwrap(), true, 9, 4));
    assert!(is_whole_number(&whole(-2).power(3).unwrap(), false, 8));
    assert!(is_whole_number(&whole(0).power(0).unwrap(), true, 1));
    assert!(is_whole_number(&whole(5).power(0).unwrap(), true, 1));
    assert_eq!(whole(0).power(-1).err(), Some(ArithmeticError::DivisionByZero));
}

#[test]
fn numeric_comparison_orders_by_value() {
    assert_eq!(frac(-1, 2).compare(&frac(1, 3)), Order::Less);
    assert_eq!(frac(2, 4).compare(&frac(1, 2)), Order::Equal);
    assert_eq!(whole(1).compare(&frac(9, 10)), Order::Greater);
    assert_eq!(frac(-1, 3).compare(&frac(-1, 2)), Order::Greater);
    assert!(frac(2, 4).equals(&frac(1, 2)));
    assert!(whole(0).is_zero());
    assert!(frac(-1, 5).is_negative());
    assert!(!whole(0).negate().is_negative());
}

#[test]
fn numeric_whole_part() {
    let (at_least_zero, n) = frac(6, 3).to_integer().unwrap();
    assert!(at_least_zero);
    assert_eq!(n.to_u64(), Some(2));
    let (at_least_zero, n) = whole(-4).to_integer().unwrap();
    assert!(!at_least_zero);
    assert_eq!(n.to_u64(), Some(4));
    assert!(frac(1, 2).to_integer().is_none());
}
