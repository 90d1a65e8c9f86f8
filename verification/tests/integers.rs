use lucid_runtime::integer;
use lucid_runtime::integer::{Integer, INT_NAN, INT_NEG_INF, INT_POS_INF};
use num_bigint::BigInt;

fn big(text: &str) -> BigInt {
    BigInt::parse_bytes(text.as_bytes(), 10).unwrap()
}

fn expect_int(v: Integer) -> i64 {
    match v {
        Integer::Int(x) => x,
        Integer::Big(b) => panic!("expected a machine word, got {}", b),
    }
}

fn expect_big(v: Integer) -> BigInt {
    match v {
        Integer::Big(b) => b,
        Integer::Int(x) => panic!("expected an arbitrary-precision value, got {}", x),
    }
}

#[test]
fn machine_overflow_widens_to_arbitrary_precision() {
    let a = integer::add(&Integer::Int(i64::MAX), &Integer::Int(1));
    assert_eq!(expect_big(a), BigInt::from(i64::MAX) + 1);
    let b = integer::sub(&Integer::Int(-i64::MAX), &Integer::Int(2));
    assert_eq!(expect_big(b), BigInt::from(i64::MIN) - 1);
    let c = integer::mul(&Integer::Int(3037000500), &Integer::Int(3037000500));
    assert_eq!(expect_big(c), BigInt::from(3037000500i64) * BigInt::from(3037000500i64));
    let f = integer::power(&Integer::Int(2), &Integer::Int(63)).unwrap().unwrap();
    assert_eq!(expect_big(f), BigInt::from(2).pow(63));
}

#[test]
fn small_results_stay_machine_words() {
    assert_eq!(expect_int(integer::add(&Integer::Int(2), &Integer::Int(3))), 5);
    assert_eq!(expect_int(integer::sub(&Integer::Int(2), &Integer::Int(3))), -1);
    assert_eq!(expect_int(integer::mul(&Integer::Int(-4), &Integer::Int(3))), -12);
    assert_eq!(expect_int(integer::power(&Integer::Int(2), &Integer::Int(10)).unwrap().unwrap()), 1024);
    assert_eq!(expect_int(integer::power(&Integer::Int(-3), &Integer::Int(3)).unwrap().unwrap()), -27);
    assert_eq!(expect_int(integer::power(&Integer::Int(7), &Integer::Int(0)).unwrap().unwrap()), 1);
}

#[test]
fn arbitrary_precision_arithmetic_is_exact() {
    let x = Integer::Big(big("999999999999999999999999999999"));
    let y = integer::add(&x, &Integer::Int(2));
    assert_eq!(expect_big(y), big("1000000000000000000000000000001"));
    let z = integer::mul(&Integer::Big(big("1000000000000000000000000000001")), &Integer::Int(3));
    assert_eq!(expect_big(z), big("3000000000000000000000000000003"));
    let q = integer::floor_divide(&Integer::Big(big("3000000000000000000000000000003")), &Integer::Int(3)).unwrap();
    assert_eq!(expect_big(q), big("1000000000000000000000000000001"));
    let p = integer::power(&x, &Integer::Int(2)).unwrap().unwrap();
    assert_eq!(expect_big(p), big("999999999999999999999999999998000000000000000000000000000001"));
    let back = integer::sub(&Integer::Big(big("1000000000000000000000000000001")), &Integer::Big(big("1000000000000000000000000000000")));
    assert_eq!(expect_big(back), BigInt::from(1));
}

#[test]
fn machine_floor_division_is_euclidean() {
    assert_eq!(expect_int(integer::floor_divide(&Integer::Int(-5), &Integer::Int(2)).unwrap()), -3);
    assert_eq!(expect_int(integer::modulo(&Integer::Int(-5), &Integer::Int(2)).unwrap()), 1);
    assert_eq!(expect_int(integer::floor_divide(&Integer::Int(7), &Integer::Int(-2)).unwrap()), -3);
    assert_eq!(expect_int(integer::modulo(&Integer::Int(7), &Integer::Int(-2)).unwrap()), 1);
    assert_eq!(expect_int(integer::floor_divide(&Integer::Int(7), &Integer::Int(2)).unwrap()), 3);
    assert_eq!(expect_int(integer::modulo(&Integer::Int(7), &Integer::Int(2)).unwrap()), 1);
}

#[test]
fn arbitrary_precision_division_rounds_down() {
    let q = integer::floor_divide(&Integer::Big(BigInt::from(-7)), &Integer::Int(2)).unwrap();
    assert_eq!(expect_big(q), BigInt::from(-4));
    let r = integer::modulo(&Integer::Big(BigInt::from(-7)), &Integer::Int(2)).unwrap();
    assert_eq!(expect_big(r), BigInt::from(1));
    let q = integer::floor_divide(&Integer::Int(7), &Integer::Big(BigInt::from(-2))).unwrap();
    assert_eq!(expect_big(q), BigInt::from(-4));
    let r = integer::modulo(&Integer::Int(7), &Integer::Big(BigInt::from(-2))).unwrap();
    assert_eq!(expect_big(r), BigInt::from(-1));
    let q = integer::floor_divide(&Integer::Big(BigInt::from(8)), &Integer::Big(BigInt::from(2))).unwrap();
    assert_eq!(expect_big(q), BigInt::from(4));
}

#[test]
fn zero_divisors_give_sentinels() {
    assert_eq!(expect_int(integer::floor_divide(&Integer::Int(5), &Integer::Int(0)).unwrap()), INT_POS_INF);
    assert_eq!(expect_int(integer::floor_divide(&Integer::Int(-5), &Integer::Int(0)).unwrap()), INT_NEG_INF);
    assert_eq!(expect_int(integer::floor_divide(&Integer::Int(0), &Integer::Int(0)).unwrap()), INT_NAN);
    assert_eq!(expect_int(integer::modulo(&Integer::Int(5), &Integer::Int(0)).unwrap()), INT_NAN);
    assert_eq!(expect_int(integer::floor_divide(&Integer::Big(BigInt::from(5)), &Integer::Int(0)).unwrap()), INT_NAN);
    assert_eq!(expect_int(integer::modulo(&Integer::Int(5), &Integer::Big(BigInt::from(0))).unwrap()), INT_NAN);
}

#[test]
fn min_over_negative_one_is_an_overflow_error() {
    let e = integer::floor_divide(&Integer::Int(i64::MIN), &Integer::Int(-1)).err().unwrap();
    assert_eq!(e.message, "integer overflow in //");
    let e = integer::modulo(&Integer::Int(i64::MIN), &Integer::Int(-1)).err().unwrap();
    assert_eq!(e.message, "integer overflow in %");
}

#[test]
fn power_edge_cases() {
    assert!(integer::power(&Integer::Int(2), &Integer::Int(-1)).unwrap().is_none());
    assert!(integer::power(&Integer::Big(BigInt::from(2)), &Integer::Big(BigInt::from(-3))).unwrap().is_none());
    let e = integer::power(&Integer::Int(1), &Integer::Int(u32::MAX as i64 + 1)).err().unwrap();
    assert_eq!(e.message, "integer exponent is too large");
    let p = integer::power(&Integer::Int(10), &Integer::Big(BigInt::from(20))).unwrap().unwrap();
    assert_eq!(expect_big(p), big("100000000000000000000"));
}

#[test]
fn bitwise_operations_on_machine_words() {
    assert_eq!(expect_int(integer::bit_and(&Integer::Int(12), &Integer::Int(10)).unwrap()), 8);
    assert_eq!(expect_int(integer::bit_or(&Integer::Int(12), &Integer::Int(10)).unwrap()), 14);
    assert_eq!(expect_int(integer::bit_xor(&Integer::Int(12), &Integer::Int(10)).unwrap()), 6);
    let e = integer::bit_and(&Integer::Big(BigInt::from(1)), &Integer::Int(1)).err().unwrap();
    assert_eq!(e.message, "unsupported operands for &");
    let e = integer::bit_or(&Integer::Int(1), &Integer::Big(BigInt::from(1))).err().unwrap();
    assert_eq!(e.message, "unsupported operands for |");
    let e = integer::bit_xor(&Integer::Big(BigInt::from(1)), &Integer::Big(BigInt::from(1))).err().unwrap();
    assert_eq!(e.message, "unsupported operands for ^");
}

#[test]
fn shifts_check_their_count() {
    assert_eq!(expect_int(integer::shift_left(&Integer::Int(1), &Integer::Int(3)).unwrap()), 8);
    assert_eq!(expect_int(integer::shift_left(&Integer::Int(1), &Integer::Int(64)).unwrap()), 0);
    assert_eq!(expect_int(integer::shift_right(&Integer::Int(-8), &Integer::Int(1)).unwrap()), -4);
    assert_eq!(expect_int(integer::shift_right(&Integer::Int(-8), &Integer::Int(80)).unwrap()), 0);
    let e = integer::shift_left(&Integer::Int(1), &Integer::Int(-1)).err().unwrap();
    assert_eq!(e.message, "negative shift count");
    let e = integer::shift_right(&Integer::Int(1), &Integer::Int(-2)).err().unwrap();
    assert_eq!(e.message, "negative shift count");
    let e = integer::shift_left(&Integer::Big(BigInt::from(1)), &Integer::Int(1)).err().unwrap();
    assert_eq!(e.message, "unsupported operands for <<");
    let e = integer::shift_right(&Integer::Int(1), &Integer::Big(BigInt::from(1))).err().unwrap();
    assert_eq!(e.message, "unsupported operands for >>");
}

#[test]
fn negation_swaps_infinities() {
    assert_eq!(expect_int(integer::negate(&Integer::Int(INT_POS_INF))), INT_NEG_INF);
    assert_eq!(expect_int(integer::negate(&Integer::Int(INT_NEG_INF))), INT_POS_INF);
    assert_eq!(expect_int(integer::negate(&Integer::Int(5))), -5);
    assert_eq!(expect_big(integer::negate(&Integer::Big(big("100000000000000000000")))), big("-100000000000000000000"));
}

#[test]
fn inversion_is_minus_n_minus_one() {
    assert_eq!(expect_int(integer::invert(&Integer::Int(5))), -6);
    assert_eq!(expect_int(integer::invert(&Integer::Int(-1))), 0);
    assert_eq!(expect_big(integer::invert(&Integer::Big(big("18446744073709551616")))), big("-18446744073709551617"));
}

#[test]
fn absolute_value_keeps_nan() {
    assert_eq!(expect_int(integer::absolute(&Integer::Int(INT_NAN))), INT_NAN);
    assert_eq!(expect_int(integer::absolute(&Integer::Int(INT_NEG_INF))), INT_POS_INF);
    assert_eq!(expect_int(integer::absolute(&Integer::Int(-3))), 3);
    assert_eq!(expect_big(integer::absolute(&Integer::Big(BigInt::from(-12)))), BigInt::from(12));
}

#[test]
fn comparisons_cross_representations() {
    let two_63 = Integer::Big(BigInt::from(i64::MAX) + 1);
    assert!(integer::equals(&Integer::Int(5), &Integer::Big(BigInt::from(5))));
    assert!(!integer::equals(&Integer::Int(5), &Integer::Int(6)));
    assert!(integer::less_than(&Integer::Int(i64::MAX), &two_63));
    assert!(integer::less_equal(&Integer::Int(3), &Integer::Int(3)));
    assert!(integer::greater_than(&two_63, &Integer::Int(0)));
    assert!(!integer::greater_equal(&Integer::Int(-1), &Integer::Big(BigInt::from(0))));
    assert!(!integer::is_truthy(&Integer::Int(0)));
    assert!(!integer::is_truthy(&Integer::Big(BigInt::from(0))));
    assert!(integer::is_truthy(&Integer::Int(-2)));
}

#[test]
fn three_argument_pow_reduces_modulo() {
    assert_eq!(expect_int(integer::pow_mod(&Integer::Int(2), &Integer::Int(10), &Integer::Int(1000)).unwrap()), 24);
    assert_eq!(expect_int(integer::pow_mod(&Integer::Int(-2), &Integer::Int(3), &Integer::Int(5)).unwrap()), 2);
    assert_eq!(expect_int(integer::pow_mod(&Integer::Int(2), &Integer::Int(3), &Integer::Int(-5)).unwrap()), 3);
    assert_eq!(expect_int(integer::pow_mod(&Integer::Int(3), &Integer::Int(0), &Integer::Int(1)).unwrap()), 1);
    assert_eq!(
        expect_int(integer::pow_mod(&Integer::Int(i64::MAX), &Integer::Int(i64::MAX), &Integer::Int(i64::MIN)).unwrap()),
        i64::MAX
    );
    assert_eq!(expect_int(integer::pow_mod(&Integer::Int(2), &Integer::Int(-1), &Integer::Int(5)).unwrap()), INT_NAN);
}

#[test]
fn three_argument_pow_with_arbitrary_precision() {
    let r = integer::pow_mod(&Integer::Big(big("100000000000000000000")), &Integer::Int(2), &Integer::Int(1000)).unwrap();
    assert_eq!(expect_big(r), BigInt::from(0));
    let r = integer::pow_mod(&Integer::Big(BigInt::from(3)), &Integer::Int(0), &Integer::Int(1)).unwrap();
    assert_eq!(expect_big(r), BigInt::from(0));
    let r = integer::pow_mod(&Integer::Int(-2), &Integer::Big(BigInt::from(3)), &Integer::Int(-5)).unwrap();
    assert_eq!(expect_big(r), BigInt::from(2));
    let e = integer::pow_mod(&Integer::Int(2), &Integer::Int(3), &Integer::Int(0)).err().unwrap();
    assert_eq!(e.message, "three-argument pow() requires int arguments and a nonzero modulus");
    let e = integer::pow_mod(&Integer::Int(2), &Integer::Big(BigInt::from(3)), &Integer::Big(BigInt::from(0))).err().unwrap();
    assert_eq!(e.message, "three-argument pow() requires int arguments and a nonzero modulus");
}

#[test]
fn test_three_argument_pow_uses_modular_exponentiation() {
    let result = integer::pow_mod(&Integer::Int(2), &Integer::Int(10), &Integer::Int(1000)).unwrap();
    assert_eq!(expect_int(result), 24);
}

#[test]
fn integer_floor_operations_report_min_over_neg_one_without_panicking() {
    let min = integer::sub(&Integer::Int(-9223372036854775807), &Integer::Int(1));
    let error = integer::floor_divide(&min, &Integer::Int(-1)).expect_err("unrepresentable result must error");
    assert!(error.message.contains("integer overflow"));
    let min = integer::sub(&Integer::Int(-9223372036854775807), &Integer::Int(1));
    let error = integer::modulo(&min, &Integer::Int(-1)).expect_err("unrepresentable result must error");
    assert!(error.message.contains("integer overflow"));
}

#[test]
fn test_integer_special_values_and_zero_division() {
    assert_eq!(INT_POS_INF, i64::MAX);
    assert_eq!(INT_NAN, i64::MIN);
    assert_eq!(expect_int(integer::floor_divide(&Integer::Int(5), &Integer::Int(0)).unwrap()), INT_POS_INF);
    assert_eq!(expect_int(integer::floor_divide(&Integer::Int(0), &Integer::Int(0)).unwrap()), INT_NAN);
    assert_eq!(expect_int(integer::modulo(&Integer::Int(5), &Integer::Int(0)).unwrap()), INT_NAN);
}

#[test]
fn test_machine_integer_overflow_promotes_to_bigint() {
    let a = integer::add(&Integer::Int(9223372036854775807), &Integer::Int(1));
    assert_eq!(expect_big(a), BigInt::from(i64::MAX) + BigInt::from(1));
    let b = integer::sub(&Integer::Int(-9223372036854775807), &Integer::Int(2));
    assert_eq!(expect_big(b), BigInt::from(i64::MIN) - BigInt::from(1));
    let c = integer::mul(&Integer::Int(3037000500), &Integer::Int(3037000500));
    assert_eq!(expect_big(c), BigInt::from(3037000500i64) * BigInt::from(3037000500i64));
    let f = integer::power(&Integer::Int(2), &Integer::Int(63)).unwrap().unwrap();
    assert_eq!(expect_big(f), BigInt::from(2).pow(63));
}

#[test]
fn test_integer_special_negation_preserves_sentinels() {
    assert_eq!(expect_int(integer::negate(&Integer::Int(INT_POS_INF))), INT_NEG_INF);
    assert_eq!(expect_int(integer::negate(&Integer::Int(INT_NAN))), INT_NAN);
}
