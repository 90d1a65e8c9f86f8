//! Lucid's integers: machine words that widen to arbitrary precision, and
//! the integer arms of the binary and unary operators.
use vstd::prelude::*;
use num_bigint::BigInt;
use crate::bigint::{
    big_value, big_from_i64, big_clone, big_add, big_sub, big_mul, big_div, big_rem, big_sign,
    big_is_zero, big_one, big_eq, big_bitand, big_shr_one, big_pow, big_neg, big_abs, big_lt, big_le, big_gt, big_ge, trunc_div,
    trunc_rem, big_modpow,
};
use vstd::arithmetic::power::{pow, lemma_pow0, lemma_pow1, lemma_pow_adds, lemma_pow_multiplies, lemma_square_is_pow2};
use vstd::arithmetic::div_mod::{lemma_fundamental_div_mod, lemma_fundamental_div_mod_converse, lemma_mul_mod_noop, lemma_mod_twice, lemma_small_mod};
use vstd::arithmetic::power::lemma_pow_mod_noop;
use crate::error::{RuntimeError, runtime_error};

verus! {

/// The `int` sentinel that stands for positive infinity.
pub const INT_POS_INF: i64 = 9223372036854775807i64;
/// The `int` sentinel that stands for negative infinity.
pub const INT_NEG_INF: i64 = -9223372036854775807i64;
/// The `int` sentinel that stands for "not a number".
pub const INT_NAN: i64 = -9223372036854775808i64;

/// A Lucid `int`: a machine word, or an arbitrary-precision integer once a
/// result leaves the `i64` range.
#[derive(Debug)]
pub enum Integer {
    Int(i64),
    Big(BigInt),
}

impl Integer {
    /// The mathematical integer this value stands for.
    pub open spec fn value(self) -> int {
        match self {
            Integer::Int(v) => v as int,
            Integer::Big(b) => big_value(b),
        }
    }
}

/// Converts either operand to arbitrary precision.
fn to_big(a: &Integer) -> (r: BigInt)
    ensures
        big_value(r) == a.value(),
{
    match a {
        Integer::Int(v) => big_from_i64(*v),
        Integer::Big(b) => big_clone(b),
    }
}

/// `a + b`: machine addition while the sum fits an `i64`, arbitrary
/// precision when it overflows or when either operand already is.
pub fn add(a: &Integer, b: &Integer) -> (r: Integer)
    ensures
        r.value() == a.value() + b.value(),
        r is Int <==> (a is Int && b is Int && i64::MIN <= a.value() + b.value() <= i64::MAX),
{
    match (a, b) {
        (Integer::Int(x), Integer::Int(y)) => match x.checked_add(*y) {
            Some(v) => Integer::Int(v),
            None => Integer::Big(big_add(&big_from_i64(*x), &big_from_i64(*y))),
        },
        _ => Integer::Big(big_add(&to_big(a), &to_big(b))),
    }
}

/// `a - b`, widening exactly as `add` does.
pub fn sub(a: &Integer, b: &Integer) -> (r: Integer)
    ensures
        r.value() == a.value() - b.value(),
        r is Int <==> (a is Int && b is Int && i64::MIN <= a.value() - b.value() <= i64::MAX),
{
    match (a, b) {
        (Integer::Int(x), Integer::Int(y)) => match x.checked_sub(*y) {
            Some(v) => Integer::Int(v),
            None => Integer::Big(big_sub(&big_from_i64(*x), &big_from_i64(*y))),
        },
        _ => Integer::Big(big_sub(&to_big(a), &to_big(b))),
    }
}

/// `a * b`, widening exactly as `add` does.
pub fn mul(a: &Integer, b: &Integer) -> (r: Integer)
    ensures
        r.value() == a.value() * b.value(),
        r is Int <==> (a is Int && b is Int && i64::MIN <= a.value() * b.value() <= i64::MAX),
{
    match (a, b) {
        (Integer::Int(x), Integer::Int(y)) => match x.checked_mul(*y) {
            Some(v) => Integer::Int(v),
            None => Integer::Big(big_mul(&big_from_i64(*x), &big_from_i64(*y))),
        },
        _ => Integer::Big(big_mul(&to_big(a), &to_big(b))),
    }
}


/// Floor division: the quotient rounded toward negative infinity. (On
/// `int`, Verus's `/` is Euclidean, which is the floor for a positive
/// divisor.)
pub open spec fn floor_div(a: int, b: int) -> int {
    if b > 0 { a / b } else { (-a) / (-b) }
}

/// The remainder that goes with `floor_div`; it takes the sign of `b`.
pub open spec fn floor_mod(a: int, b: int) -> int {
    a - b * floor_div(a, b)
}

/// The value that `//` and `%` give on a machine-word zero divisor.
pub open spec fn zero_divisor_sentinel(a: int) -> i64 {
    if a == 0 { INT_NAN } else if a < 0 { INT_NEG_INF } else { INT_POS_INF }
}

/// Rounding the truncated quotient down once, where the remainder is
/// non-zero and the signs differ, gives the floor quotient; adding the
/// divisor to such a remainder gives the floor remainder.
proof fn lemma_floor_from_trunc(a: int, b: int)
    requires
        b != 0,
    ensures
        floor_div(a, b) == (if trunc_rem(a, b) != 0 && ((a < 0) != (b < 0)) {
            trunc_div(a, b) - 1
        } else {
            trunc_div(a, b)
        }),
        floor_mod(a, b) == (if trunc_rem(a, b) != 0 && ((a < 0) != (b < 0)) {
            trunc_rem(a, b) + b
        } else {
            trunc_rem(a, b)
        }),
{
    if b > 0 {
        if a >= 0 {
            lemma_fundamental_div_mod(a, b);
            assert(trunc_rem(a, b) == a % b);
        } else {
            lemma_fundamental_div_mod(-a, b);
            let q = (-a) / b;
            let r = (-a) % b;
            assert(trunc_div(a, b) == -q);
            assert(trunc_rem(a, b) == -r) by (nonlinear_arith)
                requires -a == b * q + r, trunc_rem(a, b) == a - b * (-q);
            if r == 0 {
                assert(a == (-q) * b + 0) by (nonlinear_arith)
                    requires -a == b * q + r, r == 0;
                lemma_fundamental_div_mod_converse(a, b, -q, 0);
            } else {
                assert(a == (-q - 1) * b + (b - r)) by (nonlinear_arith)
                    requires -a == b * q + r;
                lemma_fundamental_div_mod_converse(a, b, -q - 1, b - r);
                assert(floor_mod(a, b) == b - r) by (nonlinear_arith)
                    requires floor_mod(a, b) == a - b * (-q - 1), -a == b * q + r;
            }
        }
    } else {
        let c = -b;
        if a >= 0 {
            lemma_fundamental_div_mod(a, c);
            let q = a / c;
            let r = a % c;
            assert(trunc_div(a, b) == -q);
            assert(trunc_rem(a, b) == r) by (nonlinear_arith)
                requires a == c * q + r, trunc_rem(a, b) == a - b * (-q), c == -b;
            if r == 0 {
                assert(-a == (-q) * c + 0) by (nonlinear_arith)
                    requires a == c * q + r, r == 0;
                lemma_fundamental_div_mod_converse(-a, c, -q, 0);
                assert(floor_div(a, b) == -q);
            } else {
                assert(-a == (-q - 1) * c + (c - r)) by (nonlinear_arith)
                    requires a == c * q + r;
                lemma_fundamental_div_mod_converse(-a, c, -q - 1, c - r);
                assert(floor_div(a, b) == -q - 1);
                assert(floor_mod(a, b) == r + b) by (nonlinear_arith)
                    requires floor_mod(a, b) == a - b * (-q - 1), a == c * q + r, c == -b;
            }
        } else {
            lemma_fundamental_div_mod(-a, c);
            let q = (-a) / c;
            let r = (-a) % c;
            assert(trunc_div(a, b) == q);
            assert(floor_div(a, b) == q);
        }
    }
}

/// The arbitrary-precision arm of `//` and `%`: the truncated quotient and
/// remainder from num-bigint, rounded toward negative infinity.
fn big_floor_div_mod(a: &BigInt, b: &BigInt) -> (r: (BigInt, BigInt))
    requires
        big_value(*b) != 0,
    ensures
        big_value(r.0) == floor_div(big_value(*a), big_value(*b)),
        big_value(r.1) == floor_mod(big_value(*a), big_value(*b)),
{
    let q = big_div(a, b);
    let r = big_rem(a, b);
    proof {
        lemma_floor_from_trunc(big_value(*a), big_value(*b));
    }
    if !big_is_zero(&r) && big_sign(a) != big_sign(b) {
        (big_sub(&q, &big_one()), big_add(&r, b))
    } else {
        (q, r)
    }
}

/// `a // b`. On machine words a zero divisor gives a sentinel (`int.nan`
/// for `0 // 0`, else `int.inf` with the sign of `a`), the quotient is
/// Euclidean, and `i64::MIN // -1` is an overflow error. With an
/// arbitrary-precision operand a zero divisor gives `int.nan` and the
/// quotient is the floor.
pub fn floor_divide(a: &Integer, b: &Integer) -> (r: Result<Integer, RuntimeError>)
    ensures
        match (*a, *b) {
            (Integer::Int(x), Integer::Int(y)) => if y == 0 {
                r == Ok::<Integer, RuntimeError>(Integer::Int(zero_divisor_sentinel(x as int)))
            } else if x == i64::MIN && y == -1 {
                r is Err && r->Err_0.message@ == "integer overflow in //"@
            } else {
                r matches Ok(v) && v == Integer::Int((x / y) as i64) && v.value() == x as int / y as int
            },
            _ => if b.value() == 0 {
                r == Ok::<Integer, RuntimeError>(Integer::Int(INT_NAN))
            } else {
                r matches Ok(v) && v is Big && v.value() == floor_div(a.value(), b.value())
            },
        },
{
    match (a, b) {
        (Integer::Int(x), Integer::Int(y)) => {
            if *y == 0 {
                Ok(Integer::Int(if *x == 0 { INT_NAN } else if *x < 0 { INT_NEG_INF } else { INT_POS_INF }))
            } else {
                match x.checked_div_euclid(*y) {
                    Some(v) => Ok(Integer::Int(v)),
                    None => {
                        proof {
                            if !(*x == i64::MIN && *y == -1) {
                                lemma_euclid_quotient_fits(*x, *y);
                            }
                        }
                        Err(runtime_error("integer overflow in //"))
                    },
                }
            }
        },
        _ => {
            let bb = to_big(b);
            if big_is_zero(&bb) {
                Ok(Integer::Int(INT_NAN))
            } else {
                let (q, _rem) = big_floor_div_mod(&to_big(a), &bb);
                Ok(Integer::Big(q))
            }
        },
    }
}

/// The Euclidean quotient of two machine words fits a machine word, except
/// for `i64::MIN / -1`.
proof fn lemma_euclid_quotient_fits(x: i64, y: i64)
    requires
        y != 0,
        !(x == i64::MIN && y == -1),
    ensures
        i64::MIN <= x as int / y as int <= i64::MAX,
{
    let xi = x as int;
    let yi = y as int;
    lemma_fundamental_div_mod(xi, yi);
    let q = xi / yi;
    let r = xi % yi;
    assert(0 <= r < if yi > 0 { yi } else { -yi });
    if yi > 0 {
        assert(i64::MIN <= q <= i64::MAX) by (nonlinear_arith)
            requires xi == yi * q + r, 0 <= r < yi, yi >= 1, i64::MIN <= xi <= i64::MAX;
    } else if yi == -1 {
        assert(q == -xi) by (nonlinear_arith)
            requires xi == yi * q + r, 0 <= r < 1, yi == -1;
    } else {
        assert(i64::MIN <= q <= i64::MAX) by (nonlinear_arith)
            requires xi == yi * q + r, 0 <= r < -yi, yi <= -2, i64::MIN <= xi <= i64::MAX;
    }
}

/// `a % b`. On machine words a zero divisor gives `int.nan`, the remainder
/// is Euclidean (never negative), and `i64::MIN % -1` is an overflow error.
/// With an arbitrary-precision operand a zero divisor gives `int.nan` and
/// the remainder is the floor remainder, with the sign of `b`.
pub fn modulo(a: &Integer, b: &Integer) -> (r: Result<Integer, RuntimeError>)
    ensures
        match (*a, *b) {
            (Integer::Int(x), Integer::Int(y)) => if y == 0 {
                r == Ok::<Integer, RuntimeError>(Integer::Int(INT_NAN))
            } else if x == i64::MIN && y == -1 {
                r is Err && r->Err_0.message@ == "integer overflow in %"@
            } else {
                r matches Ok(v) && v == Integer::Int((x % y) as i64) && v.value() == x as int % y as int
            },
            _ => if b.value() == 0 {
                r == Ok::<Integer, RuntimeError>(Integer::Int(INT_NAN))
            } else {
                r matches Ok(v) && v is Big && v.value() == floor_mod(a.value(), b.value())
            },
        },
{
    match (a, b) {
        (Integer::Int(x), Integer::Int(y)) => {
            if *y == 0 {
                Ok(Integer::Int(INT_NAN))
            } else {
                match x.checked_rem_euclid(*y) {
                    Some(v) => Ok(Integer::Int(v)),
                    None => Err(runtime_error("integer overflow in %")),
                }
            }
        },
        _ => {
            let bb = to_big(b);
            if big_is_zero(&bb) {
                Ok(Integer::Int(INT_NAN))
            } else {
                let (_quo, m) = big_floor_div_mod(&to_big(a), &bb);
                Ok(Integer::Big(m))
            }
        },
    }
}


/// One more factor: `pow(a, e + 1) == a * pow(a, e)`.
proof fn lemma_pow_step(a: int, e: nat)
    ensures
        pow(a, e + 1) == a * pow(a, e),
{
    reveal(pow);
}

/// For a base of magnitude at least one, powers only grow in magnitude.
proof fn lemma_pow_magnitude_grows(a: int, m: nat, e: nat)
    requires
        a >= 1 || a <= -1,
        m <= e,
    ensures
        (if pow(a, m) < 0 { -pow(a, m) } else { pow(a, m) }) <= (if pow(a, e) < 0 { -pow(a, e) } else { pow(a, e) }),
    decreases e - m,
{
    if m < e {
        let e1 = (e - 1) as nat;
        lemma_pow_magnitude_grows(a, m, e1);
        lemma_pow_step(a, e1);
        let p = pow(a, e1);
        let q = pow(a, e);
        assert((if p < 0 { -p } else { p }) <= (if q < 0 { -q } else { q })) by (nonlinear_arith)
            requires q == a * p, a >= 1 || a <= -1;
    }
}

/// Once a power leaves the `i64` range, every higher power is outside it
/// too.
proof fn lemma_pow_overflow_persists(a: int, m: nat, e: nat)
    requires
        m <= e,
        pow(a, m) < i64::MIN || pow(a, m) > i64::MAX,
    ensures
        pow(a, e) < i64::MIN || pow(a, e) > i64::MAX,
{
    if m < e {
        if -1 <= a <= 1 {
            lemma_pow_small_base(a, m);
            assert(false);
        }
        let m1 = (m + 1) as nat;
        lemma_pow_step(a, m);
        let p = pow(a, m);
        let q = pow(a, m1);
        assert(q >= 0x1_0000_0000_0000_0000 || q <= -0x1_0000_0000_0000_0000) by (nonlinear_arith)
            requires q == a * p, a >= 2 || a <= -2, p < -0x8000_0000_0000_0000 || p > 0x7fff_ffff_ffff_ffff;
        lemma_pow_magnitude_grows(a, m1, e);
    }
}

/// A base of magnitude at most one has powers of magnitude at most one.
proof fn lemma_pow_small_base(a: int, e: nat)
    requires
        -1 <= a <= 1,
    ensures
        -1 <= pow(a, e) <= 1,
    decreases e,
{
    reveal(pow);
    if e > 0 {
        lemma_pow_small_base(a, (e - 1) as nat);
        let p = pow(a, (e - 1) as nat);
        assert(-1 <= a * p <= 1) by (nonlinear_arith)
            requires -1 <= a <= 1, -1 <= p <= 1;
    }
}

/// `a` raised to `exp` when the power fits an `i64`, else `None`, as
/// `i64::checked_pow` gives it: by repeated checked multiplication, which
/// overflows exactly when the power does not fit.
fn i64_checked_pow(a: i64, exp: u32) -> (r: Option<i64>)
    ensures
        match r {
            Some(v) => v as int == pow(a as int, exp as nat),
            None => pow(a as int, exp as nat) < i64::MIN || pow(a as int, exp as nat) > i64::MAX,
        },
{
    let mut acc: i64 = 1;
    let mut k: u32 = 0;
    proof {
        lemma_pow0(a as int);
    }
    while k < exp
        invariant
            k <= exp,
            acc as int == pow(a as int, k as nat),
        decreases exp - k,
    {
        proof {
            lemma_pow_step(a as int, k as nat);
        }
        match acc.checked_mul(a) {
            Some(next) => {
                acc = next;
                k += 1;
            },
            None => {
                proof {
                    lemma_pow_overflow_persists(a as int, (k + 1) as nat, exp as nat);
                }
                return None;
            },
        }
    }
    Some(acc)
}

/// One step of exponentiation by squaring: splitting off the lowest bit of
/// the exponent.
proof fn lemma_pow_halving(p: int, e: nat)
    ensures
        pow(p, e) == (if e % 2 == 1 { p } else { 1 }) * pow(p * p, e / 2),
{
    let k = e / 2;
    lemma_square_is_pow2(p);
    lemma_pow_multiplies(p, 2, k);
    assert(2 * k + e % 2 == e);
    lemma_pow_adds(p, (e % 2) as nat, 2 * k);
    if e % 2 == 1 {
        lemma_pow1(p);
    } else {
        lemma_pow0(p);
    }
}

/// Raises an arbitrary-precision base to a non-negative arbitrary-precision
/// exponent by repeated squaring.
fn big_pow_by_squaring(base: &BigInt, exp: &BigInt) -> (r: BigInt)
    requires
        big_value(*exp) >= 0,
    ensures
        big_value(r) == pow(big_value(*base), big_value(*exp) as nat),
{
    let mut power = big_clone(base);
    let mut exponent = big_clone(exp);
    let mut result = big_one();
    proof {
        lemma_pow0(big_value(power));
    }
    while !big_is_zero(&exponent)
        invariant
            big_value(exponent) >= 0,
            big_value(result) * pow(big_value(power), big_value(exponent) as nat)
                == pow(big_value(*base), big_value(*exp) as nat),
        decreases big_value(exponent),
    {
        let ghost p = big_value(power);
        let ghost e = big_value(exponent) as nat;
        let ghost res = big_value(result);
        proof {
            lemma_pow_halving(p, e);
        }
        let one = big_one();
        if big_eq(&big_bitand(&exponent, &one), &one) {
            result = big_mul(&result, &power);
        }
        exponent = big_shr_one(&exponent);
        if !big_is_zero(&exponent) {
            power = big_mul(&power, &power);
        } else {
            proof {
                lemma_pow0(p);
                lemma_pow0(p * p);
            }
        }
        proof {
            assert(big_value(result) == res * (if e % 2 == 1 { p } else { 1 }));
            assert(big_value(exponent) == e / 2);
            assert(res * pow(p, e) == big_value(result) * pow(p * p, e / 2)) by (nonlinear_arith)
                requires
                    pow(p, e) == (if e % 2 == 1 { p } else { 1 }) * pow(p * p, e / 2),
                    big_value(result) == res * (if e % 2 == 1 { p } else { 1 });
        }
    }
    proof {
        lemma_pow0(big_value(power));
    }
    result
}

/// Raises an arbitrary-precision base to a machine-word exponent by
/// repeated squaring.
fn big_pow_by_squaring_u64(base: &BigInt, exp: u64) -> (r: BigInt)
    ensures
        big_value(r) == pow(big_value(*base), exp as nat),
{
    let mut power = big_clone(base);
    let mut exponent: u64 = exp;
    let mut result = big_one();
    proof {
        lemma_pow0(big_value(power));
    }
    while exponent != 0
        invariant
            big_value(result) * pow(big_value(power), exponent as nat)
                == pow(big_value(*base), exp as nat),
        decreases exponent,
    {
        let ghost p = big_value(power);
        let ghost e = exponent as nat;
        let ghost res = big_value(result);
        proof {
            lemma_pow_halving(p, e);
        }
        assert((exponent & 1 == 1) == (exponent % 2 == 1)) by (bit_vector);
        assert(exponent >> 1 == exponent / 2) by (bit_vector);
        if exponent & 1 == 1 {
            result = big_mul(&result, &power);
        }
        exponent = exponent >> 1;
        if exponent != 0 {
            power = big_mul(&power, &power);
        } else {
            proof {
                lemma_pow0(p);
                lemma_pow0(p * p);
            }
        }
        proof {
            assert(res * pow(p, e) == big_value(result) * pow(p * p, e / 2)) by (nonlinear_arith)
                requires
                    pow(p, e) == (if e % 2 == 1 { p } else { 1 }) * pow(p * p, e / 2),
                    big_value(result) == res * (if e % 2 == 1 { p } else { 1 });
        }
    }
    proof {
        lemma_pow0(big_value(power));
    }
    result
}

/// `a ** b` on integers. A negative exponent gives a float, which is not an
/// integer result: `Ok(None)` hands that case back to the caller. A
/// machine-word power that overflows widens to arbitrary precision; a
/// machine-word exponent beyond `u32::MAX` on a machine-word base is an
/// error.
pub fn power(a: &Integer, b: &Integer) -> (r: Result<Option<Integer>, RuntimeError>)
    ensures
        b.value() < 0 ==> r == Ok::<Option<Integer>, RuntimeError>(None),
        b.value() >= 0 && a is Int && b is Int && b.value() > u32::MAX ==> r is Err && r->Err_0.message@
            == "integer exponent is too large"@,
        b.value() >= 0 && !(a is Int && b is Int && b.value() > u32::MAX) ==> (r matches Ok(Some(v))
            && v.value() == pow(a.value(), b.value() as nat)
            && (v is Int <==> (a is Int && b is Int && i64::MIN <= pow(a.value(), b.value() as nat) <= i64::MAX))),
{
    match (a, b) {
        (Integer::Big(base), Integer::Big(exp)) => {
            if big_sign(exp) != -1 {
                Ok(Some(Integer::Big(big_pow_by_squaring(base, exp))))
            } else {
                Ok(None)
            }
        },
        (Integer::Big(base), Integer::Int(exp)) => {
            if *exp >= 0 {
                Ok(Some(Integer::Big(big_pow_by_squaring_u64(base, *exp as u64))))
            } else {
                Ok(None)
            }
        },
        (Integer::Int(base), Integer::Big(exp)) => {
            if big_sign(exp) != -1 {
                Ok(Some(Integer::Big(big_pow_by_squaring(&big_from_i64(*base), exp))))
            } else {
                Ok(None)
            }
        },
        (Integer::Int(x), Integer::Int(y)) => {
            if *y >= 0 {
                match u32::try_from(*y) {
                    Ok(exp) => {
                        match i64_checked_pow(*x, exp) {
                            Some(v) => Ok(Some(Integer::Int(v))),
                            None => Ok(Some(Integer::Big(big_pow(&big_from_i64(*x), exp)))),
                        }
                    },
                    Err(_) => Err(runtime_error("integer exponent is too large")),
                }
            } else {
                Ok(None)
            }
        },
    }
}


/// `a & b`: defined on machine words only.
pub fn bit_and(a: &Integer, b: &Integer) -> (r: Result<Integer, RuntimeError>)
    ensures
        match (*a, *b) {
            (Integer::Int(x), Integer::Int(y)) => r == Ok::<Integer, RuntimeError>(Integer::Int(x & y)),
            _ => r is Err && r->Err_0.message@ == "unsupported operands for &"@,
        },
{
    match (a, b) {
        (Integer::Int(x), Integer::Int(y)) => Ok(Integer::Int(*x & *y)),
        _ => Err(runtime_error("unsupported operands for &")),
    }
}

/// `a | b`: defined on machine words only.
pub fn bit_or(a: &Integer, b: &Integer) -> (r: Result<Integer, RuntimeError>)
    ensures
        match (*a, *b) {
            (Integer::Int(x), Integer::Int(y)) => r == Ok::<Integer, RuntimeError>(Integer::Int(x | y)),
            _ => r is Err && r->Err_0.message@ == "unsupported operands for |"@,
        },
{
    match (a, b) {
        (Integer::Int(x), Integer::Int(y)) => Ok(Integer::Int(*x | *y)),
        _ => Err(runtime_error("unsupported operands for |")),
    }
}

/// `a ^ b`: defined on machine words only.
pub fn bit_xor(a: &Integer, b: &Integer) -> (r: Result<Integer, RuntimeError>)
    ensures
        match (*a, *b) {
            (Integer::Int(x), Integer::Int(y)) => r == Ok::<Integer, RuntimeError>(Integer::Int(x ^ y)),
            _ => r is Err && r->Err_0.message@ == "unsupported operands for ^"@,
        },
{
    match (a, b) {
        (Integer::Int(x), Integer::Int(y)) => Ok(Integer::Int(*x ^ *y)),
        _ => Err(runtime_error("unsupported operands for ^")),
    }
}

/// `a << b` on machine words: a negative count is an error, a count of 64
/// or more gives 0, and otherwise the bits shifted past the top are lost.
pub fn shift_left(a: &Integer, b: &Integer) -> (r: Result<Integer, RuntimeError>)
    ensures
        match (*a, *b) {
            (Integer::Int(x), Integer::Int(y)) => if y < 0 {
                r is Err && r->Err_0.message@ == "negative shift count"@
            } else if y >= 64 {
                r == Ok::<Integer, RuntimeError>(Integer::Int(0))
            } else {
                r == Ok::<Integer, RuntimeError>(Integer::Int(x << y))
            },
            _ => r is Err && r->Err_0.message@ == "unsupported operands for <<"@,
        },
{
    match (a, b) {
        (Integer::Int(x), Integer::Int(y)) => {
            if *y < 0 {
                Err(runtime_error("negative shift count"))
            } else if *y >= 64 {
                Ok(Integer::Int(0))
            } else {
                Ok(Integer::Int(*x << *y))
            }
        },
        _ => Err(runtime_error("unsupported operands for <<")),
    }
}

/// `a >> b` on machine words: a negative count is an error, a count of 64
/// or more gives 0, and otherwise the shift is arithmetic (it rounds toward
/// negative infinity).
pub fn shift_right(a: &Integer, b: &Integer) -> (r: Result<Integer, RuntimeError>)
    ensures
        match (*a, *b) {
            (Integer::Int(x), Integer::Int(y)) => if y < 0 {
                r is Err && r->Err_0.message@ == "negative shift count"@
            } else if y >= 64 {
                r == Ok::<Integer, RuntimeError>(Integer::Int(0))
            } else {
                r == Ok::<Integer, RuntimeError>(Integer::Int(x >> y))
            },
            _ => r is Err && r->Err_0.message@ == "unsupported operands for >>"@,
        },
{
    match (a, b) {
        (Integer::Int(x), Integer::Int(y)) => {
            if *y < 0 {
                Err(runtime_error("negative shift count"))
            } else if *y >= 64 {
                Ok(Integer::Int(0))
            } else {
                Ok(Integer::Int(*x >> *y))
            }
        },
        _ => Err(runtime_error("unsupported operands for >>")),
    }
}

/// Unary `-`: the infinity sentinels swap, the `int.nan` sentinel stays
/// itself (the machine word's wrapping negation), every other machine word
/// is negated, and an arbitrary-precision value is negated.
pub fn negate(a: &Integer) -> (r: Integer)
    ensures
        match *a {
            Integer::Int(x) => r is Int && r.value() == if x == INT_NAN { INT_NAN as int } else { -x },
            Integer::Big(_) => r is Big && r.value() == -a.value(),
        },
{
    match a {
        Integer::Int(x) => Integer::Int(
            if *x == INT_POS_INF {
                INT_NEG_INF
            } else if *x == INT_NEG_INF {
                INT_POS_INF
            } else if *x == INT_NAN {
                INT_NAN
            } else {
                -*x
            },
        ),
        Integer::Big(b) => Integer::Big(big_neg(b)),
    }
}

/// Unary `~`: bitwise inversion of a machine word, `-n - 1` for an
/// arbitrary-precision value.
pub fn invert(a: &Integer) -> (r: Integer)
    ensures
        r.value() == -a.value() - 1,
        r is Int <==> a is Int,
{
    match a {
        Integer::Int(x) => {
            assert(!*x == -*x - 1) by (bit_vector);
            Integer::Int(!*x)
        },
        Integer::Big(b) => Integer::Big(big_sub(&big_neg(b), &big_one())),
    }
}

/// `abs(a)`: `int.nan` stays `int.nan`, `-int.inf` becomes `int.inf`, and
/// every other value loses its sign.
pub fn absolute(a: &Integer) -> (r: Integer)
    ensures
        *a == Integer::Int(INT_NAN) ==> r == Integer::Int(INT_NAN),
        *a != Integer::Int(INT_NAN) ==> r.value() == (if a.value() < 0 { -a.value() } else { a.value() }),
        r is Int <==> a is Int,
{
    match a {
        Integer::Int(x) => Integer::Int(
            if *x == INT_NAN { INT_NAN } else if *x == INT_NEG_INF { INT_POS_INF } else if *x < 0 { -*x } else { *x },
        ),
        Integer::Big(b) => Integer::Big(big_abs(b)),
    }
}

/// `a == b` on integers, whichever representation each is held in.
pub fn equals(a: &Integer, b: &Integer) -> (r: bool)
    ensures
        r == (a.value() == b.value()),
{
    match (a, b) {
        (Integer::Int(x), Integer::Int(y)) => *x == *y,
        _ => big_eq(&to_big(a), &to_big(b)),
    }
}

/// `a < b` on integers.
pub fn less_than(a: &Integer, b: &Integer) -> (r: bool)
    ensures
        r == (a.value() < b.value()),
{
    match (a, b) {
        (Integer::Int(x), Integer::Int(y)) => *x < *y,
        _ => big_lt(&to_big(a), &to_big(b)),
    }
}

/// `a <= b` on integers.
pub fn less_equal(a: &Integer, b: &Integer) -> (r: bool)
    ensures
        r == (a.value() <= b.value()),
{
    match (a, b) {
        (Integer::Int(x), Integer::Int(y)) => *x <= *y,
        _ => big_le(&to_big(a), &to_big(b)),
    }
}

/// `a > b` on integers.
pub fn greater_than(a: &Integer, b: &Integer) -> (r: bool)
    ensures
        r == (a.value() > b.value()),
{
    match (a, b) {
        (Integer::Int(x), Integer::Int(y)) => *x > *y,
        _ => big_gt(&to_big(a), &to_big(b)),
    }
}

/// `a >= b` on integers.
pub fn greater_equal(a: &Integer, b: &Integer) -> (r: bool)
    ensures
        r == (a.value() >= b.value()),
{
    match (a, b) {
        (Integer::Int(x), Integer::Int(y)) => *x >= *y,
        _ => big_ge(&to_big(a), &to_big(b)),
    }
}

/// Truthiness of an integer: everything but zero is true.
pub fn is_truthy(a: &Integer) -> (r: bool)
    ensures
        r == (a.value() != 0),
{
    match a {
        Integer::Int(x) => *x != 0,
        Integer::Big(b) => !big_is_zero(b),
    }
}


/// The magnitude of `m`.
pub open spec fn magnitude(m: int) -> int {
    if m < 0 { -m } else { m }
}

/// `a % m` on 128-bit words, Euclidean (never negative) for a positive `m`.
fn rem_i128(a: i128, m: i128) -> (r: i128)
    requires
        m > 0,
    ensures
        r as int == a as int % m as int,
        0 <= r < m,
{
    match a.checked_rem_euclid(m) {
        Some(v) => v,
        None => {
            proof {
                assert(false);
            }
            0
        },
    }
}

/// One step of modular exponentiation by squaring keeps the product of the
/// running result and the remaining power, modulo `m`.
proof fn lemma_pow_mod_step(res: int, p: int, e: nat, m: int)
    requires
        m > 0,
    ensures
        ((if e % 2 == 1 { (res * p) % m } else { res }) * pow((p * p) % m, e / 2)) % m == (res * pow(p, e)) % m,
{
    lemma_pow_halving(p, e);
    let b = if e % 2 == 1 { p } else { 1 };
    let rest = pow(p * p, e / 2);
    let nr = if e % 2 == 1 { (res * p) % m } else { res };
    let nf = pow((p * p) % m, e / 2);
    lemma_pow_mod_noop(p * p, e / 2, m);
    assert(res * pow(p, e) == (res * b) * rest) by (nonlinear_arith)
        requires
            pow(p, e) == b * rest;
    lemma_mul_mod_noop(nr, nf, m);
    lemma_mul_mod_noop(res * b, rest, m);
    if e % 2 == 1 {
        lemma_mod_twice(res * p, m);
    }
}

/// `pow(base, exp, modulus)` with integer arguments: `base ** exp` reduced
/// modulo the modulus's magnitude, so never negative. A zero modulus is an
/// error and a negative exponent gives `int.nan`. On machine words an
/// exponent of 0 gives 1 whatever the modulus; otherwise the result is an
/// arbitrary-precision value.
pub fn pow_mod(base: &Integer, exp: &Integer, modulus: &Integer) -> (r: Result<Integer, RuntimeError>)
    ensures
        modulus.value() == 0 ==> r is Err && r->Err_0.message@
            == "three-argument pow() requires int arguments and a nonzero modulus"@,
        modulus.value() != 0 && exp.value() < 0 ==> r == Ok::<Integer, RuntimeError>(Integer::Int(INT_NAN)),
        modulus.value() != 0 && exp.value() >= 0 ==> (r matches Ok(v) && if base is Int && exp is Int && modulus is Int {
            v is Int && v.value() == (if exp.value() == 0 { 1 } else {
                pow(base.value(), exp.value() as nat) % magnitude(modulus.value())
            })
        } else {
            v is Big && v.value() == pow(base.value(), exp.value() as nat) % magnitude(modulus.value())
        }),
{
    match (base, exp, modulus) {
        (Integer::Int(b), Integer::Int(e), Integer::Int(m)) => {
            if *m != 0 {
                if *e < 0 {
                    return Ok(Integer::Int(INT_NAN));
                }
                let mm: i128 = if *m < 0 { -(*m as i128) } else { *m as i128 };
                let mut result: i128 = 1;
                let mut factor: i128 = rem_i128(*b as i128, mm);
                let mut power: u64 = *e as u64;
                let ghost mut reduced = false;
                proof {
                    lemma_pow0(factor as int);
                    lemma_pow_mod_noop(*b as int, power as nat, mm as int);
                    lemma_mod_twice(pow(*b as int, power as nat), mm as int);
                }
                while power != 0
                    invariant
                        mm as int == magnitude(*m as int),
                        0 < mm <= 9223372036854775808,
                        0 <= factor < mm,
                        reduced ==> 0 <= result < mm && *e != 0,
                        *e >= 0,
                        *e == 0 ==> power == 0,
                        !reduced ==> result == 1 && (power > 0 || *e == 0),
                        (result * pow(factor as int, power as nat)) % (mm as int) == pow(*b as int, *e as nat) % (mm as int),
                    decreases power,
                {
                    let ghost res = result as int;
                    let ghost p = factor as int;
                    let ghost ex = power as nat;
                    proof {
                        lemma_pow_mod_step(res, p, ex, mm as int);
                    }
                    assert((power & 1 == 1) == (power % 2 == 1)) by (bit_vector);
                    assert(power >> 1 == power / 2) by (bit_vector);
                    if power & 1 == 1 {
                        assert(0 <= result * factor <= (mm - 1) * (mm - 1)) by (nonlinear_arith)
                            requires
                                0 <= result < mm || result == 1,
                                0 <= factor < mm,
                                mm > 0;
                        assert((mm - 1) * (mm - 1) <= 9223372036854775807 * 9223372036854775807) by (nonlinear_arith)
                            requires
                                0 < mm <= 9223372036854775808;
                        result = rem_i128(result * factor, mm);
                        proof {
                            reduced = true;
                        }
                    }
                    assert(0 <= factor * factor <= (mm - 1) * (mm - 1)) by (nonlinear_arith)
                        requires
                            0 <= factor < mm;
                    assert((mm - 1) * (mm - 1) <= 9223372036854775807 * 9223372036854775807) by (nonlinear_arith)
                        requires
                            0 < mm <= 9223372036854775808;
                    factor = rem_i128(factor * factor, mm);
                    power = power >> 1;
                }
                proof {
                    lemma_pow0(factor as int);
                    assert(result * pow(factor as int, 0) == result);
                    if reduced {
                        lemma_small_mod(result as nat, mm as nat);
                        assert(result as int == pow(*b as int, *e as nat) % (mm as int));
                    } else {
                        lemma_pow0(*b as int);
                    }
                }
                return Ok(Integer::Int(result as i64));
            }
        },
        _ => {},
    }
    let m = to_big(modulus);
    if big_is_zero(&m) {
        return Err(runtime_error("three-argument pow() requires int arguments and a nonzero modulus"));
    }
    let e = to_big(exp);
    if big_sign(&e) == -1 {
        return Ok(Integer::Int(INT_NAN));
    }
    let r = big_modpow(&to_big(base), &e, &big_abs(&m));
    Ok(Integer::Big(r))
}

/// Floor division and its remainder recombine into the dividend, and the
/// remainder is smaller than the divisor: on machine words the remainder
/// is never negative (Euclidean division); at arbitrary precision it takes
/// the sign of the divisor (floor division).
pub proof fn law_division_recombines(a: int, b: int)
    requires
        b != 0,
    ensures
        b * (a / b) + a % b == a,
        0 <= a % b < magnitude(b),
        b * floor_div(a, b) + floor_mod(a, b) == a,
        b > 0 ==> 0 <= floor_mod(a, b) < b,
        b < 0 ==> b < floor_mod(a, b) <= 0,
{
    vstd::arithmetic::div_mod::lemma_fundamental_div_mod(a, b);
    if b < 0 {
        vstd::arithmetic::div_mod::lemma_fundamental_div_mod(-a, -b);
        assert(floor_mod(a, b) == -((-a) % (-b))) by (nonlinear_arith)
            requires
                floor_div(a, b) == (-a) / (-b),
                floor_mod(a, b) == a - b * floor_div(a, b),
                (-b) * ((-a) / (-b)) + (-a) % (-b) == -a;
    }
}
} // verus!
