//! Arbitrary-precision integers from `num_bigint`, seen through the
//! mathematical integer that each `BigInt` holds.
use vstd::prelude::*;
use vstd::arithmetic::power::pow;
use num_bigint::BigInt;
use num_bigint::Sign;
use num_traits::{One, Signed, ToPrimitive, Zero};

verus! {

/// `num_bigint::BigInt`, carried through the library as an opaque value.
#[verifier::external_type_specification]
#[verifier::external_body]
pub struct ExBigInt(BigInt);

/// The mathematical integer that a `BigInt` holds.
pub uninterp spec fn big_value(b: BigInt) -> int;

/// The value of a digit character: `0`-`9`, then `a`-`z` or `A`-`Z` for
/// 10 to 35.
pub open spec fn digit_value(c: char) -> Option<int> {
    if '0' <= c <= '9' {
        Some(c as int - '0' as int)
    } else if 'a' <= c <= 'z' {
        Some(c as int - 'a' as int + 10)
    } else if 'A' <= c <= 'Z' {
        Some(c as int - 'A' as int + 10)
    } else {
        None
    }
}

/// Every character of `s` is `_` or a digit below `radix`.
pub open spec fn all_digits(s: Seq<char>, radix: u32) -> bool {
    forall|i: int| 0 <= i < s.len() ==> (#[trigger] s[i] == '_' || (digit_value(s[i]) matches Some(d) && d < radix))
}

/// The number the digits of `s` spell in base `radix`, most significant
/// first, `_` skipped.
pub open spec fn digits_number(s: Seq<char>, radix: u32) -> int
    decreases s.len(),
{
    if s.len() == 0 {
        0
    } else if s.last() == '_' {
        digits_number(s.drop_last(), radix)
    } else {
        digits_number(s.drop_last(), radix) * radix + digit_value(s.last())->Some_0
    }
}

/// What `BigUint::from_str_radix` makes of `s`: one leading `+` is dropped
/// unless another follows it; what is left must be non-empty, must not
/// start with `_`, and must hold only `_` and digits below `radix`.
pub open spec fn unsigned_in_radix(s: Seq<char>, radix: u32) -> Option<int> {
    let body = if s.len() > 0 && s[0] == '+' && !(s.len() > 1 && s[1] == '+') { s.drop_first() } else { s };
    if body.len() == 0 || body[0] == '_' || !all_digits(body, radix) {
        None
    } else {
        Some(digits_number(body, radix))
    }
}

/// What `BigInt::parse_bytes` makes of the characters `digits` in base
/// `radix`: a leading `-` (not followed by `+`) negates what follows, read
/// as `unsigned_in_radix` reads it; `None` where the characters spell no
/// integer.
pub open spec fn parsed_in_radix(digits: Seq<char>, radix: u32) -> Option<int> {
    if digits.len() > 0 && digits[0] == '-' && !(digits.len() > 1 && digits[1] == '+') {
        match unsigned_in_radix(digits.drop_first(), radix) {
            Some(v) => Some(-v),
            None => None,
        }
    } else {
        unsigned_in_radix(digits, radix)
    }
}

/// Quotient of `a` by `b` rounded toward zero (the `/` of Rust integers).
pub open spec fn trunc_div(a: int, b: int) -> int {
    if a >= 0 {
        if b > 0 { a / b } else { -(a / (-b)) }
    } else {
        if b > 0 { -((-a) / b) } else { (-a) / (-b) }
    }
}

/// Remainder that goes with `trunc_div`; it takes the sign of `a`.
pub open spec fn trunc_rem(a: int, b: int) -> int {
    a - b * trunc_div(a, b)
}

/// The decimal digits of a natural number, most significant first.
pub open spec fn decimal_digits(n: nat) -> Seq<u8>
    decreases n,
{
    if n < 10 {
        seq![(48 + n) as u8]
    } else {
        decimal_digits(n / 10).push((48 + n % 10) as u8)
    }
}

/// The decimal spelling of an integer, with a leading `-` when negative.
pub open spec fn decimal_spelling(i: int) -> Seq<u8> {
    if i < 0 {
        seq![45u8] + decimal_digits((-i) as nat)
    } else {
        decimal_digits(i as nat)
    }
}

/// `BigInt::from(i64)`: the `From<i64>` impl builds the integer with the
/// same value.
#[verifier::external_body]
pub(crate) fn big_from_i64(v: i64) -> (r: BigInt)
    ensures
        big_value(r) == v as int,
{
    BigInt::from(v)
}

/// `BigInt::one()` (num-traits `One`): the integer 1.
#[verifier::external_body]
pub(crate) fn big_one() -> (r: BigInt)
    ensures
        big_value(r) == 1,
{
    BigInt::one()
}

/// `BigInt::clone`: a copy holding the same integer.
#[verifier::external_body]
pub(crate) fn big_clone(a: &BigInt) -> (r: BigInt)
    ensures
        big_value(r) == big_value(*a),
{
    a.clone()
}

/// `&BigInt + &BigInt` (`Add`): exact addition.
#[verifier::external_body]
pub(crate) fn big_add(a: &BigInt, b: &BigInt) -> (r: BigInt)
    ensures
        big_value(r) == big_value(*a) + big_value(*b),
{
    a + b
}

/// `&BigInt - &BigInt` (`Sub`): exact subtraction.
#[verifier::external_body]
pub(crate) fn big_sub(a: &BigInt, b: &BigInt) -> (r: BigInt)
    ensures
        big_value(r) == big_value(*a) - big_value(*b),
{
    a - b
}

/// `&BigInt * &BigInt` (`Mul`): exact multiplication.
#[verifier::external_body]
pub(crate) fn big_mul(a: &BigInt, b: &BigInt) -> (r: BigInt)
    ensures
        big_value(r) == big_value(*a) * big_value(*b),
{
    a * b
}

/// `&BigInt / &BigInt` (`Div`, through `div_rem`): the quotient rounded
/// toward zero. It panics on a zero divisor, which `requires` leaves out.
#[verifier::external_body]
pub(crate) fn big_div(a: &BigInt, b: &BigInt) -> (r: BigInt)
    requires
        big_value(*b) != 0,
    ensures
        big_value(r) == trunc_div(big_value(*a), big_value(*b)),
{
    a / b
}

/// `&BigInt % &BigInt` (`Rem`, through `div_rem`): the remainder with the
/// sign of the dividend. It panics on a zero divisor, left out here.
#[verifier::external_body]
pub(crate) fn big_rem(a: &BigInt, b: &BigInt) -> (r: BigInt)
    requires
        big_value(*b) != 0,
    ensures
        big_value(r) == trunc_rem(big_value(*a), big_value(*b)),
{
    a % b
}

/// `-&BigInt` (`Neg`): the negation.
#[verifier::external_body]
pub(crate) fn big_neg(a: &BigInt) -> (r: BigInt)
    ensures
        big_value(r) == -big_value(*a),
{
    -a
}

/// `BigInt::abs` (num-traits `Signed`): the absolute value.
#[verifier::external_body]
pub(crate) fn big_abs(a: &BigInt) -> (r: BigInt)
    ensures
        big_value(r) == (if big_value(*a) < 0 { -big_value(*a) } else { big_value(*a) }),
{
    a.abs()
}

/// `BigInt::pow(&self, u32)`: `self` raised to the exponent.
#[verifier::external_body]
pub(crate) fn big_pow(a: &BigInt, exponent: u32) -> (r: BigInt)
    ensures
        big_value(r) == vstd::arithmetic::power::pow(big_value(*a), exponent as nat),
{
    a.pow(exponent)
}

/// `&BigInt & &BigInt` (`BitAnd`), used here on a non-negative integer and
/// one only, where it keeps the lowest bit: the remainder modulo two.
#[verifier::external_body]
pub(crate) fn big_bitand(a: &BigInt, b: &BigInt) -> (r: BigInt)
    requires
        big_value(*a) >= 0,
        big_value(*b) == 1,
    ensures
        big_value(r) == big_value(*a) % 2,
{
    a & b
}

/// `BigInt >> usize` (`Shr`): division by a power of two rounded toward
/// negative infinity; here by one bit.
#[verifier::external_body]
pub(crate) fn big_shr_one(a: &BigInt) -> (r: BigInt)
    ensures
        big_value(r) == (if big_value(*a) >= 0 { big_value(*a) / 2 } else { -((-big_value(*a) + 1) / 2) }),
{
    a >> 1usize
}

/// `BigInt::sign`: `Minus`, `NoSign` or `Plus`, returned as -1, 0 or 1.
#[verifier::external_body]
pub(crate) fn big_sign(a: &BigInt) -> (r: i8)
    ensures
        r == (if big_value(*a) < 0 { -1i8 } else if big_value(*a) == 0 { 0i8 } else { 1i8 }),
{
    match a.sign() {
        Sign::Minus => -1,
        Sign::NoSign => 0,
        Sign::Plus => 1,
    }
}

/// `BigInt::is_zero` (num-traits `Zero`).
#[verifier::external_body]
pub(crate) fn big_is_zero(a: &BigInt) -> (r: bool)
    ensures
        r == (big_value(*a) == 0),
{
    a.is_zero()
}

/// `BigInt == BigInt` (`PartialEq`): equality of the integers.
#[verifier::external_body]
pub(crate) fn big_eq(a: &BigInt, b: &BigInt) -> (r: bool)
    ensures
        r == (big_value(*a) == big_value(*b)),
{
    a == b
}

/// `BigInt < BigInt` (`PartialOrd::lt`).
#[verifier::external_body]
pub(crate) fn big_lt(a: &BigInt, b: &BigInt) -> (r: bool)
    ensures
        r == (big_value(*a) < big_value(*b)),
{
    a < b
}

/// `BigInt <= BigInt` (`PartialOrd::le`).
#[verifier::external_body]
pub(crate) fn big_le(a: &BigInt, b: &BigInt) -> (r: bool)
    ensures
        r == (big_value(*a) <= big_value(*b)),
{
    a <= b
}

/// `BigInt > BigInt` (`PartialOrd::gt`).
#[verifier::external_body]
pub(crate) fn big_gt(a: &BigInt, b: &BigInt) -> (r: bool)
    ensures
        r == (big_value(*a) > big_value(*b)),
{
    a > b
}

/// `BigInt >= BigInt` (`PartialOrd::ge`).
#[verifier::external_body]
pub(crate) fn big_ge(a: &BigInt, b: &BigInt) -> (r: bool)
    ensures
        r == (big_value(*a) >= big_value(*b)),
{
    a >= b
}

/// `BigInt::to_i64` (num-traits `ToPrimitive`): the value when it fits an
/// `i64`, else `None`.
#[verifier::external_body]
pub(crate) fn big_to_i64(a: &BigInt) -> (r: Option<i64>)
    ensures
        match r {
            Some(v) => v as int == big_value(*a),
            None => big_value(*a) < i64::MIN || big_value(*a) > i64::MAX,
        },
{
    a.to_i64()
}

/// `BigInt::to_u8` (num-traits `ToPrimitive`): the value when it fits a
/// `u8`, else `None`.
#[verifier::external_body]
pub(crate) fn big_to_u8(a: &BigInt) -> (r: Option<u8>)
    ensures
        match r {
            Some(v) => v as int == big_value(*a),
            None => big_value(*a) < 0 || big_value(*a) > 255,
        },
{
    a.to_u8()
}

/// `BigInt::to_string` (through `Display`), handed back as its bytes: the
/// decimal spelling of the integer.
#[verifier::external_body]
pub(crate) fn big_decimal_bytes(a: &BigInt) -> (r: Vec<u8>)
    ensures
        r@ == decimal_spelling(big_value(*a)),
{
    a.to_string().into_bytes()
}

/// `BigInt::parse_bytes(digits, radix)`, given the digits as characters
/// (handed over as their UTF-8 bytes): the integer they spell in base
/// `radix`, named by `parsed_in_radix`. It panics on a radix outside 2 to
/// 36, which `requires` leaves out.
#[verifier::external_body]
pub(crate) fn big_parse_bytes(digits: &[char], radix: u32) -> (r: Option<BigInt>)
    requires
        2 <= radix <= 36,
    ensures
        match r {
            Some(b) => parsed_in_radix(digits@, radix) == Some(big_value(b)),
            None => parsed_in_radix(digits@, radix) is None,
        },
{
    let text: String = digits.iter().collect();
    BigInt::parse_bytes(text.as_bytes(), radix)
}

/// `BigInt::modpow`: `(a ^ e) mod m`, rounded like `mod_floor`, so in
/// `[0, m)` for a positive modulus. It panics on a negative exponent or a
/// zero modulus; `requires` leaves those out, and asks a positive modulus,
/// the only kind its callers pass.
#[verifier::external_body]
pub(crate) fn big_modpow(a: &BigInt, e: &BigInt, m: &BigInt) -> (r: BigInt)
    requires
        big_value(*e) >= 0,
        big_value(*m) > 0,
    ensures
        big_value(r) == pow(big_value(*a), big_value(*e) as nat) % big_value(*m),
{
    a.modpow(e, m)
}

} // verus!
