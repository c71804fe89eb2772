//! Arbitrary-precision register arithmetic, carried by `num::BigInt`.
//!
//! A `BigInt` is opaque to the verifier, so its mathematical value is given a
//! name, [`big_value`], and every operation the interpreter needs is wrapped
//! in a small trusted function whose contract states, over that name, what
//! the `num` crate's source shows the operation does.

use vstd::prelude::*;

verus! {

#[verifier::external_type_specification]
#[verifier::external_body]
pub struct ExBigInt(num::BigInt);

/// The signed integer a `BigInt` holds.
pub uninterp spec fn big_value(b: num::BigInt) -> int;

/// Signed division truncating toward zero, the convention of `BigInt`'s
/// `Div` impl (quotient of the magnitudes, sign given by the operands).
pub open spec fn div_trunc(a: int, b: int) -> int
    recommends
        b != 0,
{
    let q = abs_int(a) / abs_int(b);
    if (a < 0) != (b < 0) {
        -q
    } else {
        q
    }
}

/// The absolute value of an integer.
pub open spec fn abs_int(a: int) -> int {
    if a < 0 {
        -a
    } else {
        a
    }
}

/// The decimal digits of a natural number, most significant first, as ASCII
/// bytes, with no leading zeros (and `0` written as the single digit `0`).
pub open spec fn dec_digits(n: nat) -> Seq<u8>
    decreases n,
{
    if n < 10 {
        seq![(0x30 + n) as u8]
    } else {
        dec_digits(n / 10) + seq![(0x30 + n % 10) as u8]
    }
}

/// The canonical decimal rendering of a signed integer as ASCII bytes:
/// a minus sign when negative, then the digits of the magnitude.
pub open spec fn dec_bytes(v: int) -> Seq<u8> {
    if v < 0 {
        seq![0x2du8] + dec_digits((-v) as nat)
    } else {
        dec_digits(v as nat)
    }
}

/// Relies on `BigInt: From<u64>`: the result holds exactly the given value.
#[verifier::external_body]
pub(crate) fn big_from_u64(n: u64) -> (r: num::BigInt)
    ensures
        big_value(r) == n as int,
{
    num::BigInt::from(n)
}

/// Relies on `BigInt: Clone`: the clone holds the same value.
#[verifier::external_body]
pub(crate) fn big_clone(a: &num::BigInt) -> (r: num::BigInt)
    ensures
        big_value(r) == big_value(*a),
{
    a.clone()
}

/// Relies on `Add for &BigInt`: exact integer addition.
#[verifier::external_body]
pub(crate) fn big_add(a: &num::BigInt, b: &num::BigInt) -> (r: num::BigInt)
    ensures
        big_value(r) == big_value(*a) + big_value(*b),
{
    a + b
}

/// Relies on `Sub for &BigInt`: exact integer subtraction.
#[verifier::external_body]
pub(crate) fn big_sub(a: &num::BigInt, b: &num::BigInt) -> (r: num::BigInt)
    ensures
        big_value(r) == big_value(*a) - big_value(*b),
{
    a - b
}

/// Relies on `Mul for &BigInt`: exact integer multiplication.
#[verifier::external_body]
pub(crate) fn big_mul(a: &num::BigInt, b: &num::BigInt) -> (r: num::BigInt)
    ensures
        big_value(r) == big_value(*a) * big_value(*b),
{
    a * b
}

/// Relies on `Div for &BigInt`: quotient truncated toward zero, computed by
/// `Integer::div_rem` (magnitude quotient with the product of the signs).
/// Division by zero panics in `num`, so it is excluded here.
#[verifier::external_body]
pub(crate) fn big_div(a: &num::BigInt, b: &num::BigInt) -> (r: num::BigInt)
    requires
        big_value(*b) != 0,
    ensures
        big_value(r) == div_trunc(big_value(*a), big_value(*b)),
{
    a / b
}

/// Relies on `Zero::is_zero` for `BigInt`.
#[verifier::external_body]
pub(crate) fn big_is_zero(a: &num::BigInt) -> (r: bool)
    ensures
        r == (big_value(*a) == 0),
{
    num::Zero::is_zero(a)
}

/// Relies on `ToPrimitive::to_u8` for `BigInt`: `Some` exactly when the
/// value fits in a byte, and then the byte is the value.
#[verifier::external_body]
pub(crate) fn big_to_u8(a: &num::BigInt) -> (r: Option<u8>)
    ensures
        match r {
            Some(x) => big_value(*a) == x as int,
            None => big_value(*a) < 0 || big_value(*a) > 255,
        },
{
    num::ToPrimitive::to_u8(a)
}

/// Relies on `Display for BigInt`: an optional minus sign followed by the
/// decimal digits of the magnitude, without leading zeros.
#[verifier::external_body]
pub(crate) fn big_to_decimal(a: &num::BigInt) -> (r: Vec<u8>)
    ensures
        r@ == dec_bytes(big_value(*a)),
{
    format!("{}", a).into_bytes()
}

} // verus!
