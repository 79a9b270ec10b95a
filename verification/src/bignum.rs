//! Arbitrary-precision integers, as supplied by `num_bigint`.
//!
//! Tag numbers and object-identifier components are unbounded, so the codec
//! carries them as `BigUint`; integer block payloads are carried as `BigInt`.
//! Both types are opaque here: `big_val` and `int_val` stand for the number a
//! value holds, and each operation the codec needs is wrapped with a contract
//! over those numbers.
use vstd::prelude::*;

verus! {

#[verifier::external_type_specification]
#[verifier::external_body]
pub struct ExBigUint(num_bigint::BigUint);

#[verifier::external_type_specification]
#[verifier::external_body]
pub struct ExBigInt(num_bigint::BigInt);

/// The non-negative number a `BigUint` holds.
pub uninterp spec fn big_val(b: num_bigint::BigUint) -> nat;

/// The signed number a `BigInt` holds.
pub uninterp spec fn int_val(b: num_bigint::BigInt) -> int;

/// The minimal big-endian two's-complement encoding of a signed number, as
/// `BigInt::to_signed_bytes_be` produces it.
pub uninterp spec fn sbe_of(v: int) -> Seq<u8>;

/// The signed number that `BigInt::from_signed_bytes_be` reads out of a
/// big-endian two's-complement byte string.
pub uninterp spec fn int_of_sbe(s: Seq<u8>) -> int;

/// Relies on `num_traits::Zero::zero`: the zero value.
#[verifier::external_body]
pub(crate) fn big_zero() -> (r: num_bigint::BigUint)
    ensures
        big_val(r) == 0,
{
    num_traits::Zero::zero()
}

/// Relies on `num_bigint`'s `From<u8>`: an exact value conversion.
#[verifier::external_body]
pub(crate) fn big_from_u8(x: u8) -> (r: num_bigint::BigUint)
    ensures
        big_val(r) == x as nat,
{
    num_bigint::BigUint::from(x)
}

/// Relies on `BigUint::clone`: the copy holds the same number.
pub assume_specification[ <num_bigint::BigUint as Clone>::clone ](
    b: &num_bigint::BigUint,
) -> (r: num_bigint::BigUint)
    ensures
        big_val(r) == big_val(*b),
;

/// Relies on `num_bigint`'s `Shl<u32>`: shifting left by 7 bits multiplies
/// by 128.
#[verifier::external_body]
pub(crate) fn big_shl7(b: num_bigint::BigUint) -> (r: num_bigint::BigUint)
    ensures
        big_val(r) == big_val(b) * 128,
{
    b << 7u32
}

/// Relies on `num_bigint`'s `Shr<u32>`: shifting right by 7 bits divides by
/// 128, rounding down.
#[verifier::external_body]
pub(crate) fn big_shr7(b: &num_bigint::BigUint) -> (r: num_bigint::BigUint)
    ensures
        big_val(r) == big_val(*b) / 128,
{
    b >> 7u32
}

/// Relies on `num_bigint`'s `Rem`: the remainder of division by 128.
#[verifier::external_body]
pub(crate) fn big_rem128(b: &num_bigint::BigUint) -> (r: num_bigint::BigUint)
    ensures
        big_val(r) == big_val(*b) % 128,
{
    b % num_bigint::BigUint::from(128u8)
}

/// Relies on `num_bigint`'s `Add`: exact addition.
#[verifier::external_body]
pub(crate) fn big_add_u8(b: num_bigint::BigUint, d: u8) -> (r: num_bigint::BigUint)
    ensures
        big_val(r) == big_val(b) + d as nat,
{
    b + num_bigint::BigUint::from(d)
}

/// Relies on `num_traits::Zero::is_zero`: true exactly for the zero value.
#[verifier::external_body]
pub(crate) fn big_is_zero(b: &num_bigint::BigUint) -> (r: bool)
    ensures
        r == (big_val(*b) == 0),
{
    num_traits::Zero::is_zero(b)
}

/// Relies on `BigUint`'s `Ord`: the order of the numbers held.
#[verifier::external_body]
pub(crate) fn big_gt(a: &num_bigint::BigUint, b: &num_bigint::BigUint) -> (r: bool)
    ensures
        r == (big_val(*a) > big_val(*b)),
{
    a > b
}

/// Relies on `BigUint`'s `PartialEq`: representations are canonical, so two
/// values are equal exactly when they hold the same number.
#[verifier::external_body]
pub(crate) fn big_eq(a: &num_bigint::BigUint, b: &num_bigint::BigUint) -> (r: bool)
    ensures
        r == (big_val(*a) == big_val(*b)),
{
    a == b
}

/// Relies on `num_traits::ToPrimitive::to_u8`: `Some` exactly when the number
/// fits in a `u8`, and then the exact value.
#[verifier::external_body]
pub(crate) fn big_to_u8(b: &num_bigint::BigUint) -> (r: Option<u8>)
    ensures
        r matches Some(x) ==> big_val(*b) == x as nat,
        r is Some <==> big_val(*b) <= u8::MAX,
{
    num_traits::ToPrimitive::to_u8(b)
}

/// Relies on `num_traits::ToPrimitive::to_u32`: `Some` exactly when the
/// number fits in a `u32`, and then the exact value.
#[verifier::external_body]
pub(crate) fn big_to_u32(b: &num_bigint::BigUint) -> (r: Option<u32>)
    ensures
        r matches Some(x) ==> big_val(*b) == x as nat,
        r is Some <==> big_val(*b) <= u32::MAX,
{
    num_traits::ToPrimitive::to_u32(b)
}

/// Relies on `num_traits::ToPrimitive::to_u64`: `Some` exactly when the
/// number fits in a `u64`, and then the exact value.
#[verifier::external_body]
pub(crate) fn big_to_u64(b: &num_bigint::BigUint) -> (r: Option<u64>)
    ensures
        r matches Some(x) ==> big_val(*b) == x as nat,
        r is Some <==> big_val(*b) <= u64::MAX,
{
    num_traits::ToPrimitive::to_u64(b)
}

/// Relies on `BigInt::clone`: the copy holds the same number.
pub assume_specification[ <num_bigint::BigInt as Clone>::clone ](
    b: &num_bigint::BigInt,
) -> (r: num_bigint::BigInt)
    ensures
        int_val(r) == int_val(*b),
;

/// Relies on `BigInt`'s `PartialEq`: representations are canonical, so two
/// values are equal exactly when they hold the same number.
#[verifier::external_body]
pub(crate) fn bigint_eq(a: &num_bigint::BigInt, b: &num_bigint::BigInt) -> (r: bool)
    ensures
        r == (int_val(*a) == int_val(*b)),
{
    a == b
}

/// Relies on `BigInt::to_signed_bytes_be`: the minimal big-endian
/// two's-complement encoding, which `from_signed_bytes_be` reads back to the
/// same number.
#[verifier::external_body]
pub(crate) fn bigint_to_signed_bytes(b: &num_bigint::BigInt) -> (r: Vec<u8>)
    ensures
        r@ == sbe_of(int_val(*b)),
        int_of_sbe(r@) == int_val(*b),
{
    b.to_signed_bytes_be()
}

/// Relies on `BigInt::from_signed_bytes_be`: reads a big-endian
/// two's-complement byte string; on bytes that `to_signed_bytes_be`
/// produced, it reads the number they came from.
#[verifier::external_body]
pub(crate) fn bigint_from_signed_bytes(b: &[u8]) -> (r: num_bigint::BigInt)
    ensures
        int_val(r) == int_of_sbe(b@),
        forall|v: int| b@ == #[trigger] sbe_of(v) ==> int_val(r) == v,
{
    num_bigint::BigInt::from_signed_bytes_be(b)
}

} // verus!
