//! Unbounded naturals from `num_bigint`, for the 256-bit arithmetic of
//! targets and accumulated work.

use crate::bytes::be_value;
use num_bigint::BigUint;
use vstd::prelude::*;

verus! {

/// `num_bigint::BigUint`, carried through as it is: nothing of its inside is
/// known here but the number it holds.
#[verifier::external_type_specification]
#[verifier::external_body]
pub struct ExBigUint(BigUint);

/// The natural number that a `BigUint` holds.
pub uninterp spec fn big_value(n: BigUint) -> nat;

/// `BigUint::from_bytes_be`: the number that `bytes` denote big-endian; zero
/// for the empty string.
#[verifier::external_body]
pub(crate) fn big_from_bytes_be(bytes: &[u8]) -> (n: BigUint)
    ensures
        big_value(n) == be_value(bytes@),
{
    BigUint::from_bytes_be(bytes)
}

/// `BigUint::to_bytes_be`: the shortest big-endian byte string of the number,
/// one zero byte for zero.
#[verifier::external_body]
pub(crate) fn big_to_bytes_be(n: &BigUint) -> (bytes: Vec<u8>)
    ensures
        be_value(bytes@) == big_value(*n),
        bytes@.len() >= 1,
        bytes@.len() > 1 ==> bytes@[0] != 0,
{
    n.to_bytes_be()
}

/// `BigUint::from(u64)`.
#[verifier::external_body]
pub(crate) fn big_from_u64(v: u64) -> (n: BigUint)
    ensures
        big_value(n) == v,
{
    BigUint::from(v)
}

/// `&BigUint + &BigUint`: the sum, without bound.
#[verifier::external_body]
pub(crate) fn big_add(a: &BigUint, b: &BigUint) -> (n: BigUint)
    ensures
        big_value(n) == big_value(*a) + big_value(*b),
{
    a + b
}

/// `&BigUint * &BigUint`: the product, without bound.
#[verifier::external_body]
pub(crate) fn big_mul(a: &BigUint, b: &BigUint) -> (n: BigUint)
    ensures
        big_value(n) == big_value(*a) * big_value(*b),
{
    a * b
}

/// `&BigUint / &BigUint`: the quotient rounded down. It panics on a zero
/// divisor, which `requires` leaves out.
#[verifier::external_body]
pub(crate) fn big_div(a: &BigUint, b: &BigUint) -> (n: BigUint)
    requires
        big_value(*b) != 0,
    ensures
        big_value(n) == big_value(*a) / big_value(*b),
{
    a / b
}

/// `&BigUint <= &BigUint`: the order of the numbers.
#[verifier::external_body]
pub(crate) fn big_le(a: &BigUint, b: &BigUint) -> (le: bool)
    ensures
        le == (big_value(*a) <= big_value(*b)),
{
    a <= b
}

} // verus!
