//! Arbitrary-precision arithmetic on little-endian byte strings, carried out
//! by `num_bigint::BigUint`.
//!
//! Every function here converts its arguments with `BigUint::from_bytes_le`,
//! makes one call, and converts the result back with `BigUint::to_bytes_le`.
//! The contracts are believed, not proved: they restate what the outside
//! crate documents of each operation.

use num_bigint::BigUint;
use vstd::arithmetic::power::pow;
use vstd::prelude::*;

use crate::le_bytes::le_value;
use crate::modular::is_inverse;

verus! {

/// `BigUint` addition (`Add::add`): the sum of the two numbers.
#[verifier::external_body]
pub(crate) fn big_add(a: &Vec<u8>, b: &Vec<u8>) -> (r: Vec<u8>)
    ensures
        le_value(r@) == le_value(a@) + le_value(b@),
{
    (BigUint::from_bytes_le(a) + BigUint::from_bytes_le(b)).to_bytes_le()
}

/// `BigUint` subtraction (`Sub::sub`): the difference. The outside function
/// panics where the result would be negative.
#[verifier::external_body]
pub(crate) fn big_sub(a: &Vec<u8>, b: &Vec<u8>) -> (r: Vec<u8>)
    requires
        le_value(a@) >= le_value(b@),
    ensures
        le_value(r@) == le_value(a@) - le_value(b@),
{
    (BigUint::from_bytes_le(a) - BigUint::from_bytes_le(b)).to_bytes_le()
}

/// `BigUint` multiplication (`Mul::mul`): the product of the two numbers.
#[verifier::external_body]
pub(crate) fn big_mul(a: &Vec<u8>, b: &Vec<u8>) -> (r: Vec<u8>)
    ensures
        le_value(r@) == le_value(a@) * le_value(b@),
{
    (BigUint::from_bytes_le(a) * BigUint::from_bytes_le(b)).to_bytes_le()
}

/// `BigUint` division (`Div::div`): the quotient, rounded down. The outside
/// function panics on a zero divisor.
#[verifier::external_body]
pub(crate) fn big_div(a: &Vec<u8>, d: &Vec<u8>) -> (r: Vec<u8>)
    requires
        le_value(d@) != 0,
    ensures
        le_value(r@) == le_value(a@) / le_value(d@),
{
    (BigUint::from_bytes_le(a) / BigUint::from_bytes_le(d)).to_bytes_le()
}

/// `BigUint` remainder (`Rem::rem`): the remainder of the division. The
/// outside function panics on a zero divisor.
#[verifier::external_body]
pub(crate) fn big_rem(a: &Vec<u8>, m: &Vec<u8>) -> (r: Vec<u8>)
    requires
        le_value(m@) != 0,
    ensures
        le_value(r@) == le_value(a@) % le_value(m@),
{
    (BigUint::from_bytes_le(a) % BigUint::from_bytes_le(m)).to_bytes_le()
}

/// `BigUint::modpow`: `a` raised to `e`, reduced modulo `m`. The outside
/// function panics on a zero modulus.
#[verifier::external_body]
pub(crate) fn big_modpow(a: &Vec<u8>, e: &Vec<u8>, m: &Vec<u8>) -> (r: Vec<u8>)
    requires
        le_value(m@) != 0,
    ensures
        le_value(r@) == pow(le_value(a@) as int, le_value(e@)) % (le_value(m@) as int),
{
    BigUint::from_bytes_le(a).modpow(
        &BigUint::from_bytes_le(e),
        &BigUint::from_bytes_le(m),
    ).to_bytes_le()
}

/// `BigUint::modinv`: the `x` below `m` with `a * x = 1 (mod m)` where one
/// exists, and `None` where none does. The outside function panics on a zero
/// modulus.
#[verifier::external_body]
pub(crate) fn big_modinv(a: &Vec<u8>, m: &Vec<u8>) -> (r: Option<Vec<u8>>)
    requires
        le_value(m@) != 0,
    ensures
        match r {
            Some(x) => is_inverse(le_value(a@), le_value(x@), le_value(m@)),
            None => forall|y: nat| !is_inverse(le_value(a@), y, le_value(m@)),
        },
{
    match BigUint::from_bytes_le(a).modinv(&BigUint::from_bytes_le(m)) {
        Some(x) => Some(x.to_bytes_le()),
        None => None,
    }
}

} // verus!
