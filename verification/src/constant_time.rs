//! Branch-free selection on small integers, carried out by the `subtle`
//! crate. A choice is held as a `u8` that is `0` or `1`.

use subtle::{Choice, ConditionallySelectable, ConstantTimeEq};
use vstd::prelude::*;

verus! {

/// `ConstantTimeEq::ct_eq` on `u8`: `1` where the two are equal, else `0`.
#[verifier::external_body]
pub(crate) fn ct_eq_u8(a: u8, b: u8) -> (r: u8)
    ensures
        r == (if a == b { 1u8 } else { 0u8 }),
{
    a.ct_eq(&b).unwrap_u8()
}

/// `ConstantTimeEq::ct_eq` on `i8`: `1` where the two are equal, else `0`.
#[verifier::external_body]
pub(crate) fn ct_eq_i8(a: i8, b: i8) -> (r: u8)
    ensures
        r == (if a == b { 1u8 } else { 0u8 }),
{
    a.ct_eq(&b).unwrap_u8()
}

/// `BitAnd` on `Choice`: `1` where both choices are `1`, else `0`. The
/// outside conversion from `u8` takes `0` and `1` only.
#[verifier::external_body]
pub(crate) fn ct_and(a: u8, b: u8) -> (r: u8)
    requires
        a <= 1,
        b <= 1,
    ensures
        r == (if a == 1 && b == 1 { 1u8 } else { 0u8 }),
{
    (Choice::from(a) & Choice::from(b)).unwrap_u8()
}

/// `ConditionallySelectable::conditional_assign` on `u8`: `x` becomes `other`
/// where `choice` is `1` and stays as it is where `choice` is `0`.
#[verifier::external_body]
pub(crate) fn ct_assign_u8(x: &mut u8, other: u8, choice: u8)
    requires
        choice <= 1,
    ensures
        *final(x) == (if choice == 1 { other } else { *old(x) }),
{
    x.conditional_assign(&other, Choice::from(choice))
}

} // verus!
