//! The description of a Barreto-Naehrig curve `y^2 = x^3 + b` over a prime
//! field, as far as the message encoding reads it.

use vstd::arithmetic::power2::{lemma2_to64, lemma_pow2};
use vstd::arithmetic::power::pow;
use vstd::prelude::*;

use crate::limbs::limbs_value;

verus! {

/// A supported curve: the modulus `q` of its base field, the bit length of
/// `q`, and the coefficient `b` of the curve equation.
pub trait BnParameters {
    /// The modulus `q` of the base field.
    spec fn spec_modulus() -> nat;

    /// The bit length of `q`.
    spec fn spec_modulus_bits() -> nat;

    /// The coefficient `b` of `y^2 = x^3 + b`.
    spec fn spec_coeff_b() -> nat;

    /// `q` has exactly `spec_modulus_bits()` bits.
    proof fn lemma_modulus_bits()
        ensures
            Self::spec_modulus_bits() >= 1,
            pow(2, (Self::spec_modulus_bits() - 1) as nat) <= Self::spec_modulus(),
            Self::spec_modulus() < pow(2, Self::spec_modulus_bits()),
    ;

    /// `q` is above 3, and `b + 1` is below `q`: neither `3` nor `b + 1` is zero
    /// in the base field.
    proof fn lemma_coefficient()
        ensures
            Self::spec_modulus() > 3,
            Self::spec_coeff_b() + 1 < Self::spec_modulus(),
    ;

    /// The limbs of `q`, least significant first.
    fn modulus() -> (r: Vec<u64>)
        ensures
            limbs_value(r@) == Self::spec_modulus(),
    ;

    /// The bit length of `q`.
    fn modulus_bits() -> (r: u32)
        ensures
            r == Self::spec_modulus_bits(),
    ;

    /// The coefficient `b`.
    fn coeff_b() -> (r: u64)
        ensures
            r == Self::spec_coeff_b(),
    ;
}

/// `2^64`, `2^128` and `2^256` written out.
pub proof fn lemma_pow2_values()
    ensures
        pow(2, 61) == 0x2000_0000_0000_0000,
        pow(2, 64) == 0x1_0000_0000_0000_0000,
        pow(2, 128) == 0x1_0000_0000_0000_0000_0000_0000_0000_0000,
        pow(2, 256)
            == 0x1_0000_0000_0000_0000_0000_0000_0000_0000_0000_0000_0000_0000_0000_0000_0000_0000int,
{
    lemma2_to64();
    lemma_pow2(64);
    vstd::arithmetic::power::lemma_pow_adds(2, 61, 3);
    assert(pow(2, 3) == 8) by {
        reveal_with_fuel(pow, 4);
    }
    vstd::arithmetic::power::lemma_pow_adds(2, 64, 64);
    vstd::arithmetic::power::lemma_pow_adds(2, 128, 128);
    let p = pow(2, 128);
    assert(p * p
        == 0x1_0000_0000_0000_0000_0000_0000_0000_0000_0000_0000_0000_0000_0000_0000_0000_0000int)
        by (nonlinear_arith)
        requires
            p == 0x1_0000_0000_0000_0000_0000_0000_0000_0000int,
    ;
}

} // verus!
