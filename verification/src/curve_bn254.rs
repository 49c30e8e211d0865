//! The 254-bit Barreto-Naehrig curve `y^2 = x^3 + 2`.

use vstd::arithmetic::power::{lemma_pow_adds, pow};
use vstd::prelude::*;

use crate::bn::{BnParameters, lemma_pow2_values};
use crate::limbs::limbs_value;

verus! {

/// The parameters of the 254-bit curve.
pub struct Parameters;

impl BnParameters for Parameters {
    open spec fn spec_modulus() -> nat {
        16798108731015832284940804142231733909889187121439069848933715426072753864723nat
    }

    open spec fn spec_modulus_bits() -> nat {
        254
    }

    open spec fn spec_coeff_b() -> nat {
        2
    }

    proof fn lemma_modulus_bits() {
        lemma_pow2_values();
        lemma_pow_adds(2, 128, 64);
        lemma_pow_adds(2, 192, 61);
        assert(pow(2, 253) == pow(2, 192) * pow(2, 61));
        reveal_with_fuel(pow, 2);
        assert(pow(2, 254) == 2 * pow(2, 253));
    }

    proof fn lemma_coefficient() {
    }

    fn modulus() -> (r: Vec<u64>) {
        let mut r: Vec<u64> = Vec::new();
        r.push(12033618204333965331u64);
        r.push(6998875295910461459u64);
        r.push(13417434401994702856u64);
        r.push(2676093114170474497u64);
        proof {
            lemma_limbs_value_4(r@);
        }
        r
    }

    fn modulus_bits() -> (r: u32) {
        254
    }

    fn coeff_b() -> (r: u64) {
        2
    }
}

/// The value of four limbs, written out.
proof fn lemma_limbs_value_4(s: Seq<u64>)
    requires
        s.len() == 4,
    ensures
        limbs_value(s) == s[0] + 0x1_0000_0000_0000_0000 * (s[1] + 0x1_0000_0000_0000_0000 * (s[2]
            + 0x1_0000_0000_0000_0000 * s[3])),
{
    let s1 = s.subrange(1, 4);
    let s2 = s1.subrange(1, 3);
    let s3 = s2.subrange(1, 2);
    assert(s3.subrange(1, 1).len() == 0);
    assert(limbs_value(s3.subrange(1, 1)) == 0);
    assert(limbs_value(s3) == s[3]);
    assert(limbs_value(s2) == s[2] + 0x1_0000_0000_0000_0000 * limbs_value(s3));
    assert(limbs_value(s1) == s[1] + 0x1_0000_0000_0000_0000 * limbs_value(s2));
}

} // verus!
