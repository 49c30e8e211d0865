//! The 446-bit Barreto-Naehrig curve `y^2 = x^3 + 257`.

use vstd::arithmetic::power::{lemma_pow_adds, pow};
use vstd::prelude::*;

use crate::bn::{BnParameters, lemma_pow2_values};
use crate::limbs::limbs_value;

verus! {

/// The parameters of the 446-bit curve.
pub struct Parameters;

impl BnParameters for Parameters {
    open spec fn spec_modulus() -> nat {
        102211695604069718983520304652693874995639508460729604902280098199792736381528662976886082950231100101353700265360419596271313339023463nat
    }

    open spec fn spec_modulus_bits() -> nat {
        446
    }

    open spec fn spec_coeff_b() -> nat {
        257
    }

    proof fn lemma_modulus_bits() {
        lemma_pow2_values();
        lemma_pow_adds(2, 256, 128);
        lemma_pow_adds(2, 384, 61);
        assert(pow(2, 445) == pow(2, 384) * pow(2, 61));
        reveal_with_fuel(pow, 2);
        assert(pow(2, 446) == 2 * pow(2, 445));
    }

    proof fn lemma_coefficient() {
    }

    fn modulus() -> (r: Vec<u64>) {
        let mut r: Vec<u64> = Vec::new();
        r.push(21028159881319u64);
        r.push(24699429206449152u64);
        r.push(9727775195305082880u64);
        r.push(103079215104u64);
        r.push(14843406975516u64);
        r.push(10133099161767936u64);
        r.push(2594073385365405696u64);
        proof {
            lemma_limbs_value_7(r@);
        }
        r
    }

    fn modulus_bits() -> (r: u32) {
        446
    }

    fn coeff_b() -> (r: u64) {
        257
    }
}

/// The value of seven limbs, written out.
proof fn lemma_limbs_value_7(s: Seq<u64>)
    requires
        s.len() == 7,
    ensures
        limbs_value(s) == s[0] + 0x1_0000_0000_0000_0000 * (s[1] + 0x1_0000_0000_0000_0000 * (s[2]
            + 0x1_0000_0000_0000_0000 * (s[3] + 0x1_0000_0000_0000_0000 * (s[4]
            + 0x1_0000_0000_0000_0000 * (s[5] + 0x1_0000_0000_0000_0000 * s[6]))))),
{
    let s1 = s.subrange(1, 7);
    let s2 = s1.subrange(1, 6);
    let s3 = s2.subrange(1, 5);
    let s4 = s3.subrange(1, 4);
    let s5 = s4.subrange(1, 3);
    let s6 = s5.subrange(1, 2);
    assert(s6.subrange(1, 1).len() == 0);
    assert(limbs_value(s6.subrange(1, 1)) == 0);
    assert(limbs_value(s6) == s[6]);
    assert(limbs_value(s5) == s[5] + 0x1_0000_0000_0000_0000 * limbs_value(s6));
    assert(limbs_value(s4) == s[4] + 0x1_0000_0000_0000_0000 * limbs_value(s5));
    assert(limbs_value(s3) == s[3] + 0x1_0000_0000_0000_0000 * limbs_value(s4));
    assert(limbs_value(s2) == s[2] + 0x1_0000_0000_0000_0000 * limbs_value(s3));
    assert(limbs_value(s1) == s[1] + 0x1_0000_0000_0000_0000 * limbs_value(s2));
}

} // verus!
