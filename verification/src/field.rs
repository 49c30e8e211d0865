//! Elements of a prime field, held as little-endian bytes, and the field
//! operations on them.

use vstd::arithmetic::div_mod::{
    lemma_add_mod_noop, lemma_mod_bound, lemma_mod_multiples_vanish, lemma_small_mod,
    lemma_sub_mod_noop,
};
use vstd::arithmetic::power::pow;
use vstd::prelude::*;
use vstd::slice::slice_to_vec;

use crate::bignum::{big_add, big_div, big_modinv, big_modpow, big_mul, big_rem, big_sub};
use crate::le_bytes::{
    canonical_bytes, from_u64, is_zero_value, le_value, less_than, same_value, to_width,
};
use crate::modular::{
    add_mod, has_inverse, inv_mod, is_inverse, lemma_inv_mod, mul_mod, neg_mod, pow_mod, sub_mod,
};

verus! {

/// A natural number held as little-endian bytes: a field element once it is
/// below the modulus, and the form in which a modulus or an exponent is held.
#[derive(Clone, Debug)]
pub struct Fq {
    pub bytes: Vec<u8>,
}

impl View for Fq {
    type V = nat;

    open spec fn view(&self) -> nat {
        le_value(self.bytes@)
    }
}

impl PartialEq for Fq {
    /// Whether the two hold the same number, whatever their lengths.
    fn eq(&self, other: &Fq) -> (r: bool) {
        same_value(&self.bytes, &other.bytes)
    }
}

impl Eq for Fq {

}

impl vstd::std_specs::cmp::PartialEqSpecImpl for Fq {
    open spec fn obeys_eq_spec() -> bool {
        true
    }

    open spec fn eq_spec(&self, other: &Fq) -> bool {
        self@ == other@
    }
}

impl Fq {
    /// The number `x`.
    pub fn from_u64(x: u64) -> (r: Fq)
        ensures
            r@ == x,
    {
        Fq { bytes: from_u64(x) }
    }

    /// The number that `bytes` spells, least significant byte first.
    pub fn from_le_bytes(bytes: &[u8]) -> (r: Fq)
        ensures
            r@ == le_value(bytes@),
            r.bytes@ == bytes@,
    {
        Fq { bytes: slice_to_vec(bytes) }
    }

    /// The number that `bytes` spells, reduced modulo `m`.
    pub fn from_le_bytes_mod_order(bytes: &[u8], m: &Fq) -> (r: Fq)
        requires
            m@ > 0,
        ensures
            r@ == le_value(bytes@) % m@,
            r@ < m@,
    {
        let raw = slice_to_vec(bytes);
        Fq { bytes: big_rem(&raw, &m.bytes) }
    }

    /// The `width` little-endian bytes of a number below `256^width`.
    pub fn to_le_bytes(&self, width: usize) -> (r: Vec<u8>)
        requires
            self@ < pow(256, width as nat),
        ensures
            r@.len() == width,
            le_value(r@) == self@,
            r@ == canonical_bytes(self@, width as nat),
    {
        to_width(&self.bytes, width)
    }

    /// A copy of this number.
    pub fn copy(&self) -> (r: Fq)
        ensures
            r@ == self@,
            r.bytes@ == self.bytes@,
    {
        Fq { bytes: self.bytes.clone() }
    }

    /// Whether this is zero.
    pub fn is_zero(&self) -> (r: bool)
        ensures
            r == (self@ == 0),
    {
        is_zero_value(&self.bytes)
    }

    /// Whether the two numbers are equal.
    pub fn equals(&self, other: &Fq) -> (r: bool)
        ensures
            r == (self@ == other@),
    {
        same_value(&self.bytes, &other.bytes)
    }

    /// Whether this number is below `other`.
    pub fn less_than(&self, other: &Fq) -> (r: bool)
        ensures
            r == (self@ < other@),
    {
        less_than(&self.bytes, &other.bytes)
    }

    /// The sum, as natural numbers.
    pub fn int_add(&self, rhs: &Fq) -> (r: Fq)
        ensures
            r@ == self@ + rhs@,
    {
        Fq { bytes: big_add(&self.bytes, &rhs.bytes) }
    }

    /// The difference, as natural numbers.
    pub fn int_sub(&self, rhs: &Fq) -> (r: Fq)
        requires
            self@ >= rhs@,
        ensures
            r@ == self@ - rhs@,
    {
        Fq { bytes: big_sub(&self.bytes, &rhs.bytes) }
    }

    /// The quotient, as natural numbers, rounded down.
    pub fn int_div(&self, d: &Fq) -> (r: Fq)
        requires
            d@ > 0,
        ensures
            r@ == self@ / d@,
    {
        Fq { bytes: big_div(&self.bytes, &d.bytes) }
    }

    /// This number reduced modulo `m`.
    pub fn reduce(&self, m: &Fq) -> (r: Fq)
        requires
            m@ > 0,
        ensures
            r@ == self@ % m@,
            r@ < m@,
    {
        Fq { bytes: big_rem(&self.bytes, &m.bytes) }
    }

    /// The sum modulo `m`.
    pub fn add(&self, rhs: &Fq, m: &Fq) -> (r: Fq)
        requires
            m@ > 0,
        ensures
            r@ == add_mod(self@, rhs@, m@),
            r@ < m@,
    {
        let sum = big_add(&self.bytes, &rhs.bytes);
        Fq { bytes: big_rem(&sum, &m.bytes) }
    }

    /// The negation modulo `m`.
    pub fn neg(&self, m: &Fq) -> (r: Fq)
        requires
            m@ > 0,
        ensures
            r@ == neg_mod(self@, m@),
            r@ < m@,
    {
        let a = big_rem(&self.bytes, &m.bytes);
        let d = big_sub(&m.bytes, &a);
        let r = Fq { bytes: big_rem(&d, &m.bytes) };
        proof {
            let (x, q) = (self@ as int, m@ as int);
            // (q - x % q) % q == (-x) % q
            lemma_sub_mod_noop(0, x, q);
            lemma_small_mod(0, m@);
            lemma_mod_multiples_vanish(1, 0 - x % q, q);
        }
        r
    }

    /// The difference modulo `m`.
    pub fn sub(&self, rhs: &Fq, m: &Fq) -> (r: Fq)
        requires
            m@ > 0,
        ensures
            r@ == sub_mod(self@, rhs@, m@),
            r@ < m@,
    {
        let n = rhs.neg(m);
        let sum = big_add(&self.bytes, &n.bytes);
        let r = Fq { bytes: big_rem(&sum, &m.bytes) };
        proof {
            let (x, y, q) = (self@ as int, rhs@ as int, m@ as int);
            // (x + (-y) % q) % q == (x - y) % q
            lemma_add_mod_noop(x, -y, q);
            lemma_add_mod_noop(x, (-y) % q, q);
            lemma_mod_bound(-y, q);
            lemma_small_mod(((-y) % q) as nat, m@);
        }
        r
    }

    /// The product modulo `m`.
    pub fn mul(&self, rhs: &Fq, m: &Fq) -> (r: Fq)
        requires
            m@ > 0,
        ensures
            r@ == mul_mod(self@, rhs@, m@),
            r@ < m@,
    {
        let prod = big_mul(&self.bytes, &rhs.bytes);
        Fq { bytes: big_rem(&prod, &m.bytes) }
    }

    /// The square modulo `m`.
    pub fn square(&self, m: &Fq) -> (r: Fq)
        requires
            m@ > 0,
        ensures
            r@ == mul_mod(self@, self@, m@),
            r@ < m@,
    {
        self.mul(self, m)
    }

    /// This number to the power `e`, modulo `m`.
    pub fn pow(&self, e: &Fq, m: &Fq) -> (r: Fq)
        requires
            m@ > 0,
        ensures
            r@ == pow_mod(self@, e@, m@),
            r@ < m@,
    {
        Fq { bytes: big_modpow(&self.bytes, &e.bytes, &m.bytes) }
    }

    /// The inverse modulo `m`, where there is one.
    pub fn inverse(&self, m: &Fq) -> (r: Option<Fq>)
        requires
            m@ > 0,
        ensures
            r is Some <==> has_inverse(self@, m@),
            r is Some ==> r->Some_0@ == inv_mod(self@, m@) && is_inverse(self@, r->Some_0@, m@),
    {
        match big_modinv(&self.bytes, &m.bytes) {
            Some(x) => {
                let r = Fq { bytes: x };
                proof {
                    lemma_inv_mod(self@, r@, m@);
                }
                Some(r)
            },
            None => None,
        }
    }
}

} // verus!
