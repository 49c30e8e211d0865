//! Little-endian sequences of 64-bit limbs, and their conversion to and from
//! little-endian bytes.

use vstd::arithmetic::power::{lemma_pow0, lemma_pow_positive, pow};
use vstd::prelude::*;

use crate::le_bytes::{le_value, lemma_le_value_bound, lemma_le_value_concat, lemma_pow256_8};

verus! {

/// The natural number that `s` spells in base `2^64`, least significant limb
/// first.
pub open spec fn limbs_value(s: Seq<u64>) -> nat
    decreases s.len(),
{
    if s.len() == 0 {
        0
    } else {
        s[0] as nat + 0x1_0000_0000_0000_0000 * limbs_value(s.subrange(1, s.len() as int))
    }
}

/// `256^(8n)`, the weight of limb `n`.
pub open spec fn limb_weight(n: nat) -> int {
    pow(256, 8 * n)
}

/// The weight of limb `n + 1` is `2^64` times that of limb `n`.
pub proof fn lemma_limb_weight_step(n: nat)
    ensures
        limb_weight(n + 1) == 0x1_0000_0000_0000_0000 * limb_weight(n),
        limb_weight(n) > 0,
        limb_weight(0) == 1,
{
    lemma_pow256_8();
    vstd::arithmetic::power::lemma_pow_adds(256, 8, 8 * n);
    assert(8 * (n + 1) == 8 + 8 * n);
    lemma_pow_positive(256, 8 * n);
    lemma_pow0(256);
}

/// Appending one limb adds it at the weight of the old length.
pub proof fn lemma_limbs_value_push(s: Seq<u64>, limb: u64)
    ensures
        limbs_value(s.push(limb)) == limbs_value(s) + limb_weight(s.len()) * (limb as nat),
    decreases s.len(),
{
    let t = s.push(limb);
    let base = 0x1_0000_0000_0000_0000int;
    let l = limb as int;
    if s.len() == 0 {
        assert(t.subrange(1, 1) =~= Seq::<u64>::empty());
        assert(limbs_value(t.subrange(1, 1)) == 0);
        assert(limbs_value(t) == l + base * 0);
        lemma_limb_weight_step(0);
        assert(limb_weight(0) * l == l) by (nonlinear_arith)
            requires
                limb_weight(0) == 1,
        ;
    } else {
        let s1 = s.subrange(1, s.len() as int);
        assert(t.subrange(1, t.len() as int) =~= s1.push(limb));
        lemma_limbs_value_push(s1, limb);
        lemma_limb_weight_step(s1.len());
        let w = limb_weight(s1.len());
        let x = limbs_value(s1) as int;
        assert(limbs_value(t) == s[0] as int + base * (x + w * l));
        assert(limbs_value(s) == s[0] as int + base * x);
        assert(limb_weight(s.len()) == base * w);
        assert(base * (x + w * l) == base * x + (base * w) * l) by (nonlinear_arith);
    }
}

/// The limb that the `count` bytes of `bytes` from `start` spell.
fn limb_at(bytes: &Vec<u8>, start: usize, count: usize) -> (r: u64)
    requires
        count <= 8,
        start + count <= bytes@.len(),
    ensures
        r == le_value(bytes@.subrange(start as int, start + count)),
{
    let ghost chunk = bytes@.subrange(start as int, start + count);
    let len: usize = bytes.len();
    let mut acc: u64 = 0;
    let mut k: usize = count;
    assert(chunk.skip(count as int) =~= Seq::<u8>::empty());
    while k > 0
        invariant
            k <= count <= 8,
            len == bytes@.len(),
            start + count <= len,
            chunk == bytes@.subrange(start as int, start + count),
            acc == le_value(chunk.skip(k as int)),
        decreases k,
    {
        proof {
            let hi = chunk.skip(k as int);
            lemma_le_value_bound(hi);
            reveal_with_fuel(pow, 9);
            let t = chunk.skip(k - 1);
            assert(t.subrange(1, t.len() as int) =~= hi);
            assert(t[0] == bytes@[start + k - 1]);
        }
        k = k - 1;
        acc = acc * 256 + bytes[start + k] as u64;
    }
    assert(chunk.skip(0) =~= chunk);
    acc
}

/// The limbs of the number that `bytes` spells.
pub fn limbs_from_le_bytes(bytes: &Vec<u8>) -> (r: Vec<u64>)
    ensures
        limbs_value(r@) == le_value(bytes@),
        r@.len() == (bytes@.len() + 7) / 8,
{
    let len: usize = bytes.len();
    let full: usize = len / 8;
    let rest: usize = len % 8;
    let mut r: Vec<u64> = Vec::new();
    let mut i: usize = 0;
    assert(bytes@.take(0) =~= Seq::<u8>::empty());
    while i < full
        invariant
            i <= full,
            len == bytes@.len(),
            full == len / 8,
            r@.len() == i,
            limbs_value(r@) == le_value(bytes@.take(8 * i)),
        decreases full - i,
    {
        let limb = limb_at(bytes, i * 8, 8);
        proof {
            let lo = bytes@.take(8 * i);
            let chunk = bytes@.subrange(8 * i, 8 * i + 8);
            assert(bytes@.take(8 * (i + 1)) =~= lo + chunk);
            lemma_le_value_concat(lo, chunk);
            lemma_limbs_value_push(r@, limb);
        }
        r.push(limb);
        i = i + 1;
    }
    if rest > 0 {
        let limb = limb_at(bytes, full * 8, rest);
        proof {
            let lo = bytes@.take(8 * full);
            let chunk = bytes@.subrange(8 * full, 8 * full + rest);
            assert(bytes@ =~= lo + chunk);
            lemma_le_value_concat(lo, chunk);
            lemma_limbs_value_push(r@, limb);
        }
        r.push(limb);
    } else {
        assert(bytes@.take(8 * full) =~= bytes@);
    }
    r
}

/// The little-endian bytes of the number that `limbs` spells, eight to a limb.
pub fn le_bytes_from_limbs(limbs: &Vec<u64>) -> (r: Vec<u8>)
    ensures
        le_value(r@) == limbs_value(limbs@),
        r@.len() == 8 * limbs@.len(),
{
    let mut r: Vec<u8> = Vec::new();
    let mut i: usize = 0;
    assert(limbs@.take(0) =~= Seq::<u64>::empty());
    while i < limbs.len()
        invariant
            i <= limbs@.len(),
            r@.len() == 8 * i,
            le_value(r@) == limbs_value(limbs@.take(i as int)),
        decreases limbs@.len() - i,
    {
        let limb: u64 = limbs[i];
        let mut chunk = crate::le_bytes::from_u64(limb);
        proof {
            lemma_le_value_concat(r@, chunk@);
            lemma_limbs_value_push(limbs@.take(i as int), limb);
            assert(limbs@.take(i + 1) =~= limbs@.take(i as int).push(limb));
        }
        r.append(&mut chunk);
        i = i + 1;
    }
    assert(limbs@.take(limbs@.len() as int) =~= limbs@);
    r
}

} // verus!
