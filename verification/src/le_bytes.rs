//! Little-endian byte strings read as natural numbers.

use vstd::arithmetic::power::{lemma_pow0, lemma_pow_positive, pow};
use vstd::prelude::*;

verus! {

/// The natural number that `s` spells in base 256, least significant byte first.
pub open spec fn le_value(s: Seq<u8>) -> nat
    decreases s.len(),
{
    if s.len() == 0 {
        0
    } else {
        s[0] as nat + 256 * le_value(s.subrange(1, s.len() as int))
    }
}

/// `256^(n+1) = 256 * 256^n`.
pub proof fn lemma_pow256_step(n: nat)
    ensures
        pow(256, n + 1) == 256 * pow(256, n),
        pow(256, n) > 0,
{
    reveal(pow);
    lemma_pow_positive(256, n);
}

/// The value of a concatenation: the second part is shifted past the first.
pub proof fn lemma_le_value_concat(a: Seq<u8>, b: Seq<u8>)
    ensures
        le_value(a + b) == le_value(a) + pow(256, a.len()) * le_value(b),
    decreases a.len(),
{
    if a.len() == 0 {
        assert(a + b =~= b);
        lemma_pow0(256);
    } else {
        let a1 = a.subrange(1, a.len() as int);
        let ab = a + b;
        assert(ab.subrange(1, ab.len() as int) =~= a1 + b);
        lemma_le_value_concat(a1, b);
        lemma_pow256_step(a1.len());
        let p = pow(256, a1.len());
        let x = le_value(a1) as int;
        let y = le_value(b) as int;
        assert(256 * (x + p * y) == 256 * x + (256 * p) * y) by (nonlinear_arith);
    }
}

/// Appending one byte adds it at the weight of the old length.
pub proof fn lemma_le_value_push(s: Seq<u8>, byte: u8)
    ensures
        le_value(s.push(byte)) == le_value(s) + pow(256, s.len()) * (byte as nat),
{
    let t = seq![byte];
    assert(s.push(byte) =~= s + t);
    lemma_le_value_concat(s, t);
    assert(t.subrange(1, 1) =~= Seq::<u8>::empty());
    assert(le_value(t) == byte as nat) by {
        reveal_with_fuel(le_value, 2);
    }
}

/// A string of `n` bytes spells a number below `256^n`.
pub proof fn lemma_le_value_bound(s: Seq<u8>)
    ensures
        le_value(s) < pow(256, s.len()),
    decreases s.len(),
{
    if s.len() == 0 {
        lemma_pow0(256);
    } else {
        let s1 = s.subrange(1, s.len() as int);
        lemma_le_value_bound(s1);
        lemma_pow256_step(s1.len());
    }
}

/// Splitting a string at `i`: the low part plus the shifted high part.
pub proof fn lemma_le_value_split(s: Seq<u8>, i: int)
    requires
        0 <= i <= s.len(),
    ensures
        le_value(s) == le_value(s.take(i)) + pow(256, i as nat) * le_value(s.skip(i)),
{
    assert(s =~= s.take(i) + s.skip(i));
    lemma_le_value_concat(s.take(i), s.skip(i));
}

/// A string of zero bytes spells zero.
pub proof fn lemma_le_value_zeros(s: Seq<u8>)
    requires
        forall|i: int| 0 <= i < s.len() ==> s[i] == 0,
    ensures
        le_value(s) == 0,
    decreases s.len(),
{
    if s.len() > 0 {
        lemma_le_value_zeros(s.subrange(1, s.len() as int));
    }
}

/// A string that spells zero holds zero bytes only.
pub proof fn lemma_le_value_zero_bytes(s: Seq<u8>)
    requires
        le_value(s) == 0,
    ensures
        forall|i: int| 0 <= i < s.len() ==> s[i] == 0,
    decreases s.len(),
{
    if s.len() > 0 {
        let s1 = s.subrange(1, s.len() as int);
        lemma_le_value_zero_bytes(s1);
        assert forall|i: int| 0 <= i < s.len() implies s[i] == 0 by {
            if i > 0 {
                assert(s[i] == s1[i - 1]);
            }
        }
    }
}

/// Two strings of one length that agree above position `i` are ordered by
/// their bytes at `i`.
pub proof fn lemma_le_value_order(a: Seq<u8>, b: Seq<u8>, i: int)
    requires
        a.len() == b.len(),
        0 <= i < a.len(),
        forall|j: int| i < j < a.len() ==> a[j] == b[j],
        a[i] < b[i],
    ensures
        le_value(a) < le_value(b),
{
    lemma_le_value_split(a, i);
    lemma_le_value_split(b, i);
    lemma_le_value_bound(a.take(i));
    let ah = a.skip(i);
    let bh = b.skip(i);
    assert(ah.subrange(1, ah.len() as int) =~= bh.subrange(1, bh.len() as int));
    let h = le_value(ah.subrange(1, ah.len() as int)) as int;
    assert(le_value(ah) == a[i] as int + 256 * h);
    assert(le_value(bh) == b[i] as int + 256 * h);
    let p = pow(256, i as nat);
    lemma_pow_positive(256, i as nat);
    let x = le_value(ah) as int;
    let y = le_value(bh) as int;
    assert(p * (x + 1) <= p * y) by (nonlinear_arith)
        requires
            p > 0,
            x + 1 <= y,
    ;
    assert(p * (x + 1) == p * x + p) by (nonlinear_arith);
}

/// Strings of one length that spell the same number are the same string.
pub proof fn lemma_le_value_injective(a: Seq<u8>, b: Seq<u8>)
    requires
        a.len() == b.len(),
        le_value(a) == le_value(b),
    ensures
        a == b,
    decreases a.len(),
{
    if a.len() == 0 {
        assert(a =~= b);
    } else {
        let a1 = a.subrange(1, a.len() as int);
        let b1 = b.subrange(1, b.len() as int);
        assert(a[0] == b[0] && le_value(a1) == le_value(b1)) by {
            let x = le_value(a1) as int;
            let y = le_value(b1) as int;
            assert(a[0] as int + 256 * x == b[0] as int + 256 * y);
        }
        lemma_le_value_injective(a1, b1);
        assert forall|i: int| 0 <= i < a.len() implies a[i] == b[i] by {
            if i > 0 {
                assert(a[i] == a1[i - 1]);
                assert(b[i] == b1[i - 1]);
            }
        }
        assert(a =~= b);
    }
}

/// The `w`-byte spelling of `n`, for `n` below `256^w`.
pub open spec fn canonical_bytes(n: nat, w: nat) -> Seq<u8> {
    choose|s: Seq<u8>| s.len() == w && le_value(s) == n
}

/// A string is the canonical spelling of its value at its length.
pub proof fn lemma_canonical_bytes(s: Seq<u8>)
    ensures
        canonical_bytes(le_value(s), s.len()) == s,
{
    let t = canonical_bytes(le_value(s), s.len());
    lemma_le_value_injective(t, s);
}

/// The canonical spelling of a string's value at a greater length starts with
/// the string: the rest is zero bytes.
pub proof fn lemma_canonical_extension(s: Seq<u8>, w: nat)
    requires
        s.len() <= w,
    ensures
        canonical_bytes(le_value(s), w).len() == w,
        canonical_bytes(le_value(s), w).subrange(0, s.len() as int) == s,
{
    let z = Seq::new((w - s.len()) as nat, |i: int| 0u8);
    let ext = s + z;
    lemma_le_value_concat(s, z);
    lemma_le_value_zeros(z);
    assert(pow(256, s.len()) * 0 == 0) by (nonlinear_arith);
    lemma_canonical_bytes(ext);
    assert(ext.subrange(0, s.len() as int) =~= s);
}

/// Whether the two strings are the same.
pub fn same_bytes(a: &[u8], b: &[u8]) -> (r: bool)
    ensures
        r == (a@ == b@),
{
    if a.len() != b.len() {
        return false;
    }
    let mut i: usize = 0;
    while i < a.len()
        invariant
            i <= a@.len(),
            a@.len() == b@.len(),
            forall|j: int| 0 <= j < i ==> a@[j] == b@[j],
        decreases a@.len() - i,
    {
        if a[i] != b[i] {
            return false;
        }
        i = i + 1;
    }
    assert(a@ =~= b@);
    true
}

/// The eight little-endian bytes of `x`.
pub fn from_u64(x: u64) -> (r: Vec<u8>)
    ensures
        r@.len() == 8,
        le_value(r@) == x,
{
    let mut r: Vec<u8> = Vec::new();
    let mut rest: u64 = x;
    let mut i: usize = 0;
    proof {
        lemma_pow0(256);
    }
    while i < 8
        invariant
            i <= 8,
            r@.len() == i,
            le_value(r@) + pow(256, i as nat) * (rest as int) == x,
        decreases 8 - i,
    {
        let byte: u8 = (rest % 256) as u8;
        proof {
            lemma_le_value_push(r@, byte);
            lemma_pow256_step(i as nat);
            let p = pow(256, i as nat);
            let q = (rest / 256) as int;
            let b = byte as int;
            assert(rest as int == 256 * q + b);
            assert(p * (256 * q + b) == p * b + (256 * p) * q) by (nonlinear_arith);
        }
        r.push(byte);
        rest = rest / 256;
        i = i + 1;
    }
    proof {
        lemma_le_value_bound(r@);
        let p = pow(256, 8);
        lemma_pow_positive(256, 8);
        if rest > 0 {
            assert(p * (rest as int) >= p) by (nonlinear_arith)
                requires
                    p > 0,
                    rest >= 1,
            ;
            lemma_pow256_8();
        }
    }
    r
}

/// `256^8 = 2^64`.
pub proof fn lemma_pow256_8()
    ensures
        pow(256, 8) == 0x1_0000_0000_0000_0000,
{
    reveal_with_fuel(pow, 9);
}

/// A copy of `a` lengthened to `n` bytes with zero bytes: the same number.
pub fn pad_to(a: &Vec<u8>, n: usize) -> (r: Vec<u8>)
    requires
        a@.len() <= n,
    ensures
        r@.len() == n,
        le_value(r@) == le_value(a@),
        r@.take(a@.len() as int) == a@,
        forall|i: int| a@.len() <= i < n ==> r@[i] == 0,
{
    let mut r: Vec<u8> = Vec::new();
    let mut i: usize = 0;
    while i < a.len()
        invariant
            i <= a@.len(),
            r@ == a@.take(i as int),
        decreases a@.len() - i,
    {
        r.push(a[i]);
        i = i + 1;
        assert(r@ =~= a@.take(i as int));
    }
    assert(a@.take(a@.len() as int) =~= a@);
    while i < n
        invariant
            a@.len() <= i <= n,
            r@.len() == i,
            r@.take(a@.len() as int) == a@,
            forall|j: int| a@.len() <= j < i ==> r@[j] == 0,
        decreases n - i,
    {
        r.push(0u8);
        i = i + 1;
        assert(r@.take(a@.len() as int) =~= a@);
    }
    proof {
        let k = a@.len() as int;
        lemma_le_value_split(r@, k);
        lemma_le_value_zeros(r@.skip(k));
        assert(pow(256, k as nat) * 0 == 0) by (nonlinear_arith);
    }
    r
}

/// The `n`-byte spelling of a number below `256^n`.
pub fn to_width(a: &Vec<u8>, n: usize) -> (r: Vec<u8>)
    requires
        le_value(a@) < pow(256, n as nat),
    ensures
        r@.len() == n,
        le_value(r@) == le_value(a@),
        r@ == canonical_bytes(le_value(a@), n as nat),
{
    if a.len() <= n {
        let r = pad_to(a, n);
        proof {
            lemma_canonical_bytes(r@);
        }
        r
    } else {
        let mut r: Vec<u8> = Vec::new();
        let mut i: usize = 0;
        while i < n
            invariant
                i <= n,
                n < a@.len(),
                r@ == a@.take(i as int),
            decreases n - i,
        {
            r.push(a[i]);
            i = i + 1;
            assert(r@ =~= a@.take(i as int));
        }
        proof {
            lemma_le_value_split(a@, n as int);
            let p = pow(256, n as nat);
            let h = le_value(a@.skip(n as int)) as int;
            lemma_pow_positive(256, n as nat);
            if h > 0 {
                assert(p * h >= p) by (nonlinear_arith)
                    requires
                        p > 0,
                        h >= 1,
                ;
            }
            assert(p * 0 == 0) by (nonlinear_arith);
            lemma_canonical_bytes(r@);
        }
        r
    }
}

/// Whether `a` spells a smaller number than `b`.
pub fn less_than(a: &Vec<u8>, b: &Vec<u8>) -> (r: bool)
    ensures
        r == (le_value(a@) < le_value(b@)),
{
    let n: usize = if a.len() < b.len() {
        b.len()
    } else {
        a.len()
    };
    let x = pad_to(a, n);
    let y = pad_to(b, n);
    let mut i: usize = n;
    while i > 0
        invariant
            i <= n,
            x@.len() == n,
            y@.len() == n,
            le_value(x@) == le_value(a@),
            le_value(y@) == le_value(b@),
            forall|j: int| i <= j < n ==> x@[j] == y@[j],
        decreases i,
    {
        i = i - 1;
        if x[i] < y[i] {
            proof {
                lemma_le_value_order(x@, y@, i as int);
            }
            return true;
        }
        if y[i] < x[i] {
            proof {
                lemma_le_value_order(y@, x@, i as int);
            }
            return false;
        }
    }
    assert(x@ =~= y@);
    false
}

/// Whether `a` and `b` spell the same number.
pub fn same_value(a: &Vec<u8>, b: &Vec<u8>) -> (r: bool)
    ensures
        r == (le_value(a@) == le_value(b@)),
{
    !less_than(a, b) && !less_than(b, a)
}

/// Whether `a` spells zero.
pub fn is_zero_value(a: &Vec<u8>) -> (r: bool)
    ensures
        r == (le_value(a@) == 0),
{
    let mut i: usize = 0;
    while i < a.len()
        invariant
            i <= a@.len(),
            forall|j: int| 0 <= j < i ==> a@[j] == 0,
        decreases a@.len() - i,
    {
        if a[i] != 0 {
            proof {
                if le_value(a@) == 0 {
                    lemma_le_value_zero_bytes(a@);
                }
            }
            return false;
        }
        i = i + 1;
    }
    proof {
        lemma_le_value_zeros(a@);
    }
    true
}

} // verus!
