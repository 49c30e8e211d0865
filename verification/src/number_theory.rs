//! Congruences, primes, and Fermat's little theorem: the number theory that
//! the laws of the encoding rest on.

use vstd::arithmetic::div_mod::{
    lemma_add_mod_noop, lemma_fundamental_div_mod, lemma_mod_equivalence, lemma_mod_multiples_basic,
    lemma_mul_mod_noop, lemma_small_mod, lemma_sub_mod_noop,
};
use vstd::arithmetic::power::{lemma0_pow, lemma_pow0, pow};
use vstd::prelude::*;

verus! {

/// Whether `a` and `b` leave the same remainder modulo `q`.
pub open spec fn cong(a: int, b: int, q: int) -> bool {
    a % q == b % q
}

/// Whether `d` divides `n`.
pub open spec fn divides(d: nat, n: nat) -> bool {
    n % d == 0
}

/// Whether `p` is a prime number.
pub open spec fn is_prime(p: nat) -> bool {
    p >= 2 && forall|d: nat| 1 < d < p ==> !#[trigger] divides(d, p)
}

/// Sums of congruent numbers are congruent.
pub proof fn lemma_cong_add(a: int, a2: int, b: int, b2: int, q: int)
    requires
        q > 0,
        cong(a, a2, q),
        cong(b, b2, q),
    ensures
        cong(a + b, a2 + b2, q),
{
    lemma_add_mod_noop(a, b, q);
    lemma_add_mod_noop(a2, b2, q);
}

/// Differences of congruent numbers are congruent.
pub proof fn lemma_cong_sub(a: int, a2: int, b: int, b2: int, q: int)
    requires
        q > 0,
        cong(a, a2, q),
        cong(b, b2, q),
    ensures
        cong(a - b, a2 - b2, q),
{
    lemma_sub_mod_noop(a, b, q);
    lemma_sub_mod_noop(a2, b2, q);
}

/// Products of congruent numbers are congruent.
pub proof fn lemma_cong_mul(a: int, a2: int, b: int, b2: int, q: int)
    requires
        q > 0,
        cong(a, a2, q),
        cong(b, b2, q),
    ensures
        cong(a * b, a2 * b2, q),
{
    lemma_mul_mod_noop(a, b, q);
    lemma_mul_mod_noop(a2, b2, q);
}

/// A multiple of a multiple of `q` is a multiple of `q`.
pub proof fn lemma_multiple_of_multiple(k: int, x: int, q: int)
    requires
        q > 0,
        x % q == 0,
    ensures
        (k * x) % q == 0,
        (x * k) % q == 0,
{
    lemma_small_mod(0, q as nat);
    lemma_cong_mul(k, k, x, 0, q);
    assert(k * 0 == 0);
    assert(x * k == k * x) by (nonlinear_arith);
}

/// Euclid's lemma for a factor below the prime: a prime that divides `a b`
/// with `0 < a < p` divides `b`.
pub proof fn lemma_euclid_small(a: nat, b: int, p: nat)
    requires
        is_prime(p),
        0 < a < p,
        (a * b) % (p as int) == 0,
    ensures
        b % (p as int) == 0,
    decreases a,
{
    let pi = p as int;
    if a == 1 {
        assert(1 * b == b);
    } else {
        let m = (p / a) as int;
        let r = p % a;
        lemma_fundamental_div_mod(pi, a as int);
        assert(!divides(a, p));
        assert(r * b == b * pi - m * (a * b)) by (nonlinear_arith)
            requires
                pi == a * m + r,
        ;
        lemma_mod_multiples_basic(b, pi);
        lemma_multiple_of_multiple(m, a * b, pi);
        lemma_small_mod(0, p);
        lemma_cong_sub(b * pi, 0, m * (a * b), 0, pi);
        lemma_euclid_small(r, b, p);
    }
}

/// Euclid's lemma: a prime that divides a product divides a factor.
pub proof fn lemma_euclid(a: int, b: int, p: nat)
    requires
        is_prime(p),
        (a * b) % (p as int) == 0,
    ensures
        a % (p as int) == 0 || b % (p as int) == 0,
{
    let pi = p as int;
    let r = a % pi;
    if r != 0 {
        lemma_small_mod(r as nat, p);
        lemma_cong_mul(a, r, b, b, pi);
        lemma_euclid_small(r as nat, b, p);
    }
}

/// The binomial coefficient `n` over `k`, by Pascal's rule.
pub open spec fn binomial(n: nat, k: nat) -> nat
    decreases n,
{
    if k == 0 {
        1
    } else if n == 0 {
        0
    } else {
        binomial((n - 1) as nat, (k - 1) as nat) + binomial((n - 1) as nat, k)
    }
}

/// `n` over `k` is zero for `k` above `n`, and `n` over `n` is one.
pub proof fn lemma_binomial_edge(n: nat, k: nat)
    ensures
        k > n ==> binomial(n, k) == 0,
        binomial(n, n) == 1,
    decreases n,
{
    if n > 0 {
        if k > 0 {
            lemma_binomial_edge((n - 1) as nat, (k - 1) as nat);
            lemma_binomial_edge((n - 1) as nat, k);
        }
        lemma_binomial_edge((n - 1) as nat, n);
        lemma_binomial_edge((n - 1) as nat, (n - 1) as nat);
    }
}

/// `k (n over k) = n (n - 1 over k - 1)`.
pub proof fn lemma_binomial_absorb(n: nat, k: nat)
    requires
        n >= 1,
        k >= 1,
    ensures
        k * binomial(n, k) == n * binomial((n - 1) as nat, (k - 1) as nat),
    decreases n,
{
    let n1 = (n - 1) as nat;
    let k1 = (k - 1) as nat;
    if n == 1 {
        if k >= 2 {
            lemma_binomial_edge(0, k1);
            lemma_binomial_edge(0, k);
            assert(binomial(1, k) == 0);
        } else {
            assert(binomial(1, 1) == binomial(0, 0) + binomial(0, 1));
        }
        assert(k * binomial(n, k) == n * binomial(n1, k1)) by (nonlinear_arith)
            requires
                n == 1,
                (k >= 2 && binomial(n, k) == 0 && binomial(n1, k1) == 0) || (k == 1 && binomial(
                    n,
                    k,
                ) == 1 && binomial(n1, k1) == 1),
        ;
    } else {
        let n2 = (n - 2) as nat;
        // Pascal's rule at (n, k)
        let x = binomial(n1, k1) as int;
        let y = binomial(n1, k) as int;
        assert(binomial(n, k) == x + y);
        lemma_binomial_absorb(n1, k);
        // k y == (n - 1) binomial(n - 2, k - 1)
        let z = binomial(n2, k1) as int;
        if k == 1 {
            assert(x == 1);
            assert(z == 1);
            assert(k * (x + y) == n * x) by (nonlinear_arith)
                requires
                    k == 1,
                    x == 1,
                    z == 1,
                    k * y == (n - 1) * z,
            ;
        } else {
            let k2 = (k - 2) as nat;
            lemma_binomial_absorb(n1, k1);
            // (k - 1) x == (n - 1) binomial(n - 2, k - 2)
            let t = binomial(n2, k2) as int;
            assert(x == t + z);
            assert(k * (x + y) == n * x) by (nonlinear_arith)
                requires
                    x == t + z,
                    k * y == (n - 1) * z,
                    (k - 1) * x == (n - 1) * t,
            ;
        }
    }
}

/// A prime divides its binomial coefficients but the first and the last.
pub proof fn lemma_binomial_prime(p: nat, k: nat)
    requires
        is_prime(p),
        0 < k < p,
    ensures
        binomial(p, k) % p == 0,
{
    lemma_binomial_absorb(p, k);
    let c = binomial((p - 1) as nat, (k - 1) as nat) as int;
    lemma_mod_multiples_basic(c, p as int);
    assert(c * p == p * c) by (nonlinear_arith);
    lemma_euclid_small(k, binomial(p, k) as int, p);
}

/// The sum of `(n over j) a^j` for `j` from `0` to `k`.
pub open spec fn binomial_sum(n: nat, k: nat, a: int) -> int
    decreases k,
{
    if k == 0 {
        1
    } else {
        binomial_sum(n, (k - 1) as nat, a) + binomial(n, k) * pow(a, k)
    }
}

/// Pascal's rule for the sums: the sum for `n + 1` is that for `n` plus `a`
/// times the sum for `n` that ends one term earlier.
pub proof fn lemma_binomial_sum_step(n: nat, k: nat, a: int)
    requires
        k >= 1,
    ensures
        binomial_sum(n + 1, k, a) == binomial_sum(n, k, a) + a * binomial_sum(
            n,
            (k - 1) as nat,
            a,
        ),
    decreases k,
{
    let k1 = (k - 1) as nat;
    let c0 = binomial(n, k1) as int;
    let c1 = binomial(n, k) as int;
    assert(binomial(n + 1, k) == c0 + c1);
    let pk = pow(a, k);
    let pk1 = pow(a, k1);
    assert(pk == a * pk1) by {
        reveal(pow);
    }
    if k == 1 {
        lemma_pow0(a);
        assert(binomial_sum(n + 1, 0, a) == 1);
        assert(binomial_sum(n, 0, a) == 1);
        assert(c0 == 1);
        assert(binomial_sum(n + 1, 1, a) == 1 + (c0 + c1) * pk);
        assert(binomial_sum(n, 1, a) == 1 + c1 * pk);
        assert(1 + (c0 + c1) * pk == 1 + c1 * pk + a * 1) by (nonlinear_arith)
            requires
                c0 == 1,
                pk == a * pk1,
                pk1 == 1,
        ;
    } else {
        let k2 = (k - 2) as nat;
        lemma_binomial_sum_step(n, k1, a);
        let s1 = binomial_sum(n, k1, a);
        let s2 = binomial_sum(n, k2, a);
        assert(binomial_sum(n + 1, k, a) == (s1 + a * s2) + (c0 + c1) * pk);
        assert(binomial_sum(n, k, a) == s1 + c1 * pk);
        assert(s1 == s2 + c0 * pk1);
        assert((s1 + a * s2) + (c0 + c1) * pk == (s1 + c1 * pk) + a * s1) by (nonlinear_arith)
            requires
                s1 == s2 + c0 * pk1,
                pk == a * pk1,
        ;
    }
}

/// The binomial theorem: `(a + 1)^n` is the full sum.
pub proof fn lemma_binomial_theorem(n: nat, a: int)
    ensures
        pow(a + 1, n) == binomial_sum(n, n, a),
    decreases n,
{
    if n == 0 {
        lemma_pow0(a + 1);
    } else {
        let n1 = (n - 1) as nat;
        lemma_binomial_theorem(n1, a);
        let s = binomial_sum(n1, n1, a);
        assert(pow(a + 1, n) == (a + 1) * pow(a + 1, n1)) by {
            reveal(pow);
        }
        lemma_binomial_sum_step(n1, n, a);
        lemma_binomial_edge(n1, n);
        assert(binomial_sum(n1, n, a) == s + binomial(n1, n) * pow(a, n));
        assert(0 * pow(a, n) == 0);
        assert((a + 1) * s == s + a * s) by (nonlinear_arith);
    }
}

/// Modulo a prime `p`, the sums for `n = p` that end before the last term are
/// one.
pub proof fn lemma_binomial_sum_prime(p: nat, k: nat, a: int)
    requires
        is_prime(p),
        k < p,
    ensures
        cong(binomial_sum(p, k, a), 1, p as int),
    decreases k,
{
    if k > 0 {
        let k1 = (k - 1) as nat;
        lemma_binomial_sum_prime(p, k1, a);
        lemma_binomial_prime(p, k);
        lemma_multiple_of_multiple(pow(a, k), binomial(p, k) as int, p as int);
        lemma_small_mod(0, p);
        lemma_cong_add(binomial_sum(p, k1, a), 1, binomial(p, k) * pow(a, k), 0, p as int);
    }
}

/// Modulo a prime `p`, `(a + 1)^p = a^p + 1`.
pub proof fn lemma_freshman(p: nat, a: int)
    requires
        is_prime(p),
    ensures
        cong(pow(a + 1, p), pow(a, p) + 1, p as int),
{
    let p1 = (p - 1) as nat;
    lemma_binomial_theorem(p, a);
    lemma_binomial_sum_prime(p, p1, a);
    lemma_binomial_edge(p, p);
    assert(binomial_sum(p, p, a) == binomial_sum(p, p1, a) + 1 * pow(a, p));
    assert(1 * pow(a, p) == pow(a, p));
    lemma_cong_add(binomial_sum(p, p1, a), 1, pow(a, p), pow(a, p), p as int);
}

/// Fermat's little theorem: `a^p = a` modulo a prime `p`.
pub proof fn lemma_fermat(a: nat, p: nat)
    requires
        is_prime(p),
    ensures
        cong(pow(a as int, p), a as int, p as int),
    decreases a,
{
    if a == 0 {
        lemma0_pow(p);
    } else {
        let a1 = (a - 1) as nat;
        lemma_fermat(a1, p);
        lemma_freshman(p, a1 as int);
        lemma_cong_add(pow(a1 as int, p), a1 as int, 1, 1, p as int);
    }
}

/// Fermat's little theorem for a unit: `a^(p - 1) = 1` modulo a prime `p`
/// that does not divide `a`.
pub proof fn lemma_fermat_unit(a: nat, p: nat)
    requires
        is_prime(p),
        a % p != 0,
    ensures
        pow(a as int, (p - 1) as nat) % (p as int) == 1,
{
    let pi = p as int;
    let ai = a as int;
    let e = pow(ai, (p - 1) as nat);
    lemma_fermat(a, p);
    assert(pow(ai, p) == ai * e) by {
        reveal(pow);
    }
    lemma_mod_equivalence(ai * e, ai, pi);
    assert(ai * (e - 1) == ai * e - ai) by (nonlinear_arith);
    lemma_euclid(ai, e - 1, p);
    lemma_mod_equivalence(e, 1, pi);
    lemma_small_mod(1, p);
}

} // verus!
