//! What holds of the residues modulo a prime `q = 3 (mod 4)`: inverses,
//! cancellation, square roots and the quadratic character.

use vstd::arithmetic::div_mod::{
    lemma_mod_bound, lemma_mod_equivalence, lemma_mod_twice, lemma_small_mod,
};
use vstd::arithmetic::power::{
    lemma0_pow, lemma_pow1, lemma_pow_adds, lemma_pow_distributes, lemma_pow_mod_noop,
    lemma_pow_multiplies, pow,
};
use vstd::prelude::*;

use crate::message_encoding::model::{half, legendre, sqrt_exponent, sqrt_mod};
use crate::modular::{add_mod, has_inverse, inv_mod, is_inverse, mul_mod, neg_mod, pow_mod, sub_mod};
use crate::number_theory::{cong, is_prime, lemma_cong_mul, lemma_euclid, lemma_fermat_unit};

verus! {

/// Whether `q` is a prime that is `3 (mod 4)`.
pub open spec fn prime_field(q: nat) -> bool {
    is_prime(q) && q % 4 == 3
}

/// Each operation modulo `q` is congruent to the operation on the integers,
/// and its result is reduced.
pub proof fn lemma_ops(a: nat, b: nat, q: nat)
    requires
        q > 0,
    ensures
        cong(add_mod(a, b, q) as int, a as int + b as int, q as int),
        cong(sub_mod(a, b, q) as int, a - b, q as int),
        cong(mul_mod(a, b, q) as int, (a as int) * (b as int), q as int),
        cong(neg_mod(a, q) as int, -(a as int), q as int),
        add_mod(a, b, q) < q,
        sub_mod(a, b, q) < q,
        mul_mod(a, b, q) < q,
        neg_mod(a, q) < q,
{
    let qi = q as int;
    lemma_mod_twice((a + b) as int, qi);
    lemma_mod_twice(a - b, qi);
    lemma_mod_twice((a * b) as int, qi);
    lemma_mod_twice(-(a as int), qi);
    lemma_mod_bound((a + b) as int, qi);
    lemma_mod_bound(a - b, qi);
    lemma_mod_bound((a * b) as int, qi);
    lemma_mod_bound(-(a as int), qi);
}

/// Reduced numbers that are congruent are equal.
pub proof fn lemma_cong_reduced(a: nat, b: nat, q: nat)
    requires
        a < q,
        b < q,
        cong(a as int, b as int, q as int),
    ensures
        a == b,
{
    lemma_small_mod(a, q);
    lemma_small_mod(b, q);
}

/// A power of congruent bases is congruent, and `pow_mod` is congruent to the
/// power on the integers.
pub proof fn lemma_pow_cong(a: int, b: int, e: nat, q: nat)
    requires
        q > 0,
        cong(a, b, q as int),
    ensures
        cong(pow(a, e), pow(b, e), q as int),
{
    lemma_pow_mod_noop(a, e, q as int);
    lemma_pow_mod_noop(b, e, q as int);
}

/// The inverse that `inv_mod` names is one: `a inv_mod(a) = 1`.
pub proof fn lemma_inverse(a: nat, q: nat)
    requires
        q > 1,
        has_inverse(a, q),
    ensures
        cong((a as int) * (inv_mod(a, q) as int), 1, q as int),
        inv_mod(a, q) < q,
        a % q != 0,
        inv_mod(a, q) % q != 0,
{
    let x = inv_mod(a, q);
    assert(is_inverse(a, x, q));
    lemma_small_mod(1, q);
    lemma_small_mod(0, q);
    if a % q == 0 {
        lemma_cong_mul(a as int, 0, x as int, x as int, q as int);
        assert(0 * x == 0);
    }
    if x % q == 0 {
        lemma_cong_mul(a as int, a as int, x as int, 0, q as int);
        assert(a * 0 == 0);
    }
}

/// Modulo a prime, every residue but zero has an inverse.
pub proof fn lemma_unit(a: nat, q: nat)
    requires
        is_prime(q),
        a % q != 0,
    ensures
        has_inverse(a, q),
{
    let qi = q as int;
    let e = (q - 2) as nat;
    let x = pow_mod(a, e, q);
    lemma_fermat_unit(a, q);
    lemma_mod_bound(pow(a as int, e), qi);
    // a * a^(q - 2) = a^(q - 1)
    lemma_pow1(a as int);
    lemma_pow_adds(a as int, 1, e);
    lemma_mod_twice(pow(a as int, e), qi);
    lemma_cong_mul(a as int, a as int, x as int, pow(a as int, e), qi);
    lemma_small_mod(1, q);
    assert(is_inverse(a, x, q));
}

/// Modulo a prime, a product is zero only where a factor is.
pub proof fn lemma_zero_product(a: int, b: int, q: nat)
    requires
        is_prime(q),
        cong(a * b, 0, q as int),
    ensures
        cong(a, 0, q as int) || cong(b, 0, q as int),
{
    lemma_small_mod(0, q);
    lemma_euclid(a, b, q);
}

/// Modulo a prime, a factor that is not zero cancels.
pub proof fn lemma_cancel(a: int, x: int, y: int, q: nat)
    requires
        is_prime(q),
        a % (q as int) != 0,
        cong(a * x, a * y, q as int),
    ensures
        cong(x, y, q as int),
{
    let qi = q as int;
    lemma_mod_equivalence(a * x, a * y, qi);
    assert(a * (x - y) == a * x - a * y) by (nonlinear_arith);
    lemma_euclid(a, x - y, q);
    lemma_mod_equivalence(x, y, qi);
}

/// Modulo a prime, numbers with the same square are equal or opposite.
pub proof fn lemma_same_square(r: int, v: int, q: nat)
    requires
        is_prime(q),
        cong(r * r, v * v, q as int),
    ensures
        cong(r, v, q as int) || cong(r, -v, q as int),
{
    let qi = q as int;
    lemma_mod_equivalence(r * r, v * v, qi);
    assert((r - v) * (r + v) == r * r - v * v) by (nonlinear_arith);
    lemma_euclid(r - v, r + v, q);
    lemma_mod_equivalence(r, v, qi);
    lemma_mod_equivalence(r, -v, qi);
}

/// The two exponents of a prime field: `2 ((q + 1) / 4) = (q - 1) / 2 + 1`
/// and `2 ((q - 1) / 2) = q - 1`.
pub proof fn lemma_exponents(q: nat)
    requires
        q % 4 == 3,
    ensures
        2 * sqrt_exponent(q) == half(q) + 1,
        2 * half(q) == q - 1,
        sqrt_exponent(q) >= 1,
        half(q) >= 1,
{
}

/// Euler's criterion, one way: the square of a unit has character power one.
pub proof fn lemma_euler_of_square(v: nat, q: nat)
    requires
        prime_field(q),
        v % q != 0,
    ensures
        pow_mod(mul_mod(v, v, q), half(q), q) == 1,
        mul_mod(v, v, q) % q != 0,
{
    let qi = q as int;
    let vi = v as int;
    let h = half(q);
    lemma_exponents(q);
    lemma_ops(v, v, q);
    lemma_pow_cong(mul_mod(v, v, q) as int, vi * vi, h, q);
    // (v v)^h = (v^2)^h = v^(2 h) = v^(q - 1)
    lemma_pow1(vi);
    lemma_pow_adds(vi, 1, 1);
    lemma_pow_multiplies(vi, 2, h);
    lemma_fermat_unit(v, q);
    if mul_mod(v, v, q) % q == 0 {
        lemma_small_mod(0, q);
        lemma_mod_twice(vi * vi, qi);
        lemma_zero_product(vi, vi, q);
    }
}

/// Where the character power of `a` is one, or `a` is zero, the root
/// candidate of `a` is a root.
pub proof fn lemma_root_candidate(a: nat, q: nat)
    requires
        prime_field(q),
        a % q == 0 || pow_mod(a, half(q), q) == 1,
    ensures
        mul_mod(sqrt_mod(a, q), sqrt_mod(a, q), q) == a % q,
{
    let qi = q as int;
    let ai = a as int;
    let e = sqrt_exponent(q);
    let h = half(q);
    let r = sqrt_mod(a, q);
    lemma_exponents(q);
    lemma_mod_twice(pow(ai, e), qi);
    lemma_cong_mul(r as int, pow(ai, e), r as int, pow(ai, e), qi);
    lemma_pow_adds(ai, e, e);
    // r r = a^(h + 1) = a^h a
    lemma_pow_adds(ai, h, 1);
    lemma_pow1(ai);
    if a % q == 0 {
        lemma_small_mod(0, q);
        lemma_pow_cong(ai, 0, e + e, q);
        lemma0_pow(e + e);
    } else {
        lemma_small_mod(1, q);
        lemma_cong_mul(pow(ai, h), 1, ai, ai, qi);
        assert(1 * ai == ai);
    }
}

/// The root candidate of a square is a root of it.
pub proof fn lemma_sqrt_of_square(v: nat, q: nat)
    requires
        prime_field(q),
    ensures
        mul_mod(sqrt_mod(mul_mod(v, v, q), q), sqrt_mod(mul_mod(v, v, q), q), q) == mul_mod(
            v,
            v,
            q,
        ),
{
    let a = mul_mod(v, v, q);
    lemma_ops(v, v, q);
    lemma_small_mod(a, q);
    if v % q == 0 {
        lemma_small_mod(0, q);
        lemma_cong_mul(v as int, 0, v as int, 0, q as int);
        assert(0 * 0 == 0);
    } else {
        lemma_euler_of_square(v, q);
    }
    lemma_root_candidate(a, q);
}

/// The root candidate of the square of a reduced `v` is `v` or `-v`.
pub proof fn lemma_sqrt_is_plus_or_minus(v: nat, q: nat)
    requires
        prime_field(q),
        v < q,
    ensures
        sqrt_mod(mul_mod(v, v, q), q) == v || sqrt_mod(mul_mod(v, v, q), q) == neg_mod(v, q),
{
    let qi = q as int;
    let r = sqrt_mod(mul_mod(v, v, q), q);
    lemma_sqrt_of_square(v, q);
    lemma_ops(r, r, q);
    lemma_ops(v, v, q);
    lemma_same_square(r as int, v as int, q);
    lemma_mod_bound(pow(mul_mod(v, v, q) as int, sqrt_exponent(q)), qi);
    if cong(r as int, v as int, qi) {
        lemma_cong_reduced(r, v, q);
    } else {
        lemma_cong_reduced(r, neg_mod(v, q), q);
    }
}

/// Whether `a` is the square of some residue.
pub open spec fn is_square(a: nat, q: nat) -> bool {
    exists|x: nat| x < q && mul_mod(x, x, q) == a % q
}

/// Euler's criterion: the character is `1` for the squares that are not
/// zero, `0` for zero, and `-1` for what is not a square.
pub proof fn lemma_legendre(a: nat, q: nat)
    requires
        prime_field(q),
    ensures
        legendre(a, q) == 0 <==> a % q == 0,
        legendre(a, q) == 1 <==> a % q != 0 && is_square(a, q),
        legendre(a, q) == -1 <==> !is_square(a, q),
        legendre(a, q) != -1 ==> mul_mod(sqrt_mod(a, q), sqrt_mod(a, q), q) == a % q,
{
    let qi = q as int;
    let h = half(q);
    if a % q == 0 {
        lemma_small_mod(0, q);
        assert(mul_mod(0, 0, q) == 0) by {
            assert(0 * 0 == 0);
        }
        assert(is_square(a, q));
        lemma_root_candidate(a, q);
    } else if pow_mod(a, h, q) == 1 {
        lemma_root_candidate(a, q);
        lemma_mod_bound(pow(a as int, sqrt_exponent(q)), qi);
        assert(is_square(a, q));
    } else {
        if is_square(a, q) {
            let x = choose|x: nat| x < q && mul_mod(x, x, q) == a % q;
            if x % q == 0 {
                lemma_small_mod(0, q);
                lemma_cong_mul(x as int, 0, x as int, 0, qi);
                assert(0 * 0 == 0);
            } else {
                lemma_euler_of_square(x, q);
                lemma_mod_twice(a as int, qi);
                lemma_pow_cong(mul_mod(x, x, q) as int, a as int, h, q);
            }
        }
    }
}

/// The square of a unit has character `1`: masking by a square that is not
/// zero leaves the character as it is.
pub proof fn lemma_legendre_masked(r: nat, a: nat, q: nat)
    requires
        prime_field(q),
        r % q != 0,
    ensures
        legendre(mul_mod(mul_mod(r, r, q), a, q), q) == legendre(a, q),
{
    let qi = q as int;
    let h = half(q);
    let rr = mul_mod(r, r, q);
    let m = mul_mod(rr, a, q);
    lemma_euler_of_square(r, q);
    lemma_ops(rr, a, q);
    lemma_small_mod(0, q);
    lemma_small_mod(1, q);
    if a % q == 0 {
        lemma_cong_mul(rr as int, rr as int, a as int, 0, qi);
        assert(rr * 0 == 0);
        lemma_mod_twice((rr * a) as int, qi);
    } else {
        if m % q == 0 {
            lemma_mod_twice((rr * a) as int, qi);
            lemma_zero_product(rr as int, a as int, q);
        }
        // (rr a)^h = rr^h a^h = a^h
        lemma_pow_cong(m as int, (rr * a) as int, h, q);
        lemma_pow_distributes(rr as int, a as int, h);
        lemma_mod_twice(pow(rr as int, h), qi);
        lemma_cong_mul(pow(rr as int, h), 1, pow(a as int, h), pow(a as int, h), qi);
        assert(1 * pow(a as int, h) == pow(a as int, h));
    }
}

/// The character power of a unit is `1` or `-1`.
pub proof fn lemma_euler_values(a: nat, q: nat)
    requires
        prime_field(q),
        a % q != 0,
    ensures
        pow_mod(a, half(q), q) == 1 || pow_mod(a, half(q), q) == q - 1,
        legendre(a, q) == 1 || legendre(a, q) == -1,
{
    let qi = q as int;
    let ai = a as int;
    let h = half(q);
    let e = pow_mod(a, h, q);
    lemma_exponents(q);
    lemma_mod_twice(pow(ai, h), qi);
    lemma_mod_bound(pow(ai, h), qi);
    lemma_cong_mul(e as int, pow(ai, h), e as int, pow(ai, h), qi);
    lemma_pow_adds(ai, h, h);
    lemma_fermat_unit(a, q);
    lemma_small_mod(1, q);
    assert(1 * 1 == 1);
    lemma_same_square(e as int, 1, q);
    if cong(e as int, 1, qi) {
        lemma_cong_reduced(e, 1, q);
    } else {
        vstd::arithmetic::div_mod::lemma_mod_multiples_vanish(1, -1, qi);
        lemma_small_mod((q - 1) as nat, q);
        lemma_cong_reduced(e, (q - 1) as nat, q);
    }
}

/// The character reads the residue only.
pub proof fn lemma_legendre_cong(a: nat, b: nat, q: nat)
    requires
        q > 0,
        a % q == b % q,
    ensures
        legendre(a, q) == legendre(b, q),
{
    lemma_pow_cong(a as int, b as int, half(q), q);
}

/// The character of a product is the product of the characters.
pub proof fn lemma_legendre_mul(a: nat, b: nat, q: nat)
    requires
        prime_field(q),
    ensures
        legendre(mul_mod(a, b, q), q) == legendre(a, q) * legendre(b, q),
{
    let qi = q as int;
    let h = half(q);
    let m = mul_mod(a, b, q);
    let (ai, bi) = (a as int, b as int);
    lemma_ops(a, b, q);
    lemma_small_mod(0, q);
    lemma_small_mod(1, q);
    lemma_small_mod(m, q);
    if a % q == 0 || b % q == 0 {
        if a % q == 0 {
            lemma_cong_mul(ai, 0, bi, bi, qi);
            assert(0 * bi == 0);
        } else {
            lemma_cong_mul(ai, ai, bi, 0, qi);
            assert(ai * 0 == 0);
        }
        assert(legendre(a, q) * legendre(b, q) == 0) by (nonlinear_arith)
            requires
                legendre(a, q) == 0 || legendre(b, q) == 0,
        ;
    } else {
        if m % q == 0 {
            lemma_zero_product(ai, bi, q);
        }
        lemma_euler_values(a, q);
        lemma_euler_values(b, q);
        let ea = pow_mod(a, h, q) as int;
        let eb = pow_mod(b, h, q) as int;
        let em = pow_mod(m, h, q) as int;
        // m^h = a^h b^h
        lemma_pow_cong(m as int, ai * bi, h, q);
        lemma_pow_distributes(ai, bi, h);
        lemma_mod_twice(pow(ai, h), qi);
        lemma_mod_twice(pow(bi, h), qi);
        lemma_mod_twice(pow(m as int, h), qi);
        lemma_cong_mul(ea, pow(ai, h), eb, pow(bi, h), qi);
        assert(cong(em, ea * eb, qi));
        lemma_mod_bound(pow(m as int, h), qi);
        vstd::arithmetic::div_mod::lemma_mod_multiples_vanish(1, -1, qi);
        lemma_small_mod((q - 1) as nat, q);
        // -1 stands for q - 1
        let sa: int = if ea == 1 {
            1
        } else {
            -1
        };
        let sb: int = if eb == 1 {
            1
        } else {
            -1
        };
        lemma_cong_mul(ea, sa, eb, sb, qi);
        assert(sa * sb == 1 || sa * sb == -1) by (nonlinear_arith)
            requires
                sa == 1 || sa == -1,
                sb == 1 || sb == -1,
        ;
        assert(sa * sb == 1 <==> sa == sb) by (nonlinear_arith)
            requires
                sa == 1 || sa == -1,
                sb == 1 || sb == -1,
        ;
        if sa == sb {
            lemma_cong_reduced(em as nat, 1, q);
        } else {
            lemma_cong_reduced(em as nat, (q - 1) as nat, q);
        }
        assert(legendre(a, q) == sa && legendre(b, q) == sb);
        assert(legendre(a, q) * legendre(b, q) == sa * sb);
    }
}

} // verus!
