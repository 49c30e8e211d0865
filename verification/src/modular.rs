//! Arithmetic modulo a positive number, as mathematics: the model that the
//! field operations are stated over.

use vstd::arithmetic::div_mod::{lemma_mul_mod_noop_left, lemma_mul_mod_noop_right, lemma_small_mod};
use vstd::arithmetic::mul::lemma_mul_is_associative;
use vstd::arithmetic::power::pow;
use vstd::prelude::*;

verus! {

/// `a + b` modulo `q`.
pub open spec fn add_mod(a: nat, b: nat, q: nat) -> nat {
    (a + b) % q
}

/// `a - b` modulo `q`.
pub open spec fn sub_mod(a: nat, b: nat, q: nat) -> nat {
    ((a as int - b as int) % (q as int)) as nat
}

/// `-a` modulo `q`.
pub open spec fn neg_mod(a: nat, q: nat) -> nat {
    ((-(a as int)) % (q as int)) as nat
}

/// `a * b` modulo `q`.
pub open spec fn mul_mod(a: nat, b: nat, q: nat) -> nat {
    (a * b) % q
}

/// `a` to the power `e`, modulo `q`.
pub open spec fn pow_mod(a: nat, e: nat, q: nat) -> nat {
    (pow(a as int, e) % (q as int)) as nat
}

/// Whether `x` is the inverse of `a` modulo `q`: reduced, and `a * x = 1`.
pub open spec fn is_inverse(a: nat, x: nat, q: nat) -> bool {
    x < q && (a * x) % q == 1nat % q
}

/// Whether `a` has an inverse modulo `q`.
pub open spec fn has_inverse(a: nat, q: nat) -> bool {
    exists|x: nat| is_inverse(a, x, q)
}

/// The inverse of `a` modulo `q`, where it has one.
pub open spec fn inv_mod(a: nat, q: nat) -> nat {
    choose|x: nat| is_inverse(a, x, q)
}

/// An inverse modulo `q` is unique.
pub proof fn lemma_inverse_unique(a: nat, x: nat, y: nat, q: nat)
    requires
        q > 0,
        is_inverse(a, x, q),
        is_inverse(a, y, q),
    ensures
        x == y,
{
    let (ai, xi, yi, qi) = (a as int, x as int, y as int, q as int);
    if q == 1 {
    } else {
        lemma_small_mod(1, q);
        // x = x * (a * y) = (x * a) * y = y, all modulo q
        lemma_mul_mod_noop_right(xi, ai * yi, qi);
        lemma_mul_mod_noop_left(xi * ai, yi, qi);
        lemma_mul_is_associative(xi, ai, yi);
        assert(xi * ai == ai * xi) by (nonlinear_arith);
        assert(xi * 1 == xi && 1 * yi == yi);
        lemma_small_mod(x, q);
        lemma_small_mod(y, q);
    }
}

/// What `inv_mod` chooses is the inverse, where there is one.
pub proof fn lemma_inv_mod(a: nat, x: nat, q: nat)
    requires
        q > 0,
        is_inverse(a, x, q),
    ensures
        has_inverse(a, q),
        inv_mod(a, q) == x,
{
    lemma_inverse_unique(a, x, inv_mod(a, q), q);
}

} // verus!
