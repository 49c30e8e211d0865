//! The Fouque-Tibouchi map and its inverse branches as mathematics, over the
//! residues modulo `q` of the curve `y^2 = x^3 + b`.

use vstd::prelude::*;

use crate::modular::{add_mod, has_inverse, inv_mod, mul_mod, neg_mod, pow_mod, sub_mod};

verus! {

/// `(q - 1) / 2`: the bound that splits the residues into the two signs.
pub open spec fn half(q: nat) -> nat {
    ((q - 1) / 2) as nat
}

/// `(q + 1) / 4`: the exponent that takes a square to one of its roots when
/// `q = 3 (mod 4)`.
pub open spec fn sqrt_exponent(q: nat) -> nat {
    (q + 1) / 4
}

/// The root candidate of `a`: `a^((q + 1) / 4)`.
pub open spec fn sqrt_mod(a: nat, q: nat) -> nat {
    pow_mod(a, sqrt_exponent(q), q)
}

/// The quadratic character of `a` by Euler's criterion: `0` for a multiple of
/// `q`, `1` where `a^((q - 1) / 2) = 1`, and `-1` otherwise.
pub open spec fn legendre(a: nat, q: nat) -> int {
    if a % q == 0 {
        0
    } else if pow_mod(a, half(q), q) == 1 {
        1
    } else {
        -1
    }
}

/// The sign of a residue: `1` below `(q - 1) / 2`, else `-1`.
pub open spec fn sign(a: nat, q: nat) -> int {
    if a < half(q) {
        1
    } else {
        -1
    }
}

/// `x^3 + b`: the right-hand side of the curve equation.
pub open spec fn cube_plus_b(x: nat, q: nat, b: nat) -> nat {
    add_mod(mul_mod(mul_mod(x, x, q), x, q), b, q)
}

/// Whether `(x, y)` satisfies `y^2 = x^3 + b`.
pub open spec fn on_curve(x: nat, y: nat, q: nat, b: nat) -> bool {
    mul_mod(y, y, q) == cube_plus_b(x, q, b)
}

/// The root candidate of `-3`.
pub open spec fn sqrt_minus_3(q: nat) -> nat {
    sqrt_mod(neg_mod(3, q), q)
}

/// `(sqrt(-3) - 1) / 2`.
pub open spec fn sqrt_minus_3_minus_1_div_2(q: nat) -> nat {
    mul_mod(add_mod(neg_mod(1, q), sqrt_minus_3(q), q), inv_mod(2, q), q)
}

/// `-sqrt(-3) / 2`.
pub open spec fn minus_sqrt_minus_3_div_2(q: nat) -> nat {
    mul_mod(inv_mod(2, q), neg_mod(sqrt_minus_3(q), q), q)
}

/// `-4 (b + 1)`.
pub open spec fn minus_4_times_b_plus_1(q: nat, b: nat) -> nat {
    mul_mod(neg_mod(4, q), add_mod(b, 1, q), q)
}

/// Whether the modulus `q` admits the map: `q = 3 (mod 4)`, `2` is invertible
/// and the root candidate of `-3` is a root.
pub open spec fn config_valid(q: nat) -> bool {
    &&& q % 4 == 3
    &&& has_inverse(2, q)
    &&& mul_mod(sqrt_minus_3(q), sqrt_minus_3(q), q) == neg_mod(3, q)
}

/// `1 + b + v^2`, the denominator of `w`.
pub open spec fn ft_denominator(v: nat, q: nat, b: nat) -> nat {
    add_mod(add_mod(b, 1, q), mul_mod(v, v, q), q)
}

/// `w = -sqrt(-3) v / (1 + b + v^2)`.
pub open spec fn ft_w(v: nat, q: nat, b: nat) -> nat {
    mul_mod(
        mul_mod(neg_mod(sqrt_minus_3(q), q), v, q),
        inv_mod(ft_denominator(v, q, b), q),
        q,
    )
}

/// `u = 1 / w`.
pub open spec fn ft_u(v: nat, q: nat, b: nat) -> nat {
    inv_mod(ft_w(v, q, b), q)
}

/// `x1 = (sqrt(-3) - 1) / 2 + v w`.
pub open spec fn ft_x1(v: nat, q: nat, b: nat) -> nat {
    add_mod(sqrt_minus_3_minus_1_div_2(q), mul_mod(v, ft_w(v, q, b), q), q)
}

/// `x2 = -1 - x1`.
pub open spec fn ft_x2(v: nat, q: nat, b: nat) -> nat {
    sub_mod(neg_mod(1, q), ft_x1(v, q, b), q)
}

/// `x3 = 1 + u^2`.
pub open spec fn ft_x3(v: nat, q: nat, b: nat) -> nat {
    add_mod(1, mul_mod(ft_u(v, q, b), ft_u(v, q, b), q), q)
}

/// Whether `v` is in the domain of the map: `1 + b + v^2` and `w` are
/// invertible.
pub open spec fn ft_defined(v: nat, q: nat, b: nat) -> bool {
    has_inverse(ft_denominator(v, q, b), q) && has_inverse(ft_w(v, q, b), q)
}

/// The branch that the two characters select: `1` where the first is `1`,
/// else `2` where the second is `1`, else `3`.
pub open spec fn branch_index(alpha: int, beta: int) -> int {
    ((alpha - 1) * beta + 3) % 3 + 1
}

/// The character of `x1^3 + b`, masked by `r1^2`.
pub open spec fn ft_alpha(v: nat, r1: nat, q: nat, b: nat) -> int {
    legendre(mul_mod(mul_mod(r1, r1, q), cube_plus_b(ft_x1(v, q, b), q, b), q), q)
}

/// The character of `x2^3 + b`, masked by `r2^2`.
pub open spec fn ft_beta(v: nat, r2: nat, q: nat, b: nat) -> int {
    legendre(mul_mod(mul_mod(r2, r2, q), cube_plus_b(ft_x2(v, q, b), q, b), q), q)
}

/// The x-coordinate of branch `idx`.
pub open spec fn ft_x(idx: int, v: nat, q: nat, b: nat) -> nat {
    if idx == 1 {
        ft_x1(v, q, b)
    } else if idx == 2 {
        ft_x2(v, q, b)
    } else {
        ft_x3(v, q, b)
    }
}

/// `sqrt(-3 u^2 - 4 (b + 1))`: the root candidate of the discriminant of
/// `v^2 + sqrt(-3) u v + b + 1`, the quadratic that the preimages above `u`
/// solve.
pub open spec fn branch_3_delta(u: nat, q: nat, b: nat) -> nat {
    sqrt_mod(
        add_mod(mul_mod(neg_mod(3, q), mul_mod(u, u, q), q), minus_4_times_b_plus_1(q, b), q),
        q,
    )
}

/// The value that `v` is held against on branch 3:
/// `u (-sqrt(-3) / 2) - sqrt(-3 u^2 - 4 (b + 1)) / 2`.
pub open spec fn branch_3_mark(u: nat, q: nat, b: nat) -> nat {
    sub_mod(
        mul_mod(u, minus_sqrt_minus_3_div_2(q), q),
        mul_mod(branch_3_delta(u, q, b), inv_mod(2, q), q),
        q,
    )
}

/// The sign that `y` must carry: on branches 1 and 2 the sign of `v`, on
/// branch 3 whether `v` is the marked root.
pub open spec fn character(idx: int, v: nat, u: nat, q: nat, b: nat) -> int {
    if idx == 1 || idx == 2 {
        sign(v, q)
    } else if v == branch_3_mark(u, q, b) {
        1
    } else {
        -1
    }
}

/// The hint of branch `idx`: the index itself on branches 1 and 2; on branch
/// 3, `3` where `u` has sign `1` and `4` otherwise.
pub open spec fn hint_of(idx: int, u: nat, q: nat) -> u8 {
    if idx == 1 {
        1
    } else if idx == 2 {
        2
    } else if sign(u, q) == 1 {
        3
    } else {
        4
    }
}

/// A root candidate with its sign corrected to `wanted`.
pub open spec fn with_sign(y: nat, wanted: int, q: nat) -> nat {
    if sign(y, q) != wanted {
        neg_mod(y, q)
    } else {
        y
    }
}

/// The point and hint of `v` under masks `r1` and `r2`, or `None` where `v`
/// is outside the domain, a masked character is zero, or the candidate point
/// misses the curve.
#[verifier::opaque]
pub open spec fn encode_model(v: nat, r1: nat, r2: nat, q: nat, b: nat) -> Option<(nat, nat, u8)> {
    let alpha = ft_alpha(v, r1, q, b);
    let beta = ft_beta(v, r2, q, b);
    let idx = branch_index(alpha, beta);
    let u = ft_u(v, q, b);
    let x = ft_x(idx, v, q, b);
    let y = with_sign(sqrt_mod(cube_plus_b(x, q, b), q), character(idx, v, u, q, b), q);
    if !ft_defined(v, q, b) || alpha == 0 || beta == 0 || !on_curve(x, y, q, b) {
        None
    } else {
        Some((x, y, hint_of(idx, u, q)))
    }
}

/// The preimage of `x` on branch 1 with the sign that `y` carries, if any:
/// `v^2 = (b + 1) / (sqrt(-3) / (c - x) - 1)` with `c = (sqrt(-3) - 1) / 2`.
#[verifier::opaque]
pub open spec fn decode_branch_12(x: nat, y: nat, q: nat, b: nat) -> Option<nat> {
    let a = neg_mod(sub_mod(x, sqrt_minus_3_minus_1_div_2(q), q), q);
    let e = add_mod(mul_mod(inv_mod(a, q), sqrt_minus_3(q), q), neg_mod(1, q), q);
    let z = mul_mod(inv_mod(e, q), add_mod(b, 1, q), q);
    if !has_inverse(a, q) || !has_inverse(e, q) || legendre(z, q) == -1 {
        None
    } else {
        Some(with_sign(sqrt_mod(z, q), sign(y, q), q))
    }
}

/// The preimage above `u` on branch 3 that `y` selects, if any:
/// `v = u (-sqrt(-3) / 2) -/+ sqrt(-3 u^2 - 4 (b + 1)) / 2`.
#[verifier::opaque]
pub open spec fn decode_branch_34(u: nat, y: nat, q: nat, b: nat) -> Option<nat> {
    let z = add_mod(mul_mod(mul_mod(u, u, q), neg_mod(3, q), q), minus_4_times_b_plus_1(q, b), q);
    let mid = mul_mod(minus_sqrt_minus_3_div_2(q), u, q);
    let step = mul_mod(sqrt_mod(z, q), inv_mod(2, q), q);
    if legendre(z, q) == -1 {
        None
    } else if sign(y, q) == 1 {
        Some(sub_mod(mid, step, q))
    } else {
        Some(add_mod(mid, step, q))
    }
}

/// The `u` of a branch-3 point with x-coordinate `x`: the root candidate of
/// `x - 1` or its negation, the one of sign `1` for hint 3 (`lesser`) and
/// the other for hint 4.
pub open spec fn branch_3_u(x: nat, lesser: bool, q: nat) -> nat {
    let rho = sqrt_mod(sub_mod(x, 1, q), q);
    if (sign(rho, q) == 1) == lesser {
        rho
    } else {
        neg_mod(rho, q)
    }
}

/// The preimage that hint `hint` names for the point `(x, y)`, if any. A hint
/// other than 1, 2 and 3 is read as 4.
pub open spec fn decode_hinted_model(x: nat, y: nat, hint: u8, q: nat, b: nat) -> Option<nat> {
    if hint == 1 {
        decode_branch_12(x, y, q, b)
    } else if hint == 2 {
        decode_branch_12(neg_mod(add_mod(x, 1, q), q), y, q, b)
    } else {
        decode_branch_34(branch_3_u(x, hint == 3, q), y, q, b)
    }
}

/// Slot `i` of the four preimage candidates of `(x, y)`: that of hint
/// `i + 1`, where slots 2 and 3 are empty unless `x - 1` passes the character
/// test.
pub open spec fn decode_slot_model(i: int, x: nat, y: nat, q: nat, b: nat) -> Option<nat> {
    if i >= 2 && legendre(sub_mod(x, 1, q), q) == -1 {
        None
    } else {
        decode_hinted_model(x, y, (i + 1) as u8, q, b)
    }
}

} // verus!
