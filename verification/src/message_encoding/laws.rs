//! What holds of the point map: its image lies on the curve, the masks do not
//! change it, and the hint leads back from the image to the value.

use vstd::arithmetic::div_mod::{lemma_mod_bound, lemma_small_mod};
use vstd::arithmetic::power::pow;
use vstd::prelude::*;

use crate::bn::BnParameters;
use crate::field_laws::{
    is_square, lemma_cancel, lemma_cong_reduced, lemma_euler_of_square, lemma_inverse,
    lemma_legendre, lemma_legendre_masked, lemma_ops, lemma_same_square,
    lemma_sqrt_is_plus_or_minus, lemma_unit, lemma_zero_product, prime_field,
};
use crate::message_encoding::Encoder;
use crate::message_encoding::model::{
    branch_3_delta, branch_3_mark, branch_3_u, branch_index, character, config_valid, cube_plus_b,
    decode_branch_12, decode_branch_34, decode_hinted_model, decode_slot_model, encode_model,
    ft_alpha, ft_beta, ft_defined, ft_denominator, ft_u, ft_w, ft_x, ft_x1, ft_x2, ft_x3, legendre,
    minus_4_times_b_plus_1, minus_sqrt_minus_3_div_2, on_curve, sign, sqrt_exponent, sqrt_minus_3,
    sqrt_minus_3_minus_1_div_2, sqrt_mod, with_sign,
};
use crate::modular::{add_mod, inv_mod, mul_mod, neg_mod, sub_mod};
use crate::number_theory::{cong, is_prime, lemma_cong_add, lemma_cong_mul, lemma_cong_sub};

verus! {

/// Whether `q` and `b` describe a curve that the map is sound for: `q` is a
/// prime above 3 that is `3 (mod 4)` and admits the map, and `b` is reduced
/// with `b + 1` not zero.
pub open spec fn curve_valid(q: nat, b: nat) -> bool {
    &&& prime_field(q)
    &&& q > 3
    &&& config_valid(q)
    &&& b < q
    &&& (b + 1) % q != 0
}

/// Whether negation changes the sign of `a`: it does but for `0`,
/// `(q - 1) / 2` and `(q + 1) / 2`.
pub open spec fn sign_flips(a: nat, q: nat) -> bool {
    sign(neg_mod(a, q), q) != sign(a, q)
}

/// Negating a reduced number twice gives it back, and `-a` is `q - a` for
/// `a` above zero.
pub proof fn lemma_neg(a: nat, q: nat)
    requires
        q > 0,
        a < q,
    ensures
        neg_mod(neg_mod(a, q), q) == a,
        a > 0 ==> neg_mod(a, q) == q - a,
        a == 0 ==> neg_mod(a, q) == 0,
{
    let qi = q as int;
    if a > 0 {
        vstd::arithmetic::div_mod::lemma_mod_multiples_vanish(1, -(a as int), qi);
        lemma_small_mod((q - a) as nat, q);
        vstd::arithmetic::div_mod::lemma_mod_multiples_vanish(1, -(q - a), qi);
        lemma_small_mod(a, q);
    } else {
        lemma_small_mod(0, q);
    }
}

/// What is known of the signs modulo `q = 3 (mod 4)`: every residue but zero
/// differs from its negation, one of sign `1` that is not zero changes its
/// sign under negation, and one whose sign does not change under negation
/// is zero or has sign `-1`.
pub proof fn lemma_signs(a: nat, q: nat)
    requires
        q % 4 == 3,
        a < q,
    ensures
        a != 0 ==> neg_mod(a, q) != a,
        a != 0 && sign(a, q) == 1 ==> sign_flips(a, q),
        neg_mod(a, q) < q,
        sign_flips(neg_mod(a, q), q) == sign_flips(a, q),
{
    lemma_neg(a, q);
    lemma_ops(a, a, q);
    lemma_neg(neg_mod(a, q), q);
}

/// A root candidate carries the wanted sign once corrected exactly where
/// it has that sign already or negation changes its sign.
pub proof fn lemma_with_sign(y: nat, wanted: int, q: nat)
    requires
        q > 0,
        y < q,
        wanted == 1 || wanted == -1,
    ensures
        sign(with_sign(y, wanted, q), q) == wanted <==> sign(y, q) == wanted || sign_flips(y, q),
        with_sign(y, wanted, q) < q,
        with_sign(y, wanted, q) == y || with_sign(y, wanted, q) == neg_mod(y, q),
{
    lemma_ops(y, y, q);
}

/// The image of the map is a point of the curve with reduced coordinates,
/// and its hint is one of 1, 2, 3 and 4.
pub proof fn lemma_encode_on_curve(v: nat, r1: nat, r2: nat, q: nat, b: nat)
    requires
        q > 0,
        encode_model(v, r1, r2, q, b) is Some,
    ensures
        ({
            let (x, y, h) = encode_model(v, r1, r2, q, b)->Some_0;
            &&& on_curve(x, y, q, b)
            &&& x < q
            &&& y < q
            &&& 1 <= h <= 4
        }),
{
    reveal(encode_model);
    let alpha = ft_alpha(v, r1, q, b);
    let beta = ft_beta(v, r2, q, b);
    let idx = branch_index(alpha, beta);
    let u = ft_u(v, q, b);
    let x = ft_x(idx, v, q, b);
    let root = sqrt_mod(cube_plus_b(x, q, b), q);
    lemma_mod_bound(pow(cube_plus_b(x, q, b) as int, sqrt_exponent(q)), q as int);
    lemma_ops(root, root, q);
    lemma_ops(1, 1, q);
    lemma_ops(sqrt_minus_3_minus_1_div_2(q), mul_mod(v, ft_w(v, q, b), q), q);
    lemma_ops(neg_mod(1, q), ft_x1(v, q, b), q);
    lemma_ops(1, mul_mod(u, u, q), q);
}

/// The masks do not change the image, as long as neither is zero.
pub proof fn lemma_masks_do_not_matter(v: nat, r1: nat, r2: nat, s1: nat, s2: nat, q: nat, b: nat)
    requires
        prime_field(q),
        r1 % q != 0,
        r2 % q != 0,
        s1 % q != 0,
        s2 % q != 0,
    ensures
        encode_model(v, r1, r2, q, b) == encode_model(v, s1, s2, q, b),
{
    reveal(encode_model);
    let g1 = cube_plus_b(ft_x1(v, q, b), q, b);
    let g2 = cube_plus_b(ft_x2(v, q, b), q, b);
    lemma_legendre_masked(r1, g1, q);
    lemma_legendre_masked(s1, g1, q);
    lemma_legendre_masked(r2, g2, q);
    lemma_legendre_masked(s2, g2, q);
}

/// A candidate of the exhaustive decode is what the hint of its slot decodes
/// to, and the hinted decode of hints 1 and 2 is the candidate of its slot.
pub proof fn lemma_slot_is_hinted(i: int, x: nat, y: nat, q: nat, b: nat)
    requires
        0 <= i < 4,
    ensures
        decode_slot_model(i, x, y, q, b) is Some ==> decode_slot_model(i, x, y, q, b)
            == decode_hinted_model(x, y, (i + 1) as u8, q, b),
        i < 2 || legendre(sub_mod(x, 1, q), q) != -1 ==> decode_slot_model(i, x, y, q, b)
            == decode_hinted_model(x, y, (i + 1) as u8, q, b),
{
}

/// In the domain of the map, `v` and `w` are not zero, and `-sqrt(-3) u v` is
/// the denominator `1 + b + v^2`.
pub proof fn lemma_domain(v: nat, q: nat, b: nat)
    requires
        curve_valid(q, b),
        ft_defined(v, q, b),
    ensures
        v % q != 0,
        ft_w(v, q, b) % q != 0,
        ft_u(v, q, b) % q != 0,
        ft_u(v, q, b) < q,
        cong(
            -(sqrt_minus_3(q) as int) * (ft_u(v, q, b) as int) * (v as int),
            add_mod(b, 1, q) as int + (v as int) * (v as int),
            q as int,
        ),
        cong(
            (ft_w(v, q, b) as int) * (ft_denominator(v, q, b) as int),
            -(sqrt_minus_3(q) as int) * (v as int),
            q as int,
        ),
{
    let qi = q as int;
    let s = sqrt_minus_3(q) as int;
    let vi = v as int;
    let bb_n = add_mod(b, 1, q);
    let vv_n = mul_mod(v, v, q);
    let d_n = ft_denominator(v, q, b);
    let di_n = inv_mod(d_n, q);
    let ns_n = neg_mod(sqrt_minus_3(q), q);
    let nsv_n = mul_mod(ns_n, v, q);
    let w_n = ft_w(v, q, b);
    let u_n = ft_u(v, q, b);
    let (bb, vv, d, di, ns, nsv, w, u) = (
        bb_n as int,
        vv_n as int,
        d_n as int,
        di_n as int,
        ns_n as int,
        nsv_n as int,
        w_n as int,
        u_n as int,
    );
    lemma_small_mod(0, q);
    lemma_small_mod(1, q);
    lemma_ops(sqrt_minus_3(q), 0, q);
    lemma_ops(ns_n, v, q);
    lemma_ops(nsv_n, di_n, q);
    lemma_ops(v, v, q);
    lemma_ops(bb_n, vv_n, q);
    lemma_inverse(d_n, q);
    lemma_inverse(w_n, q);
    // nsv = -s v
    lemma_cong_mul(ns, -s, vi, vi, qi);
    // w = (-s v) di
    lemma_cong_mul(nsv, (-s) * vi, di, di, qi);
    // w d = (-s v) (di d) = -s v
    lemma_cong_mul(w, ((-s) * vi) * di, d, d, qi);
    assert((((-s) * vi) * di) * d == ((-s) * vi) * (d * di)) by (nonlinear_arith);
    lemma_cong_mul((-s) * vi, (-s) * vi, d * di, 1, qi);
    assert(((-s) * vi) * 1 == -s * vi) by (nonlinear_arith);
    assert(cong(w * d, -s * vi, qi));
    if v % q == 0 {
        lemma_cong_mul(-s, -s, vi, 0, qi);
        assert(-s * 0 == 0);
        lemma_zero_product(w, d, q);
    }
    // u (w d) = d and u (w d) = u (-s v)
    lemma_cong_mul(u, u, w * d, -s * vi, qi);
    assert(u * (w * d) == (w * u) * d) by (nonlinear_arith);
    lemma_cong_mul(w * u, 1, d, d, qi);
    assert(1 * d == d);
    assert(u * (-s * vi) == -s * u * vi) by (nonlinear_arith);
    // d = bb + v v
    lemma_cong_add(bb, bb, vv, vi * vi, qi);
}

/// Branch 1 decodes the first candidate of `v` to the root candidate of
/// `v^2`, with the sign that `y` carries.
pub proof fn lemma_branch_12(v: nat, y: nat, q: nat, b: nat)
    requires
        curve_valid(q, b),
        ft_defined(v, q, b),
    ensures
        decode_branch_12(ft_x1(v, q, b), y, q, b) == Some(
            with_sign(sqrt_mod(mul_mod(v, v, q), q), sign(y, q), q),
        ),
{
    reveal(decode_branch_12);
    let qi = q as int;
    let s_n = sqrt_minus_3(q);
    let c1_n = sqrt_minus_3_minus_1_div_2(q);
    let vi = v as int;
    let bb_n = add_mod(b, 1, q);
    let vv_n = mul_mod(v, v, q);
    let d_n = ft_denominator(v, q, b);
    let w_n = ft_w(v, q, b);
    let vw_n = mul_mod(v, w_n, q);
    let x1_n = ft_x1(v, q, b);
    let d1_n = sub_mod(x1_n, c1_n, q);
    let a_n = neg_mod(d1_n, q);
    let t_n = inv_mod(a_n, q);
    let ts_n = mul_mod(t_n, s_n, q);
    let m1_n = neg_mod(1, q);
    let e_n = add_mod(ts_n, m1_n, q);
    let ei_n = inv_mod(e_n, q);
    let z_n = mul_mod(ei_n, bb_n, q);
    let (s, c1, bb, vv, d, w, vw, x1, d1) = (
        s_n as int,
        c1_n as int,
        bb_n as int,
        vv_n as int,
        d_n as int,
        w_n as int,
        vw_n as int,
        x1_n as int,
        d1_n as int,
    );
    let (a, t, ts, m1, e, ei, z) = (
        a_n as int,
        t_n as int,
        ts_n as int,
        m1_n as int,
        e_n as int,
        ei_n as int,
        z_n as int,
    );
    lemma_small_mod(0, q);
    lemma_small_mod(1, q);
    lemma_domain(v, q, b);
    lemma_ops(v, w_n, q);
    lemma_ops(c1_n, vw_n, q);
    lemma_ops(x1_n, c1_n, q);
    lemma_ops(d1_n, 0, q);
    lemma_ops(1, 0, q);
    lemma_ops(v, v, q);
    lemma_ops(bb_n, vv_n, q);
    lemma_ops(b, 1, q);
    // a = -(v w)
    lemma_cong_sub(x1, c1 + vw, c1, c1, qi);
    lemma_cong_sub(0, 0, d1, vw, qi);
    lemma_cong_sub(0, 0, vw, vi * w, qi);
    assert(cong(a, 0 - vi * w, qi));
    // a is not zero
    if a_n % q == 0 {
        lemma_cong_sub(0, 0, a, 0 - vi * w, qi);
        assert(0 - (0 - vi * w) == vi * w);
        lemma_zero_product(vi, w, q);
    }
    lemma_unit(a_n, q);
    lemma_inverse(a_n, q);
    // a d = -(v w) d = -v (w d) = -v (-s v) = s v v
    lemma_cong_mul(a, 0 - vi * w, d, d, qi);
    assert((0 - vi * w) * d == (-vi) * (w * d)) by (nonlinear_arith);
    lemma_cong_mul(-vi, -vi, w * d, -s * vi, qi);
    assert((-vi) * (-s * vi) == s * (vi * vi)) by (nonlinear_arith);
    assert(cong(a * d, s * (vi * vi), qi));
    // d = t (a d) = (t s) (v v)
    lemma_cong_mul(t, t, a * d, s * (vi * vi), qi);
    assert(t * (a * d) == (a * t) * d) by (nonlinear_arith);
    lemma_cong_mul(a * t, 1, d, d, qi);
    assert(1 * d == d);
    assert(t * (s * (vi * vi)) == (t * s) * (vi * vi)) by (nonlinear_arith);
    assert(cong(d, (t * s) * (vi * vi), qi));
    // e (v v) = (t s - 1) (v v) = d - v v = bb
    lemma_ops(t_n, s_n, q);
    lemma_ops(ts_n, m1_n, q);
    lemma_cong_add(ts, t * s, m1, -1, qi);
    lemma_cong_mul(e, t * s + (-1), vi * vi, vi * vi, qi);
    assert((t * s + (-1)) * (vi * vi) == (t * s) * (vi * vi) - vi * vi) by (nonlinear_arith);
    lemma_cong_add(bb, bb, vv, vi * vi, qi);
    lemma_cong_sub((t * s) * (vi * vi), bb + vi * vi, vi * vi, vi * vi, qi);
    assert(cong(e * (vi * vi), bb, qi));
    // e is not zero, as bb is not
    lemma_small_mod(bb_n, q);
    if e_n % q == 0 {
        lemma_cong_mul(e, 0, vi * vi, vi * vi, qi);
        assert(0 * (vi * vi) == 0);
    }
    lemma_unit(e_n, q);
    lemma_inverse(e_n, q);
    // z = ei bb = ei (e (v v)) = v v
    lemma_ops(ei_n, bb_n, q);
    lemma_cong_mul(ei, ei, bb, e * (vi * vi), qi);
    assert(ei * (e * (vi * vi)) == (e * ei) * (vi * vi)) by (nonlinear_arith);
    lemma_cong_mul(e * ei, 1, vi * vi, vi * vi, qi);
    assert(1 * (vi * vi) == vi * vi);
    lemma_cong_reduced(z_n, vv_n, q);
    lemma_euler_of_square(v, q);
}

/// Branch 2 leads back to the first candidate: `-(x2 + 1) = x1`.
pub proof fn lemma_branch_2_x(v: nat, q: nat, b: nat)
    requires
        q > 0,
    ensures
        neg_mod(add_mod(ft_x2(v, q, b), 1, q), q) == ft_x1(v, q, b),
{
    let qi = q as int;
    let x1_n = ft_x1(v, q, b);
    let x2_n = ft_x2(v, q, b);
    let m1_n = neg_mod(1, q);
    let p_n = add_mod(x2_n, 1, q);
    let r_n = neg_mod(p_n, q);
    let (x1, x2, m1, p, r) = (x1_n as int, x2_n as int, m1_n as int, p_n as int, r_n as int);
    lemma_ops(sqrt_minus_3_minus_1_div_2(q), mul_mod(v, ft_w(v, q, b), q), q);
    lemma_ops(1, 0, q);
    lemma_ops(m1_n, x1_n, q);
    lemma_ops(x2_n, 1, q);
    lemma_ops(p_n, 0, q);
    // x2 = -1 - x1, x2 + 1 = -x1, -(x2 + 1) = x1
    lemma_cong_sub(m1, -1, x1, x1, qi);
    lemma_cong_add(x2, -1 - x1, 1, 1, qi);
    lemma_cong_sub(0, 0, p, (-1 - x1) + 1, qi);
    assert(0 - ((-1 - x1) + 1) == x1);
    lemma_cong_reduced(r_n, x1_n, q);
}

/// `u (-sqrt(-3) / 2)`: the middle of the two preimages above `u`.
pub open spec fn branch_3_mid(u: nat, q: nat) -> nat {
    mul_mod(minus_sqrt_minus_3_div_2(q), u, q)
}

/// `sqrt(-3 u^2 - 4 (b + 1)) / 2`: half the distance of the two preimages
/// above `u`.
pub open spec fn branch_3_step(u: nat, q: nat, b: nat) -> nat {
    mul_mod(branch_3_delta(u, q, b), inv_mod(2, q), q)
}

/// The preimage above `u` that a `y` of sign `1` selects.
pub open spec fn branch_3_minus(u: nat, q: nat, b: nat) -> nat {
    sub_mod(branch_3_mid(u, q), branch_3_step(u, q, b), q)
}

/// The preimage above `u` that a `y` of sign `-1` selects.
pub open spec fn branch_3_plus(u: nat, q: nat, b: nat) -> nat {
    add_mod(branch_3_mid(u, q), branch_3_step(u, q, b), q)
}

/// Branch 3 decodes what stands above `u` or `-u` to one of the two roots
/// there, by the sign of `y`; the mark is the root that sign `1` selects.
pub proof fn lemma_branch_34(u: nat, y: nat, q: nat, b: nat)
    requires
        q > 0,
        legendre(
            add_mod(mul_mod(mul_mod(u, u, q), neg_mod(3, q), q), minus_4_times_b_plus_1(q, b), q),
            q,
        ) != -1,
    ensures
        decode_branch_34(u, y, q, b) == Some(
            if sign(y, q) == 1 {
                branch_3_minus(u, q, b)
            } else {
                branch_3_plus(u, q, b)
            },
        ),
        branch_3_mark(u, q, b) == branch_3_minus(u, q, b),
        branch_3_delta(u, q, b) == sqrt_mod(
            add_mod(mul_mod(mul_mod(u, u, q), neg_mod(3, q), q), minus_4_times_b_plus_1(q, b), q),
            q,
        ),
{
    reveal(decode_branch_34);
    let n3 = neg_mod(3, q);
    let uu = mul_mod(u, u, q);
    let c2 = minus_sqrt_minus_3_div_2(q);
    assert(mul_mod(n3, uu, q) == mul_mod(uu, n3, q)) by {
        assert(n3 * uu == uu * n3) by (nonlinear_arith);
    }
    assert(mul_mod(u, c2, q) == mul_mod(c2, u, q)) by {
        assert(u * c2 == c2 * u) by (nonlinear_arith);
    }
}

/// The algebra of branch 3: `x3 - 1` is `u^2`, the discriminant above `u` is
/// the square of `2 v + sqrt(-3) u`, and `v` is one of the two roots above
/// `u`, which are the same only where the discriminant is zero.
pub proof fn lemma_branch_3_roots(v: nat, q: nat, b: nat)
    requires
        curve_valid(q, b),
        v < q,
        ft_defined(v, q, b),
    ensures
        ({
            let u = ft_u(v, q, b);
            let uu = mul_mod(u, u, q);
            let z = add_mod(mul_mod(uu, neg_mod(3, q), q), minus_4_times_b_plus_1(q, b), q);
            let t = 2 * (v as int) + (sqrt_minus_3(q) as int) * (u as int);
            &&& sub_mod(ft_x3(v, q, b), 1, q) == uu
            &&& legendre(uu, q) == 1
            &&& legendre(z, q) != -1
            &&& cong(branch_3_delta(u, q, b) as int, t, q as int) || cong(
                branch_3_delta(u, q, b) as int,
                -t,
                q as int,
            )
            &&& cong(
                2 * (branch_3_mid(u, q) as int),
                -(sqrt_minus_3(q) as int) * (u as int),
                q as int,
            )
            &&& cong(
                2 * (branch_3_step(u, q, b) as int),
                branch_3_delta(u, q, b) as int,
                q as int,
            )
            &&& v == branch_3_plus(u, q, b) || v == branch_3_minus(u, q, b)
            &&& branch_3_plus(u, q, b) == branch_3_minus(u, q, b) <==> branch_3_delta(u, q, b)
                == 0
        }),
{
    let qi = q as int;
    let vi = v as int;
    let s_n = sqrt_minus_3(q);
    let u_n = ft_u(v, q, b);
    let bb_n = add_mod(b, 1, q);
    let i2_n = inv_mod(2, q);
    let n3_n = neg_mod(3, q);
    let n4_n = neg_mod(4, q);
    let m4_n = minus_4_times_b_plus_1(q, b);
    let uu_n = mul_mod(u_n, u_n, q);
    let x3_n = ft_x3(v, q, b);
    let p_n = mul_mod(uu_n, n3_n, q);
    let z_n = add_mod(p_n, m4_n, q);
    let delta_n = sqrt_mod(z_n, q);
    let ns_n = neg_mod(s_n, q);
    let c2_n = minus_sqrt_minus_3_div_2(q);
    let mid_n = branch_3_mid(u_n, q);
    let step_n = mul_mod(delta_n, i2_n, q);
    let plus_n = add_mod(mid_n, step_n, q);
    let minus_n = sub_mod(mid_n, step_n, q);
    let (s, u, bb, i2, n3, n4, m4, uu, x3, p, z, delta) = (
        s_n as int,
        u_n as int,
        bb_n as int,
        i2_n as int,
        n3_n as int,
        n4_n as int,
        m4_n as int,
        uu_n as int,
        x3_n as int,
        p_n as int,
        z_n as int,
        delta_n as int,
    );
    let (ns, c2, mid, step, plus, minus) = (
        ns_n as int,
        c2_n as int,
        mid_n as int,
        step_n as int,
        plus_n as int,
        minus_n as int,
    );
    let t = 2 * vi + s * u;
    lemma_small_mod(0, q);
    lemma_small_mod(1, q);
    lemma_small_mod(2, q);
    lemma_domain(v, q, b);
    lemma_ops(u_n, u_n, q);
    lemma_ops(1, uu_n, q);
    lemma_ops(x3_n, 1, q);
    lemma_ops(3, 0, q);
    lemma_ops(4, 0, q);
    lemma_ops(n4_n, bb_n, q);
    lemma_ops(uu_n, n3_n, q);
    lemma_ops(p_n, m4_n, q);
    lemma_ops(s_n, s_n, q);
    lemma_ops(s_n, 0, q);
    lemma_ops(i2_n, ns_n, q);
    lemma_ops(c2_n, u_n, q);
    lemma_ops(delta_n, i2_n, q);
    lemma_ops(mid_n, step_n, q);
    lemma_inverse(2, q);
    // x3 - 1 = u u
    lemma_cong_sub(x3, 1 + uu, 1, 1, qi);
    lemma_cong_reduced(sub_mod(x3_n, 1, q), uu_n, q);
    lemma_euler_of_square(u_n, q);
    lemma_small_mod(uu_n, q);
    // v v + s u v = -bb
    let big_x = -s * u * vi;
    let big_y = bb + vi * vi;
    lemma_cong_sub(big_y, big_x, big_x, big_x, qi);
    lemma_cong_sub(big_y - big_x, 0, bb, bb, qi);
    assert((big_y - big_x) - bb == vi * vi + s * u * vi) by (nonlinear_arith)
        requires
            big_x == -s * u * vi,
            big_y == bb + vi * vi,
    ;
    lemma_cong_mul(4, 4, vi * vi + s * u * vi, 0 - bb, qi);
    // t t = 4 (v v + s u v) + (s s) (u u) = -4 bb - 3 u u
    lemma_cong_mul(s * s, -3, u * u, u * u, qi);
    lemma_cong_add(4 * (vi * vi + s * u * vi), 4 * (0 - bb), (s * s) * (u * u), (-3) * (u * u), qi);
    assert(t * t == 4 * (vi * vi + s * u * vi) + (s * s) * (u * u)) by (nonlinear_arith)
        requires
            t == 2 * vi + s * u,
    ;
    // z = (u u) (-3) + (-4) bb
    lemma_cong_mul(uu, u * u, n3, -3, qi);
    lemma_cong_mul(n4, -4, bb, bb, qi);
    lemma_cong_add(p, (u * u) * (-3), m4, (-4) * bb, qi);
    assert((u * u) * (-3) + (-4) * bb == 4 * (0 - bb) + (-3) * (u * u)) by (nonlinear_arith);
    assert(cong(z, t * t, qi));
    // z is a square, so the root candidate is a root: delta = t or delta = -t
    let tr = (t % qi) as nat;
    lemma_mod_bound(t, qi);
    vstd::arithmetic::div_mod::lemma_mod_twice(t, qi);
    lemma_ops(tr, tr, q);
    lemma_cong_mul(tr as int, t, tr as int, t, qi);
    lemma_small_mod(z_n, q);
    assert(is_square(z_n, q));
    lemma_legendre(z_n, q);
    lemma_ops(delta_n, delta_n, q);
    lemma_same_square(delta, t, q);
    lemma_branch_34(u_n, 0, q, b);
    assert(delta_n == branch_3_delta(u_n, q, b));
    // 2 mid = -s u and 2 step = delta
    lemma_cong_mul(i2, i2, ns, -s, qi);
    lemma_cong_mul(c2, i2 * (-s), u, u, qi);
    lemma_cong_mul(2, 2, mid, (i2 * (-s)) * u, qi);
    assert(2 * ((i2 * (-s)) * u) == (2 * i2) * (-s * u)) by (nonlinear_arith);
    lemma_cong_mul(2 * i2, 1, -s * u, -s * u, qi);
    assert(1 * (-s * u) == -s * u);
    assert(cong(2 * mid, -s * u, qi));
    lemma_cong_mul(2, 2, step, delta * i2, qi);
    assert(2 * (delta * i2) == (2 * i2) * delta) by (nonlinear_arith);
    lemma_cong_mul(2 * i2, 1, delta, delta, qi);
    assert(1 * delta == delta);
    assert(cong(2 * step, delta, qi));
    // v is mid + step or mid - step
    if cong(delta, t, qi) {
        lemma_cong_add(2 * mid, -s * u, 2 * step, t, qi);
        lemma_cong_mul(2, 2, plus, mid + step, qi);
        assert(2 * (mid + step) == 2 * mid + 2 * step);
        assert(-s * u + t == 2 * vi) by (nonlinear_arith)
            requires
                t == 2 * vi + s * u,
        ;
        lemma_cancel(2, plus, vi, q);
        lemma_cong_reduced(plus_n, v, q);
    } else {
        lemma_cong_sub(2 * mid, -s * u, 2 * step, -t, qi);
        lemma_cong_mul(2, 2, minus, mid - step, qi);
        assert(2 * (mid - step) == 2 * mid - 2 * step);
        assert(-s * u - (-t) == 2 * vi) by (nonlinear_arith)
            requires
                t == 2 * vi + s * u,
        ;
        lemma_cancel(2, minus, vi, q);
        lemma_cong_reduced(minus_n, v, q);
    }
    // the two roots are one exactly where delta is zero
    lemma_mod_bound(pow(z, sqrt_exponent(q)), qi);
    if delta_n == 0 {
        assert(delta * i2 == 0);
        lemma_cong_add(mid, mid, step, 0, qi);
        lemma_cong_sub(mid, mid, step, 0, qi);
        lemma_cong_reduced(plus_n, minus_n, q);
    }
    if plus_n == minus_n {
        // (mid + step) - (mid - step) = 2 step = delta
        lemma_cong_sub(plus, mid + step, minus, mid - step, qi);
        assert((mid + step) - (mid - step) == 2 * step);
        lemma_cong_reduced(delta_n, 0, q);
    }
}

/// Where `y` carries the character of `v`, or the discriminant is zero,
/// branch 3 decodes what stands above `u` to `v`, and else to the other
/// root.
pub proof fn lemma_branch_3(v: nat, y: nat, q: nat, b: nat)
    requires
        curve_valid(q, b),
        v < q,
        ft_defined(v, q, b),
    ensures
        decode_branch_34(ft_u(v, q, b), y, q, b) == Some(v) <==> sign(y, q) == character(
            3,
            v,
            ft_u(v, q, b),
            q,
            b,
        ) || branch_3_delta(ft_u(v, q, b), q, b) == 0,
{
    lemma_branch_3_roots(v, q, b);
    lemma_branch_34(ft_u(v, q, b), y, q, b);
}

/// Branch 3 decodes what stands above `-u` to a value other than `v`.
pub proof fn lemma_branch_3_other(v: nat, y: nat, q: nat, b: nat)
    requires
        curve_valid(q, b),
        v < q,
        ft_defined(v, q, b),
    ensures
        decode_branch_34(neg_mod(ft_u(v, q, b), q), y, q, b) != Some(v),
{
    let qi = q as int;
    let vi = v as int;
    let s_n = sqrt_minus_3(q);
    let u_n = ft_u(v, q, b);
    let nu_n = neg_mod(u_n, q);
    let c2_n = minus_sqrt_minus_3_div_2(q);
    let delta_n = branch_3_delta(u_n, q, b);
    let mid_n = branch_3_mid(u_n, q);
    let step_n = branch_3_step(u_n, q, b);
    let other_n = branch_3_mid(nu_n, q);
    let (s, u, nu, c2, delta, mid, step, other) = (
        s_n as int,
        u_n as int,
        nu_n as int,
        c2_n as int,
        delta_n as int,
        mid_n as int,
        step_n as int,
        other_n as int,
    );
    let t = 2 * vi + s * u;
    lemma_small_mod(0, q);
    lemma_small_mod(2, q);
    lemma_small_mod(3, q);
    lemma_domain(v, q, b);
    lemma_branch_3_roots(v, q, b);
    lemma_ops(u_n, 0, q);
    lemma_ops(u_n, u_n, q);
    lemma_ops(nu_n, nu_n, q);
    lemma_ops(c2_n, u_n, q);
    lemma_ops(c2_n, nu_n, q);
    lemma_ops(s_n, s_n, q);
    lemma_ops(3, 0, q);
    // (-u) (-u) = u u: the discriminant and its root are those above u
    lemma_cong_mul(nu, -u, nu, -u, qi);
    assert((-u) * (-u) == u * u) by (nonlinear_arith);
    lemma_cong_reduced(mul_mod(nu_n, nu_n, q), mul_mod(u_n, u_n, q), q);
    lemma_branch_34(nu_n, y, q, b);
    assert(branch_3_delta(nu_n, q, b) == delta_n);
    // the middle above -u is opposite: 2 other = s u
    lemma_cong_mul(c2, c2, nu, -u, qi);
    assert(c2 * (-u) == 0 - c2 * u) by (nonlinear_arith);
    lemma_cong_sub(0, 0, mid, c2 * u, qi);
    lemma_cong_mul(2, 2, other, 0 - mid, qi);
    lemma_cong_sub(0, 0, 2 * mid, -s * u, qi);
    assert(2 * (0 - mid) == 0 - 2 * mid);
    assert(0 - (-s * u) == s * u) by (nonlinear_arith);
    assert(cong(2 * other, s * u, qi));
    // s u is not zero
    if (s * u) % qi == 0 {
        lemma_zero_product(s, u, q);
        if s % qi == 0 {
            lemma_cong_mul(s, 0, s, 0, qi);
            assert(0 * 0 == 0);
            vstd::arithmetic::div_mod::lemma_mod_multiples_vanish(1, -3, qi);
            lemma_small_mod((q - 3) as nat, q);
        }
    }
    let decoded = decode_branch_34(nu_n, y, q, b)->Some_0;
    if decoded == v {
        lemma_ops(other_n, step_n, q);
        // 2 v = s u + e delta, where e = -1 for sign 1 and e = 1 else
        let e: int = if sign(y, q) == 1 {
            -1
        } else {
            1
        };
        assert(cong(2 * vi, s * u + e * delta, qi)) by {
            if sign(y, q) == 1 {
                lemma_cong_mul(2, 2, vi, other - step, qi);
                lemma_cong_sub(2 * other, s * u, 2 * step, delta, qi);
                assert(2 * (other - step) == 2 * other - 2 * step);
                assert(s * u + (-1) * delta == s * u - delta);
            } else {
                lemma_cong_mul(2, 2, vi, other + step, qi);
                lemma_cong_add(2 * other, s * u, 2 * step, delta, qi);
                assert(2 * (other + step) == 2 * other + 2 * step);
                assert(s * u + 1 * delta == s * u + delta);
            }
        }
        // 2 v = -s u + f delta, where f = 1 for delta = t and f = -1 else
        let f: int = if cong(delta, t, qi) {
            1
        } else {
            -1
        };
        assert(cong(2 * vi, -s * u + f * delta, qi)) by {
            if cong(delta, t, qi) {
                lemma_cong_sub(delta, t, s * u, s * u, qi);
                assert(t - s * u == 2 * vi);
                assert(-s * u + 1 * delta == delta - s * u);
            } else {
                lemma_cong_sub(0, 0, delta, -t, qi);
                lemma_cong_sub(0 - delta, 0 - (-t), s * u, s * u, qi);
                assert((0 - (-t)) - s * u == 2 * vi);
                assert(-s * u + (-1) * delta == (0 - delta) - s * u);
            }
        }
        if e == f {
            // the difference: 2 s u = 0
            lemma_cong_sub(s * u + e * delta, 2 * vi, -s * u + f * delta, 2 * vi, qi);
            assert((s * u + e * delta) - (-s * u + f * delta) == 2 * (s * u)) by (nonlinear_arith)
                requires
                    e == f,
            ;
            assert(2 * vi - 2 * vi == 0);
            lemma_cancel(2, s * u, 0, q);
        } else {
            // the sum: 2 (2 v) = 0
            lemma_cong_add(2 * vi, s * u + e * delta, 2 * vi, -s * u + f * delta, qi);
            assert((s * u + e * delta) + (-s * u + f * delta) == 0) by (nonlinear_arith)
                requires
                    e == -f,
            ;
            assert(2 * vi + 2 * vi == 2 * (2 * vi));
            lemma_cancel(2, 2 * vi, 0, q);
            lemma_cancel(2, vi, 0, q);
            lemma_small_mod(v, q);
        }
    }
}

/// The `u` that the hint of a branch-3 image names is the `u` of the value
/// exactly where negation changes the sign of `u` or the root candidate of
/// `u^2` is `u`; else it is `-u`.
pub proof fn lemma_branch_3_u(v: nat, q: nat, b: nat)
    requires
        curve_valid(q, b),
        v < q,
        ft_defined(v, q, b),
    ensures
        ({
            let u = ft_u(v, q, b);
            let named = branch_3_u(ft_x3(v, q, b), sign(u, q) == 1, q);
            &&& named == u || named == neg_mod(u, q)
            &&& named == u <==> sign_flips(u, q) || sqrt_mod(mul_mod(u, u, q), q) == u
        }),
{
    let u = ft_u(v, q, b);
    lemma_domain(v, q, b);
    lemma_branch_3_roots(v, q, b);
    lemma_sqrt_is_plus_or_minus(u, q);
    lemma_small_mod(u, q);
    lemma_signs(u, q);
    lemma_neg(u, q);
}

/// The root candidate of the y-coordinate of an image on branch 1 or 2 is
/// not zero.
pub proof fn lemma_root_not_zero(v: nat, r1: nat, r2: nat, q: nat, b: nat)
    requires
        prime_field(q),
        encode_model(v, r1, r2, q, b) is Some,
        branch_index(ft_alpha(v, r1, q, b), ft_beta(v, r2, q, b)) != 3,
    ensures
        ({
            let idx = branch_index(ft_alpha(v, r1, q, b), ft_beta(v, r2, q, b));
            sqrt_mod(cube_plus_b(ft_x(idx, v, q, b), q, b), q) != 0
        }),
{
    reveal(encode_model);
    let qi = q as int;
    let alpha = ft_alpha(v, r1, q, b);
    let beta = ft_beta(v, r2, q, b);
    let idx = branch_index(alpha, beta);
    assert(idx == 1 || idx == 2);
    let x = ft_x(idx, v, q, b);
    let g = cube_plus_b(x, q, b);
    let root = sqrt_mod(g, q);
    let mask = if idx == 1 {
        mul_mod(r1, r1, q)
    } else {
        mul_mod(r2, r2, q)
    };
    lemma_small_mod(0, q);
    lemma_ops(mask, g, q);
    lemma_ops(root, root, q);
    lemma_ops(neg_mod(root, q), neg_mod(root, q), q);
    lemma_ops(mul_mod(mul_mod(x, x, q), x, q), b, q);
    lemma_small_mod(g, q);
    if root == 0 {
        // then y is zero, so g is zero, and so is the masked value
        assert(0 * 0 == 0);
        lemma_ops(0, 0, q);
        assert(g == 0);
        assert(mask * 0 == 0);
    }
}

/// Whether the decoders can read the signs of the image of `v`. The carrier
/// of the hint, `v` on branches 1 and 2 and `u` on branch 3, is told from its
/// negation by its sign, or else is the root candidate of its square; and
/// the root candidate of the y-coordinate takes the wanted sign, having it
/// already or changing it under negation, or else, on branch 3, the two
/// preimages are one.
pub open spec fn regular(v: nat, r1: nat, r2: nat, q: nat, b: nat) -> bool {
    let idx = branch_index(ft_alpha(v, r1, q, b), ft_beta(v, r2, q, b));
    let u = ft_u(v, q, b);
    let root = sqrt_mod(cube_plus_b(ft_x(idx, v, q, b), q, b), q);
    let carrier = if idx == 3 {
        u
    } else {
        v
    };
    &&& sign_flips(carrier, q) || sqrt_mod(mul_mod(carrier, carrier, q), q) == carrier
    &&& sign_flips(root, q) || sign(root, q) == character(idx, v, u, q, b) || (idx == 3
        && branch_3_delta(u, q, b) == 0)
}

/// The hint leads back exactly from the regular images: the hinted decode of
/// the image of `v` is `v` where the image is regular, and another value or
/// none where it is not.
pub proof fn lemma_hint_round_trip_exact(v: nat, r1: nat, r2: nat, q: nat, b: nat)
    requires
        curve_valid(q, b),
        v < q,
        encode_model(v, r1, r2, q, b) is Some,
    ensures
        ({
            let (x, y, h) = encode_model(v, r1, r2, q, b)->Some_0;
            decode_hinted_model(x, y, h, q, b) == Some(v) <==> regular(v, r1, r2, q, b)
        }),
{
    reveal(encode_model);
    let alpha = ft_alpha(v, r1, q, b);
    let beta = ft_beta(v, r2, q, b);
    let idx = branch_index(alpha, beta);
    let u = ft_u(v, q, b);
    let x = ft_x(idx, v, q, b);
    let root = sqrt_mod(cube_plus_b(x, q, b), q);
    let wanted = character(idx, v, u, q, b);
    let y = with_sign(root, wanted, q);
    assert(idx == 1 || idx == 2 || idx == 3);
    lemma_mod_bound(pow(cube_plus_b(x, q, b) as int, sqrt_exponent(q)), q as int);
    lemma_with_sign(root, wanted, q);
    lemma_domain(v, q, b);
    lemma_small_mod(v, q);
    if idx == 3 {
        lemma_branch_3(v, y, q, b);
        lemma_branch_3_other(v, y, q, b);
        lemma_branch_3_u(v, q, b);
    } else {
        let r = sqrt_mod(mul_mod(v, v, q), q);
        lemma_branch_12(v, y, q, b);
        lemma_branch_2_x(v, q, b);
        lemma_sqrt_is_plus_or_minus(v, q);
        lemma_signs(v, q);
        lemma_signs(root, q);
        lemma_root_not_zero(v, r1, r2, q, b);
        lemma_neg(v, q);
    }
}

/// The hint leads back: the hinted decode of a regular image of `v` is `v`.
pub proof fn lemma_hint_round_trip(v: nat, r1: nat, r2: nat, q: nat, b: nat)
    requires
        curve_valid(q, b),
        v < q,
        encode_model(v, r1, r2, q, b) is Some,
        regular(v, r1, r2, q, b),
    ensures
        ({
            let (x, y, h) = encode_model(v, r1, r2, q, b)->Some_0;
            decode_hinted_model(x, y, h, q, b) == Some(v)
        }),
{
    lemma_hint_round_trip_exact(v, r1, r2, q, b);
}

/// The exhaustive decode finds the value: the slot of the hint of a regular
/// image holds `v`.
pub proof fn lemma_exhaustive_decode(v: nat, r1: nat, r2: nat, q: nat, b: nat)
    requires
        curve_valid(q, b),
        v < q,
        encode_model(v, r1, r2, q, b) is Some,
        regular(v, r1, r2, q, b),
    ensures
        ({
            let (x, y, h) = encode_model(v, r1, r2, q, b)->Some_0;
            decode_slot_model(h - 1, x, y, q, b) == Some(v)
        }),
{
    reveal(encode_model);
    lemma_hint_round_trip(v, r1, r2, q, b);
    let idx = branch_index(ft_alpha(v, r1, q, b), ft_beta(v, r2, q, b));
    assert(idx == 1 || idx == 2 || idx == 3);
    if idx == 3 {
        lemma_branch_3_roots(v, q, b);
    }
}

/// A point and a hint are the regular image of one value at most.
pub proof fn lemma_encode_injective(
    v: nat,
    r1: nat,
    r2: nat,
    v2: nat,
    s1: nat,
    s2: nat,
    q: nat,
    b: nat,
)
    requires
        curve_valid(q, b),
        v < q,
        v2 < q,
        encode_model(v, r1, r2, q, b) is Some,
        encode_model(v, r1, r2, q, b) == encode_model(v2, s1, s2, q, b),
        regular(v, r1, r2, q, b),
        regular(v2, s1, s2, q, b),
    ensures
        v == v2,
{
    lemma_hint_round_trip(v, r1, r2, q, b);
    lemma_hint_round_trip(v2, s1, s2, q, b);
}

/// For a prime `q = 3 (mod 4)` above 3, the map is admitted exactly where
/// `-3` is a square: `2` has an inverse in any case.
pub proof fn lemma_config(q: nat)
    requires
        prime_field(q),
        q > 3,
    ensures
        config_valid(q) <==> is_square(neg_mod(3, q), q),
{
    lemma_small_mod(2, q);
    lemma_unit(2, q);
    lemma_ops(3, 0, q);
    lemma_small_mod(neg_mod(3, q), q);
    lemma_legendre(neg_mod(3, q), q);
    let s = sqrt_minus_3(q);
    lemma_mod_bound(pow(neg_mod(3, q) as int, sqrt_exponent(q)), q as int);
    if config_valid(q) {
        assert(s < q && mul_mod(s, s, q) == neg_mod(3, q) % q);
    }
}

impl<P: BnParameters> Encoder<P> {
    /// The constants of an encoder over a prime modulus describe a curve
    /// that the map is sound for.
    pub proof fn lemma_curve_valid(&self)
        requires
            self.wf(),
            is_prime(self.q@),
        ensures
            curve_valid(self.q@, self.b@),
    {
        P::lemma_coefficient();
        lemma_small_mod(P::spec_coeff_b(), self.q@);
        lemma_small_mod(P::spec_coeff_b() + 1, self.q@);
    }

    /// Over a prime modulus, the image of a value lies on the curve, does
    /// not depend on masks that are not zero, and leads back to the value
    /// exactly where it is regular: by its hint, and in the slot of its
    /// hint among the four candidates.
    pub proof fn lemma_encode_decode(&self, v: nat, r1: nat, r2: nat)
        requires
            self.wf(),
            is_prime(self.q@),
            v < self.q@,
            encode_model(v, r1, r2, self.q@, self.b@) is Some,
        ensures
            ({
                let (q, b) = (self.q@, self.b@);
                let (x, y, h) = encode_model(v, r1, r2, q, b)->Some_0;
                &&& on_curve(x, y, q, b)
                &&& 1 <= h <= 4
                &&& decode_hinted_model(x, y, h, q, b) == Some(v) <==> regular(v, r1, r2, q, b)
                &&& regular(v, r1, r2, q, b) ==> decode_slot_model(h - 1, x, y, q, b) == Some(v)
                &&& forall|s1: nat, s2: nat|
                    s1 % q != 0 && s2 % q != 0 && r1 % q != 0 && r2 % q != 0 ==> (
                    #[trigger] encode_model(v, s1, s2, q, b)) == encode_model(v, r1, r2, q, b)
            }),
    {
        let (q, b) = (self.q@, self.b@);
        self.lemma_curve_valid();
        lemma_encode_on_curve(v, r1, r2, q, b);
        lemma_hint_round_trip_exact(v, r1, r2, q, b);
        if regular(v, r1, r2, q, b) {
            lemma_exhaustive_decode(v, r1, r2, q, b);
        }
        assert forall|s1: nat, s2: nat|
            s1 % q != 0 && s2 % q != 0 && r1 % q != 0 && r2 % q != 0 implies (
        #[trigger] encode_model(v, s1, s2, q, b)) == encode_model(v, r1, r2, q, b) by {
            lemma_masks_do_not_matter(v, s1, s2, r1, r2, q, b);
        }
    }
}

} // verus!
