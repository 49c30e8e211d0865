//! The image of the map is never refused for want of a root: of the three
//! candidates `x1`, `x2` and `x3`, the product of `x^3 + b` over them is a
//! square, so the third is on the curve wherever the first two are not.

use vstd::arithmetic::div_mod::{lemma_mod_bound, lemma_mod_twice, lemma_small_mod};
use vstd::prelude::*;

use crate::bn::BnParameters;
use crate::field_laws::{
    lemma_cong_reduced, lemma_inverse, lemma_legendre, lemma_legendre_masked, lemma_legendre_mul,
    lemma_ops, lemma_zero_product, prime_field,
};
use crate::message_encoding::Encoder;
use crate::message_encoding::laws::{curve_valid, lemma_domain};
use crate::message_encoding::model::{
    branch_index, character, cube_plus_b, encode_model, ft_alpha, ft_beta, ft_defined,
    ft_denominator, ft_u, ft_w, ft_x, ft_x1, ft_x2, ft_x3, legendre, on_curve, sqrt_minus_3,
    sqrt_minus_3_minus_1_div_2, sqrt_mod, with_sign,
};
use crate::modular::{add_mod, inv_mod, mul_mod, neg_mod};
use crate::number_theory::{cong, is_prime, lemma_cong_add, lemma_cong_mul, lemma_cong_sub};

verus! {

/// `x x x`.
pub open spec fn cube(x: int) -> int {
    x * x * x
}

/// Where `s^2 = -3`, `(a + s c) (x + s y) = (a x - 3 c y) + s (a y + c x)`.
pub proof fn lemma_mul_pair(a: int, c: int, x: int, y: int, s: int, q: int)
    requires
        q > 0,
        cong(s * s, -3, q),
    ensures
        cong((a + s * c) * (x + s * y), (a * x - 3 * (c * y)) + s * (a * y + c * x), q),
{
    let ss = s * s;
    let cy = c * y;
    let t = a * x + s * (a * y + c * x);
    let sc = s * c;
    let sy = s * y;
    assert((a + sc) * (x + sy) == a * (x + sy) + sc * (x + sy)) by (nonlinear_arith);
    assert(a * (x + sy) == a * x + a * sy) by (nonlinear_arith);
    assert(sc * (x + sy) == sc * x + sc * sy) by (nonlinear_arith);
    assert(a * sy == s * (a * y)) by (nonlinear_arith)
        requires
            sy == s * y,
    ;
    assert(sc * x == s * (c * x)) by (nonlinear_arith)
        requires
            sc == s * c,
    ;
    assert(sc * sy == ss * cy) by (nonlinear_arith)
        requires
            sc == s * c,
            sy == s * y,
            ss == s * s,
            cy == c * y,
    ;
    assert(s * (a * y) + s * (c * x) == s * (a * y + c * x)) by (nonlinear_arith);
    assert((a + s * c) * (x + s * y) == t + ss * cy);
    lemma_cong_mul(ss, -3, cy, cy, q);
    lemma_cong_add(t, t, ss * cy, (-3) * cy, q);
    assert(t + (-3) * cy == (a * x - 3 * (c * y)) + s * (a * y + c * x));
}

/// Where `s^2 = -3`, the cube of `a + s c` is
/// `(a^3 - 9 a c^2) + s (3 a^2 c - 3 c^3)`.
pub proof fn lemma_cube(a: int, c: int, s: int, q: int)
    requires
        q > 0,
        cong(s * s, -3, q),
    ensures
        cong(
            cube(a + s * c),
            (cube(a) - 9 * (a * (c * c))) + s * (3 * ((a * a) * c) - 3 * cube(c)),
            q,
        ),
{
    let x = a + s * c;
    // the square
    let a2 = a * a - 3 * (c * c);
    let c2 = a * c + c * a;
    lemma_mul_pair(a, c, a, c, s, q);
    // the cube
    lemma_cong_mul(x * x, a2 + s * c2, x, x, q);
    lemma_mul_pair(a2, c2, a, c, s, q);
    let aa = a * a;
    let cc = c * c;
    assert(a2 * a - 3 * (c2 * c) == aa * a - 9 * (a * cc)) by (nonlinear_arith)
        requires
            a2 == aa - 3 * cc,
            c2 == a * c + c * a,
            aa == a * a,
            cc == c * c,
    ;
    assert(a2 * c + c2 * a == 3 * (aa * c) - 3 * (cc * c)) by (nonlinear_arith)
        requires
            a2 == aa - 3 * cc,
            c2 == a * c + c * a,
            aa == a * a,
            cc == c * c,
    ;
    assert(cc * c == cube(c));
    assert(aa * a == cube(a));
}

/// Where `s^2 = -3`, `(p + s r) (p - s r) = p^2 + 3 r^2`.
pub proof fn lemma_norm(p: int, r: int, s: int, q: int)
    requires
        q > 0,
        cong(s * s, -3, q),
    ensures
        cong((p + s * r) * (p - s * r), p * p + 3 * (r * r), q),
{
    let ss = s * s;
    assert((p + s * r) * (p - s * r) == p * p - ss * (r * r)) by (nonlinear_arith)
        requires
            ss == s * s,
    ;
    lemma_cong_mul(ss, -3, r * r, r * r, q);
    lemma_cong_sub(p * p, p * p, ss * (r * r), (-3) * (r * r), q);
    assert(p * p - (-3) * (r * r) == p * p + 3 * (r * r)) by (nonlinear_arith);
}

/// The identity behind the map: with `d = b + 1 + n`, `a = -d`,
/// `c = d - 2 n` and `e = -3 n`, the norm of
/// `(a^3 - 9 a c^2 + 8 d^3 b) + s (3 a^2 c - 3 c^3)` is
/// `64 (b + 1)^2 ((e + d^2)^3 + e^3 b)`.
pub proof fn lemma_identity(n: int, b: int)
    ensures
        ({
            let d = b + 1 + n;
            let a = -d;
            let c = d - 2 * n;
            let e = -3 * n;
            let p = cube(a) - 9 * (a * (c * c)) + 8 * (cube(d) * b);
            let r = 3 * ((a * a) * c) - 3 * cube(c);
            p * p + 3 * (r * r) == 64 * ((b + 1) * (b + 1)) * (cube(e + d * d) + cube(e) * b)
        }),
{
    let d = b + 1 + n;
    let a = -d;
    let c = d - 2 * n;
    let e = -3 * n;
    let p = cube(a) - 9 * (a * (c * c)) + 8 * (cube(d) * b);
    let r = 3 * ((a * a) * c) - 3 * cube(c);
    let bp = b + 1;
    // p = 4 (b + 1) d (2 d^2 - 9 n) and r = 12 (b + 1) n (d - 2 n)
    let f = 2 * (d * d) - 9 * n;
    let dd = d * d;
    let cc = c * c;
    assert(cc == dd - 4 * (d * n) + 4 * (n * n)) by (nonlinear_arith)
        requires
            c == d - 2 * n,
            cc == c * c,
            dd == d * d,
    ;
    assert(cube(a) == -(d * dd) && a * cc == -(d * cc) && cube(d) == d * dd) by (nonlinear_arith)
        requires
            a == -d,
            dd == d * d,
    ;
    assert(p == -(d * dd) - 9 * (-(d * cc)) + 8 * ((d * dd) * b));
    assert(p == d * (8 * dd + 8 * (dd * b) - 36 * (d * n) + 36 * (n * n))) by (nonlinear_arith)
        requires
            p == -(d * dd) - 9 * (-(d * cc)) + 8 * ((d * dd) * b),
            cc == dd - 4 * (d * n) + 4 * (n * n),
    ;
    assert(8 * dd + 8 * (dd * b) - 36 * (d * n) + 36 * (n * n) == 4 * bp * f) by (nonlinear_arith)
        requires
            d == bp + n,
            b == bp - 1,
            f == 2 * dd - 9 * n,
            dd == d * d,
    ;
    assert(p == 4 * bp * (d * f)) by (nonlinear_arith)
        requires
            p == d * (4 * bp * f),
    ;
    assert(cube(c) == c * cc && a * a == dd) by (nonlinear_arith)
        requires
            a == -d,
            cc == c * c,
            dd == d * d,
    ;
    assert(r == 3 * (dd * c) - 3 * (c * cc));
    assert(3 * (dd * c) - 3 * (c * cc) == 3 * c * (dd - cc)) by (nonlinear_arith);
    assert(dd - cc == 4 * (n * bp)) by (nonlinear_arith)
        requires
            cc == dd - 4 * (d * n) + 4 * (n * n),
            d == bp + n,
    ;
    assert(r == 12 * bp * (n * c)) by (nonlinear_arith)
        requires
            r == 3 * c * (4 * (n * bp)),
    ;
    let df = d * f;
    let nc = n * c;
    assert(p * p + 3 * (r * r) == 16 * (bp * bp) * (df * df + 27 * (nc * nc))) by (nonlinear_arith)
        requires
            p == 4 * bp * df,
            r == 12 * bp * nc,
    ;
    let d2 = d * d;
    let d4 = d2 * d2;
    let d6 = d4 * d2;
    let n2 = n * n;
    let n3 = n2 * n;
    let n4 = n2 * n2;
    assert(f * f == 4 * d4 - 36 * (d2 * n) + 81 * n2) by (nonlinear_arith)
        requires
            f == 2 * d2 - 9 * n,
            d4 == d2 * d2,
            n2 == n * n,
    ;
    assert(df * df == d2 * (f * f)) by (nonlinear_arith)
        requires
            df == d * f,
            d2 == d * d,
    ;
    assert(d2 * (4 * d4 - 36 * (d2 * n) + 81 * n2) == 4 * d6 - 36 * (d4 * n) + 81 * (d2 * n2))
        by (nonlinear_arith)
        requires
            d4 == d2 * d2,
            d6 == d4 * d2,
    ;
    assert(c * c == d2 - 4 * (d * n) + 4 * n2) by (nonlinear_arith)
        requires
            c == d - 2 * n,
            d2 == d * d,
            n2 == n * n,
    ;
    assert(nc * nc == n2 * (c * c)) by (nonlinear_arith)
        requires
            nc == n * c,
            n2 == n * n,
    ;
    assert(n2 * (d2 - 4 * (d * n) + 4 * n2) == d2 * n2 - 4 * (d * n3) + 4 * n4) by (nonlinear_arith)
        requires
            n3 == n2 * n,
            n4 == n2 * n2,
    ;
    let g = d2 - 3 * n;
    assert(g * g == d4 - 6 * (d2 * n) + 9 * n2) by (nonlinear_arith)
        requires
            g == d2 - 3 * n,
            d4 == d2 * d2,
            n2 == n * n,
    ;
    assert((d4 - 6 * (d2 * n) + 9 * n2) * g == d6 - 9 * (d4 * n) + 27 * (d2 * n2) - 27 * n3)
        by (nonlinear_arith)
        requires
            g == d2 - 3 * n,
            d4 == d2 * d2,
            d6 == d4 * d2,
            n2 == n * n,
            n3 == n2 * n,
    ;
    assert(cube(e + d * d) == d6 - 9 * (d4 * n) + 27 * (d2 * n2) - 27 * n3);
    assert(cube(e) == -27 * n3) by (nonlinear_arith)
        requires
            e == -3 * n,
            n2 == n * n,
            n3 == n2 * n,
    ;
    assert((-27 * n3) * b == -27 * (d * n3) + 27 * n4 + 27 * n3) by (nonlinear_arith)
        requires
            b == d - n - 1,
            n2 == n * n,
            n4 == n2 * n2,
            n3 == n2 * n,
    ;
    assert(df * df + 27 * (nc * nc) == 4 * (cube(e + d * d) + cube(e) * b));
    assert(16 * (bp * bp) * (4 * (cube(e + d * d) + cube(e) * b)) == 64 * (bp * bp) * (cube(
        e + d * d,
    ) + cube(e) * b)) by (nonlinear_arith);
}

/// `x^3 + b` scaled by a cube: where `k x = t`, `k^3 (x^3 + b) = t^3 + k^3 b`.
pub proof fn lemma_scaled(x: nat, k: int, t: int, q: nat, b: nat)
    requires
        q > 0,
        cong(k * x, t, q as int),
    ensures
        cong(cube(k) * cube_plus_b(x, q, b), cube(t) + cube(k) * b, q as int),
{
    let qi = q as int;
    let xi = x as int;
    let bi = b as int;
    let m2 = mul_mod(x, x, q);
    let m3 = mul_mod(m2, x, q);
    let g = cube_plus_b(x, q, b);
    lemma_ops(x, x, q);
    lemma_ops(m2, x, q);
    lemma_ops(m3, b, q);
    // g = x x x + b
    lemma_cong_mul(m2 as int, xi * xi, xi, xi, qi);
    lemma_cong_add(m3 as int, (xi * xi) * xi, bi, bi, qi);
    lemma_cong_mul(cube(k), cube(k), g as int, (xi * xi) * xi + bi, qi);
    let kx = k * xi;
    assert(cube(k) * ((xi * xi) * xi + bi) == kx * kx * kx + cube(k) * bi) by (nonlinear_arith)
        requires
            kx == k * xi,
    ;
    lemma_cong_mul(kx, t, kx, t, qi);
    lemma_cong_mul(kx * kx, t * t, kx, t, qi);
    lemma_cong_add(kx * kx * kx, t * t * t, cube(k) * bi, cube(k) * bi, qi);
}

/// The candidates, cleared of their denominators: with `d = b + 1 + v^2`,
/// `2 d x1` and `2 d x2` are `-d + s (d - 2 v^2)` and its conjugate, and
/// `-3 v^2 x3` is `-3 v^2 + d^2`.
pub proof fn lemma_cleared(v: nat, q: nat, b: nat)
    requires
        curve_valid(q, b),
        v < q,
        ft_defined(v, q, b),
    ensures
        ({
            let s = sqrt_minus_3(q) as int;
            let n = (v as int) * (v as int);
            let d = (b as int) + 1 + n;
            let c = d - 2 * n;
            let e = -3 * n;
            &&& cong((2 * d) * (ft_x1(v, q, b) as int), -d + s * c, q as int)
            &&& cong((2 * d) * (ft_x2(v, q, b) as int), -d + s * (-c), q as int)
            &&& cong(e * (ft_x3(v, q, b) as int), e + d * d, q as int)
            &&& cong(s * s, -3, q as int)
            &&& d % (q as int) != 0
        }),
{
    let qi = q as int;
    let vi = v as int;
    let s_n = sqrt_minus_3(q);
    let i2_n = inv_mod(2, q);
    let m1_n = neg_mod(1, q);
    let t1_n = add_mod(m1_n, s_n, q);
    let c1_n = sqrt_minus_3_minus_1_div_2(q);
    let bb_n = add_mod(b, 1, q);
    let vv_n = mul_mod(v, v, q);
    let dd_n = ft_denominator(v, q, b);
    let w_n = ft_w(v, q, b);
    let u_n = ft_u(v, q, b);
    let vw_n = mul_mod(v, w_n, q);
    let uu_n = mul_mod(u_n, u_n, q);
    let x1_n = ft_x1(v, q, b);
    let x2_n = ft_x2(v, q, b);
    let x3_n = ft_x3(v, q, b);
    let (s, i2, m1, t1, c1, bb, vv, dd, w, u, vw, uu, x1, x2, x3) = (
        s_n as int,
        i2_n as int,
        m1_n as int,
        t1_n as int,
        c1_n as int,
        bb_n as int,
        vv_n as int,
        dd_n as int,
        w_n as int,
        u_n as int,
        vw_n as int,
        uu_n as int,
        x1_n as int,
        x2_n as int,
        x3_n as int,
    );
    let bi = b as int;
    let n = vi * vi;
    let d = bi + 1 + n;
    let c = d - 2 * n;
    let e = -3 * n;
    lemma_small_mod(0, q);
    lemma_small_mod(1, q);
    lemma_small_mod(2, q);
    lemma_domain(v, q, b);
    lemma_inverse(2, q);
    lemma_inverse(dd_n, q);
    lemma_ops(1, 0, q);
    lemma_ops(3, 0, q);
    lemma_ops(m1_n, s_n, q);
    lemma_ops(t1_n, i2_n, q);
    lemma_ops(b, 1, q);
    lemma_ops(v, v, q);
    lemma_ops(bb_n, vv_n, q);
    lemma_ops(v, w_n, q);
    lemma_ops(c1_n, vw_n, q);
    lemma_ops(m1_n, x1_n, q);
    lemma_ops(u_n, u_n, q);
    lemma_ops(1, uu_n, q);
    lemma_ops(s_n, s_n, q);
    // the denominator is d
    lemma_cong_add(bb, bi + 1, vv, n, qi);
    assert(cong(dd, d, qi));
    // w d = -s v
    lemma_cong_mul(w, w, dd, d, qi);
    assert(cong(w * d, -s * vi, qi));
    // 2 c1 = s - 1
    lemma_cong_add(m1, -1, s, s, qi);
    lemma_cong_mul(t1, -1 + s, i2, i2, qi);
    lemma_cong_mul(2, 2, c1, (-1 + s) * i2, qi);
    assert(2 * ((-1 + s) * i2) == (2 * i2) * (s - 1)) by (nonlinear_arith);
    lemma_cong_mul(2 * i2, 1, s - 1, s - 1, qi);
    assert(1 * (s - 1) == s - 1);
    assert(cong(2 * c1, s - 1, qi));
    // 2 d x1 = d (2 c1) + 2 v (w d) = d (s - 1) - 2 s v v
    lemma_cong_add(c1, c1, vw, vi * w, qi);
    lemma_cong_mul(2 * d, 2 * d, x1, c1 + vi * w, qi);
    assert((2 * d) * (c1 + vi * w) == d * (2 * c1) + (2 * vi) * (w * d)) by (nonlinear_arith);
    lemma_cong_mul(d, d, 2 * c1, s - 1, qi);
    lemma_cong_mul(2 * vi, 2 * vi, w * d, -s * vi, qi);
    lemma_cong_add(d * (2 * c1), d * (s - 1), (2 * vi) * (w * d), (2 * vi) * (-s * vi), qi);
    assert(d * (s - 1) + (2 * vi) * (-s * vi) == -d + s * c) by (nonlinear_arith)
        requires
            c == d - 2 * n,
            n == vi * vi,
    ;
    assert(cong((2 * d) * x1, -d + s * c, qi));
    // 2 d x2 = 2 d (-1 - x1) = -2 d - 2 d x1
    lemma_cong_sub(m1, -1, x1, x1, qi);
    lemma_cong_mul(2 * d, 2 * d, x2, -1 - x1, qi);
    assert((2 * d) * (-1 - x1) == (0 - 2 * d) - (2 * d) * x1) by (nonlinear_arith);
    lemma_cong_sub(0 - 2 * d, 0 - 2 * d, (2 * d) * x1, -d + s * c, qi);
    assert((0 - 2 * d) - (-d + s * c) == -d + s * (-c)) by (nonlinear_arith);
    assert(cong((2 * d) * x2, -d + s * (-c), qi));
    // (s v) (s v) = e and s u v = -d
    lemma_cong_mul(s * s, -3, n, n, qi);
    assert((s * vi) * (s * vi) == (s * s) * n) by (nonlinear_arith)
        requires
            n == vi * vi,
    ;
    assert(cong((s * vi) * (s * vi), e, qi));
    lemma_cong_sub(0, 0, -s * u * vi, bb + vi * vi, qi);
    lemma_cong_add(bb, bi + 1, n, n, qi);
    lemma_cong_sub(0, 0, bb + n, d, qi);
    assert(0 - (-s * u * vi) == s * u * vi) by (nonlinear_arith);
    assert(cong(s * u * vi, 0 - d, qi));
    // e x3 = e + e (u u) = e + (s u v) (s u v) = e + d d
    lemma_cong_add(1, 1, uu, u * u, qi);
    lemma_cong_mul(e, e, x3, 1 + u * u, qi);
    lemma_cong_mul((s * vi) * (s * vi), e, u * u, u * u, qi);
    assert(((s * vi) * (s * vi)) * (u * u) == (s * u * vi) * (s * u * vi)) by (nonlinear_arith);
    lemma_cong_mul(s * u * vi, 0 - d, s * u * vi, 0 - d, qi);
    assert((0 - d) * (0 - d) == d * d) by (nonlinear_arith);
    assert(cong(e * (u * u), d * d, qi));
    lemma_cong_add(e, e, e * (u * u), d * d, qi);
    assert(e * (1 + u * u) == e + e * (u * u)) by (nonlinear_arith);
    assert(cong(e * x3, e + d * d, qi));
}

/// The product identity of the candidates: with `d = b + 1 + v^2` and
/// `e = -3 v^2`, `(8 d^3 g1) (8 d^3 g2) = 64 (b + 1)^2 (e^3 g3)`, where `g`
/// is `x^3 + b` at the three candidates.
pub proof fn lemma_product(v: nat, q: nat, b: nat)
    requires
        curve_valid(q, b),
        v < q,
        ft_defined(v, q, b),
    ensures
        ({
            let n = (v as int) * (v as int);
            let d = (b as int) + 1 + n;
            let e = -3 * n;
            let g1 = cube_plus_b(ft_x1(v, q, b), q, b) as int;
            let g2 = cube_plus_b(ft_x2(v, q, b), q, b) as int;
            let g3 = cube_plus_b(ft_x3(v, q, b), q, b) as int;
            cong(
                (cube(2 * d) * g1) * (cube(2 * d) * g2),
                (64 * (((b as int) + 1) * ((b as int) + 1))) * (cube(e) * g3),
                q as int,
            )
        }),
{
    let qi = q as int;
    let bi = b as int;
    let s = sqrt_minus_3(q) as int;
    let n = (v as int) * (v as int);
    let d = bi + 1 + n;
    let a = -d;
    let c = d - 2 * n;
    let e = -3 * n;
    let k = 2 * d;
    let g1 = cube_plus_b(ft_x1(v, q, b), q, b) as int;
    let g2 = cube_plus_b(ft_x2(v, q, b), q, b) as int;
    let g3 = cube_plus_b(ft_x3(v, q, b), q, b) as int;
    lemma_cleared(v, q, b);
    lemma_scaled(ft_x1(v, q, b), k, a + s * c, q, b);
    lemma_scaled(ft_x2(v, q, b), k, a + s * (-c), q, b);
    lemma_scaled(ft_x3(v, q, b), e, e + d * d, q, b);
    lemma_cube(a, c, s, qi);
    lemma_cube(a, -c, s, qi);
    // k^3 g1 = p + s r and k^3 g2 = p - s r
    let p = cube(a) - 9 * (a * (c * c)) + 8 * (cube(d) * bi);
    let r = 3 * ((a * a) * c) - 3 * cube(c);
    assert(cube(k) == 8 * cube(d)) by (nonlinear_arith)
        requires
            k == 2 * d,
    ;
    let p0 = cube(a) - 9 * (a * (c * c));
    assert(cube(k) * bi == 8 * (cube(d) * bi)) by (nonlinear_arith)
        requires
            cube(k) == 8 * cube(d),
    ;
    lemma_cong_add(cube(a + s * c), p0 + s * r, cube(k) * bi, cube(k) * bi, qi);
    assert(p0 + s * r + cube(k) * bi == p + s * r);
    let r_neg = 3 * ((a * a) * (-c)) - 3 * cube(-c);
    assert(r_neg == -r) by (nonlinear_arith)
        requires
            r == 3 * ((a * a) * c) - 3 * (c * c * c),
            r_neg == 3 * ((a * a) * (-c)) - 3 * ((-c) * (-c) * (-c)),
    ;
    assert(a * ((-c) * (-c)) == a * (c * c)) by (nonlinear_arith);
    assert(s * r_neg == -(s * r)) by (nonlinear_arith)
        requires
            r_neg == -r,
    ;
    lemma_cong_add(cube(a + s * (-c)), p0 - s * r, cube(k) * bi, cube(k) * bi, qi);
    assert(p0 - s * r + cube(k) * bi == p - s * r);
    assert(cong(cube(k) * g1, p + s * r, qi));
    assert(cong(cube(k) * g2, p - s * r, qi));
    // the product is the norm
    lemma_cong_mul(cube(k) * g1, p + s * r, cube(k) * g2, p - s * r, qi);
    lemma_norm(p, r, s, qi);
    lemma_identity(n, bi);
    // and the norm is 64 (b + 1)^2 (e^3 g3)
    let h = 64 * ((bi + 1) * (bi + 1));
    lemma_cong_mul(h, h, cube(e) * g3, cube(e + d * d) + cube(e) * bi, qi);
}

/// Modulo a prime, a product of residues that are not zero is not zero.
pub proof fn lemma_unit_product(a: int, b: int, q: nat)
    requires
        is_prime(q),
        a % (q as int) != 0,
        b % (q as int) != 0,
    ensures
        (a * b) % (q as int) != 0,
{
    lemma_small_mod(0, q);
    if (a * b) % (q as int) == 0 {
        lemma_zero_product(a, b, q);
    }
}

/// The character of a residue scaled by the square of a unit `k` is the
/// character of the residue.
pub proof fn lemma_scaled_character(k: int, g: nat, q: nat)
    requires
        prime_field(q),
        k % (q as int) != 0,
    ensures
        ({
            let kn = (k % (q as int)) as nat;
            let scaled = mul_mod(mul_mod(kn, kn, q), g, q);
            &&& legendre(scaled, q) == legendre(g, q)
            &&& cong(scaled as int, (k * k) * g, q as int)
            &&& scaled < q
        }),
{
    let qi = q as int;
    let kn = (k % qi) as nat;
    let kk = mul_mod(kn, kn, q);
    lemma_mod_bound(k, qi);
    lemma_mod_twice(k, qi);
    lemma_small_mod(kn, q);
    lemma_legendre_masked(kn, g, q);
    lemma_ops(kn, kn, q);
    lemma_ops(kk, g, q);
    lemma_cong_mul(kn as int, k, kn as int, k, qi);
    lemma_cong_mul(kk as int, k * k, g as int, g as int, qi);
}

/// Where neither `x1^3 + b` nor `x2^3 + b` is a square, `x3^3 + b` is one,
/// and not zero: the third candidate is on the curve wherever the first two
/// are not.
pub proof fn lemma_third_candidate(v: nat, q: nat, b: nat)
    requires
        curve_valid(q, b),
        v < q,
        ft_defined(v, q, b),
        legendre(cube_plus_b(ft_x1(v, q, b), q, b), q) == -1,
        legendre(cube_plus_b(ft_x2(v, q, b), q, b), q) == -1,
    ensures
        legendre(cube_plus_b(ft_x3(v, q, b), q, b), q) == 1,
{
    let qi = q as int;
    let vi = v as int;
    let bi = b as int;
    let s = sqrt_minus_3(q) as int;
    let n = vi * vi;
    let d = bi + 1 + n;
    let e = -3 * n;
    let g1_n = cube_plus_b(ft_x1(v, q, b), q, b);
    let g2_n = cube_plus_b(ft_x2(v, q, b), q, b);
    let g3_n = cube_plus_b(ft_x3(v, q, b), q, b);
    let g12_n = mul_mod(g1_n, g2_n, q);
    let (g1, g2, g3, g12) = (g1_n as int, g2_n as int, g3_n as int, g12_n as int);
    lemma_small_mod(0, q);
    lemma_small_mod(2, q);
    lemma_small_mod(3, q);
    vstd::arithmetic::div_mod::lemma_mod_self_0(qi);
    lemma_small_mod(b + 1, q);
    lemma_domain(v, q, b);
    lemma_cleared(v, q, b);
    lemma_product(v, q, b);
    lemma_ops(g1_n, g2_n, q);
    lemma_ops(3, 0, q);
    // the left side: the square of k = (2 d)^3 times g1 g2
    let k = cube(2 * d);
    lemma_unit_product(2, d, q);
    lemma_unit_product(2 * d, 2 * d, q);
    lemma_unit_product((2 * d) * (2 * d), 2 * d, q);
    lemma_scaled_character(k, g12_n, q);
    lemma_cong_mul(k * k, k * k, g12, g1 * g2, qi);
    assert((k * k) * (g1 * g2) == (k * g1) * (k * g2)) by (nonlinear_arith);
    lemma_legendre_mul(g1_n, g2_n, q);
    assert((-1) * (-1) == 1);
    // the right side: the square of m = 8 (b + 1) (s v)^3 times g3
    let sv = s * vi;
    if s % qi == 0 {
        lemma_cong_mul(s, 0, s, 0, qi);
        assert(0 * 0 == 0);
        vstd::arithmetic::div_mod::lemma_mod_multiples_vanish(1, -3, qi);
        lemma_small_mod((q - 3) as nat, q);
    }
    lemma_small_mod(v, q);
    lemma_unit_product(s, vi, q);
    lemma_unit_product(sv, sv, q);
    lemma_unit_product(sv * sv, sv, q);
    lemma_unit_product(2, 2, q);
    lemma_unit_product(4, 2, q);
    lemma_unit_product(8, bi + 1, q);
    lemma_unit_product(8 * (bi + 1), cube(sv), q);
    let m = (8 * (bi + 1)) * cube(sv);
    lemma_scaled_character(m, g3_n, q);
    // (s v) (s v) = e, so e^3 = ((s v)^3)^2
    lemma_cong_mul(s * s, -3, n, n, qi);
    assert(sv * sv == (s * s) * n) by (nonlinear_arith)
        requires
            sv == s * vi,
            n == vi * vi,
    ;
    let f = sv * sv;
    lemma_cong_mul(f, e, f, e, qi);
    lemma_cong_mul(f * f, e * e, f, e, qi);
    assert(f * f * f == cube(sv) * cube(sv)) by (nonlinear_arith)
        requires
            f == sv * sv,
    ;
    let h = 64 * ((bi + 1) * (bi + 1));
    lemma_cong_mul(h, h, cube(sv) * cube(sv), cube(e), qi);
    assert(m * m == h * (cube(sv) * cube(sv))) by (nonlinear_arith)
        requires
            m == (8 * (bi + 1)) * cube(sv),
            h == 64 * ((bi + 1) * (bi + 1)),
    ;
    lemma_cong_mul(m * m, h * cube(e), g3, g3, qi);
    assert((h * cube(e)) * g3 == h * (cube(e) * g3)) by (nonlinear_arith);
    // both sides are one residue
    let left = mul_mod(mul_mod((k % qi) as nat, (k % qi) as nat, q), g12_n, q);
    let right = mul_mod(mul_mod((m % qi) as nat, (m % qi) as nat, q), g3_n, q);
    lemma_cong_reduced(left, right, q);
}

/// The branch that two characters select, neither of them zero: the first
/// where the first is `1`, else the second where the second is `1`, else
/// the third.
pub proof fn lemma_branch_index(alpha: int, beta: int)
    requires
        alpha == 1 || alpha == -1,
        beta == 1 || beta == -1,
    ensures
        branch_index(alpha, beta) == (if alpha == 1 {
            1int
        } else if beta == 1 {
            2int
        } else {
            3int
        }),
{
    assert((alpha - 1) * beta == (if alpha == 1 {
        0int
    } else if beta == 1 {
        -2int
    } else {
        2int
    })) by (nonlinear_arith)
        requires
            alpha == 1 || alpha == -1,
            beta == 1 || beta == -1,
    ;
}

/// The map refuses a value only for its domain: the image of `v` exists
/// exactly where `1 + b + v^2` and `w` are invertible and neither masked
/// character is zero. The candidate point is then on the curve.
pub proof fn lemma_encode_defined(v: nat, r1: nat, r2: nat, q: nat, b: nat)
    requires
        curve_valid(q, b),
        v < q,
    ensures
        encode_model(v, r1, r2, q, b) is Some <==> ft_defined(v, q, b) && ft_alpha(v, r1, q, b)
            != 0 && ft_beta(v, r2, q, b) != 0,
{
    reveal(encode_model);
    let qi = q as int;
    let alpha = ft_alpha(v, r1, q, b);
    let beta = ft_beta(v, r2, q, b);
    if ft_defined(v, q, b) && alpha != 0 && beta != 0 {
        let idx = branch_index(alpha, beta);
        let u = ft_u(v, q, b);
        let x = ft_x(idx, v, q, b);
        let g = cube_plus_b(x, q, b);
        let root = sqrt_mod(g, q);
        let g1 = cube_plus_b(ft_x1(v, q, b), q, b);
        let g2 = cube_plus_b(ft_x2(v, q, b), q, b);
        let rr1 = mul_mod(r1, r1, q);
        let rr2 = mul_mod(r2, r2, q);
        lemma_branch_index(alpha, beta);
        lemma_small_mod(0, q);
        // a mask that is zero makes the masked character zero
        lemma_ops(r1, r1, q);
        lemma_ops(r2, r2, q);
        lemma_ops(rr1, g1, q);
        lemma_ops(rr2, g2, q);
        if r1 % q == 0 {
            lemma_cong_mul(r1 as int, 0, r1 as int, r1 as int, qi);
            assert(0 * r1 == 0);
            lemma_cong_mul(rr1 as int, 0, g1 as int, g1 as int, qi);
            assert(0 * g1 == 0);
            lemma_small_mod(mul_mod(rr1, g1, q), q);
        }
        if r2 % q == 0 {
            lemma_cong_mul(r2 as int, 0, r2 as int, r2 as int, qi);
            assert(0 * r2 == 0);
            lemma_cong_mul(rr2 as int, 0, g2 as int, g2 as int, qi);
            assert(0 * g2 == 0);
            lemma_small_mod(mul_mod(rr2, g2, q), q);
        }
        assert(r1 % q != 0);
        assert(r2 % q != 0);
        lemma_legendre_masked(r1, g1, q);
        lemma_legendre_masked(r2, g2, q);
        assert(legendre(g1, q) == alpha);
        assert(legendre(g2, q) == beta);
        if idx == 3 {
            lemma_third_candidate(v, q, b);
        }
        assert(legendre(g, q) == 1);
        // the root candidate is a root, and so is its negation
        lemma_legendre(g, q);
        lemma_ops(mul_mod(mul_mod(x, x, q), x, q), b, q);
        lemma_small_mod(g, q);
        lemma_ops(root, root, q);
        lemma_ops(root, 0, q);
        let other = neg_mod(root, q);
        lemma_ops(other, other, q);
        lemma_cong_mul(other as int, -(root as int), other as int, -(root as int), qi);
        assert((-(root as int)) * (-(root as int)) == root * root) by (nonlinear_arith);
        let y = with_sign(root, character(idx, v, u, q, b), q);
        assert(y == root || y == other);
        lemma_cong_reduced(mul_mod(other, other, q), mul_mod(root, root, q), q);
        assert(on_curve(x, y, q, b));
    }
}

/// The domain of the map: under masks that are not zero, `v` has an image
/// exactly where `1 + b + v^2` and `w` are invertible and neither `x1` nor
/// `x2` is the x-coordinate of a point with `y = 0`.
pub proof fn lemma_encode_domain(v: nat, r1: nat, r2: nat, q: nat, b: nat)
    requires
        curve_valid(q, b),
        v < q,
        r1 % q != 0,
        r2 % q != 0,
    ensures
        encode_model(v, r1, r2, q, b) is Some <==> ft_defined(v, q, b) && cube_plus_b(
            ft_x1(v, q, b),
            q,
            b,
        ) != 0 && cube_plus_b(ft_x2(v, q, b), q, b) != 0,
{
    let g1 = cube_plus_b(ft_x1(v, q, b), q, b);
    let g2 = cube_plus_b(ft_x2(v, q, b), q, b);
    lemma_encode_defined(v, r1, r2, q, b);
    lemma_legendre_masked(r1, g1, q);
    lemma_legendre_masked(r2, g2, q);
    lemma_ops(mul_mod(mul_mod(ft_x1(v, q, b), ft_x1(v, q, b), q), ft_x1(v, q, b), q), b, q);
    lemma_ops(mul_mod(mul_mod(ft_x2(v, q, b), ft_x2(v, q, b), q), ft_x2(v, q, b), q), b, q);
    lemma_small_mod(g1, q);
    lemma_small_mod(g2, q);
}

impl<P: BnParameters> Encoder<P> {
    /// Over a prime modulus and under masks that are not zero, `encode`
    /// refuses `v` exactly where `1 + b + v^2` or `w` has no inverse, or
    /// `x1` or `x2` is the x-coordinate of a point with `y = 0`: the
    /// candidate point never misses the curve.
    pub proof fn lemma_encode_domain(&self, v: nat, r1: nat, r2: nat)
        requires
            self.wf(),
            is_prime(self.q@),
            v < self.q@,
            r1 % self.q@ != 0,
            r2 % self.q@ != 0,
        ensures
            encode_model(v, r1, r2, self.q@, self.b@) is Some <==> ft_defined(v, self.q@, self.b@)
                && cube_plus_b(ft_x1(v, self.q@, self.b@), self.q@, self.b@) != 0 && cube_plus_b(
                ft_x2(v, self.q@, self.b@),
                self.q@,
                self.b@,
            ) != 0,
    {
        self.lemma_curve_valid();
        lemma_encode_domain(v, r1, r2, self.q@, self.b@);
    }
}

} // verus!
