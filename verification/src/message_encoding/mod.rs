//! The single-point encoder and decoder: the Fouque-Tibouchi map from a field
//! element to a curve point with a decode hint, and its inverse with and
//! without the hint.

pub mod hybrid;
pub mod hybrid_laws;
pub mod image_laws;
pub mod laws;
pub mod model;
pub mod tag;

use core::marker::PhantomData;
use vstd::arithmetic::div_mod::lemma_mod_bound;
use vstd::prelude::*;

use crate::bn::BnParameters;
use crate::constant_time::{ct_and, ct_assign_u8, ct_eq_i8, ct_eq_u8};
use crate::field::Fq;
use crate::limbs::{le_bytes_from_limbs, limbs_from_le_bytes, limbs_value};
use crate::modular::{add_mod, inv_mod, neg_mod};

verus! {

/// Which branch of the map produced a point: a value in `1..=4`.
pub type DecodeHint = u8;

/// Why an operation of the encoders was refused.
#[derive(Clone, Copy, Debug, PartialEq, Eq, Structural)]
pub enum EncodingError {
    /// The curve parameters do not admit the encoding.
    Config,
    /// The value has no image under the map.
    Domain,
    /// The input has the wrong length.
    Length,
    /// No candidate carries a matching tag, or a point has no preimage under
    /// its hint.
    Integrity,
    /// More than one candidate carries a matching tag.
    Ambiguity,
}

/// A point of the curve in affine coordinates.
#[derive(Clone, Debug)]
pub struct G1Affine {
    pub x: Fq,
    pub y: Fq,
    pub infinity: bool,
}

/// The constants of the map for the curve `P`, computed once.
pub struct Encoder<P: BnParameters> {
    pub q: Fq,
    pub b: Fq,
    pub b_plus_one: Fq,
    pub minus_one: Fq,
    pub minus_3: Fq,
    pub minus_4_times_b_plus_1: Fq,
    pub inv_2: Fq,
    pub legendre_2: i32,
    pub sqrt_minus_3: Fq,
    pub minus_sqrt_minus_3: Fq,
    pub sqrt_minus_3_minus_1_div_2: Fq,
    pub minus_sqrt_minus_3_div_2: Fq,
    pub q_minus_1_div_2: Fq,
    /// The limbs of `(q + 1) / 4`, least significant first. A square raised to
    /// this power is one of its roots, as `q = 3 (mod 4)`.
    pub square_root_pow: Vec<u64>,
    pub phantom: PhantomData<P>,
}

/// The number that an optional element holds.
pub open spec fn option_value(o: Option<Fq>) -> Option<nat> {
    match o {
        Some(x) => Some(x@),
        None => None,
    }
}

/// The character of `val` modulo `q` by Euler's criterion.
fn euler_symbol(val: &Fq, half: &Fq, q: &Fq) -> (r: i32)
    requires
        q@ > 0,
        half@ == model::half(q@),
    ensures
        r == model::legendre(val@, q@),
{
    if val.reduce(q).is_zero() {
        0
    } else if val.pow(half, q).equals(&Fq::from_u64(1)) {
        1
    } else {
        -1
    }
}

/// `1` where `a` is below `half`, else `-1`.
fn sign_of(a: &Fq, half: &Fq) -> (r: i8)
    ensures
        r == (if a@ < half@ { 1i8 } else { -1i8 }),
{
    if a.less_than(half) {
        1
    } else {
        -1
    }
}

/// Whether the modulus `q` admits the map: `q = 3 (mod 4)`, `2` has an
/// inverse, and the root candidate of `-3` is a root.
pub fn admits_map(q: &Fq) -> (r: bool)
    ensures
        r == model::config_valid(q@),
{
    let two = Fq::from_u64(2);
    let three = Fq::from_u64(3);
    let four = Fq::from_u64(4);
    if !q.reduce(&four).equals(&three) {
        return false;
    }
    if two.inverse(q).is_none() {
        return false;
    }
    let exponent = q.int_add(&Fq::from_u64(1)).int_div(&four);
    let minus_3 = three.neg(q);
    minus_3.pow(&exponent, q).square(q).equals(&minus_3)
}

impl<P: BnParameters> Encoder<P> {
    /// Whether every constant is the one that the curve's `q` and `b` give.
    pub open spec fn wf(&self) -> bool {
        let q = self.q@;
        &&& q == P::spec_modulus()
        &&& model::config_valid(q)
        &&& self.b@ == P::spec_coeff_b() % q
        &&& self.b_plus_one@ == add_mod(self.b@, 1, q)
        &&& self.minus_one@ == neg_mod(1, q)
        &&& self.minus_3@ == neg_mod(3, q)
        &&& self.minus_4_times_b_plus_1@ == model::minus_4_times_b_plus_1(q, self.b@)
        &&& self.inv_2@ == inv_mod(2, q)
        &&& self.legendre_2 == model::legendre(2, q)
        &&& self.sqrt_minus_3@ == model::sqrt_minus_3(q)
        &&& self.minus_sqrt_minus_3@ == neg_mod(self.sqrt_minus_3@, q)
        &&& self.sqrt_minus_3_minus_1_div_2@ == model::sqrt_minus_3_minus_1_div_2(q)
        &&& self.minus_sqrt_minus_3_div_2@ == model::minus_sqrt_minus_3_div_2(q)
        &&& self.q_minus_1_div_2@ == model::half(q)
        &&& limbs_value(self.square_root_pow@) == model::sqrt_exponent(q)
    }

    /// The modulus `q` of the base field.
    pub open spec fn modulus(&self) -> nat {
        self.q@
    }

    /// The coefficient `b` of the curve, reduced.
    pub open spec fn coeff_b(&self) -> nat {
        self.b@
    }

    /// The constants of the curve `P`, or `Config` where `q` is not
    /// `3 (mod 4)`, `2` has no inverse, or `-3` has no square root.
    pub fn new() -> (r: Result<Self, EncodingError>)
        ensures
            r is Ok <==> model::config_valid(P::spec_modulus()),
            r is Ok ==> r->Ok_0.wf(),
            r is Err ==> r->Err_0 == EncodingError::Config,
    {
        let limbs = P::modulus();
        let q = Fq { bytes: le_bytes_from_limbs(&limbs) };
        if !admits_map(&q) {
            return Err(EncodingError::Config);
        }
        let one = Fq::from_u64(1);
        let two = Fq::from_u64(2);
        let three = Fq::from_u64(3);
        let four = Fq::from_u64(4);
        let b = Fq::from_u64(P::coeff_b()).reduce(&q);
        let b_plus_one = b.add(&one, &q);
        let minus_one = one.neg(&q);
        let minus_3 = three.neg(&q);
        let minus_4_times_b_plus_1 = four.neg(&q).mul(&b_plus_one, &q);
        let inv_2 = match two.inverse(&q) {
            Some(x) => x,
            None => {
                return Err(EncodingError::Config);
            },
        };
        let q_minus_1_div_2 = q.int_sub(&one).int_div(&two);
        let legendre_2 = euler_symbol(&two, &q_minus_1_div_2, &q);
        let exponent = q.int_add(&one).int_div(&four);
        let square_root_pow = limbs_from_le_bytes(&exponent.bytes);
        let sqrt_minus_3 = minus_3.pow(&exponent, &q);
        let minus_sqrt_minus_3 = sqrt_minus_3.neg(&q);
        let sqrt_minus_3_minus_1_div_2 = minus_one.add(&sqrt_minus_3, &q).mul(&inv_2, &q);
        let minus_sqrt_minus_3_div_2 = inv_2.mul(&minus_sqrt_minus_3, &q);
        Ok(
            Encoder {
                q,
                b,
                b_plus_one,
                minus_one,
                minus_3,
                minus_4_times_b_plus_1,
                inv_2,
                legendre_2,
                sqrt_minus_3,
                minus_sqrt_minus_3,
                sqrt_minus_3_minus_1_div_2,
                minus_sqrt_minus_3_div_2,
                q_minus_1_div_2,
                square_root_pow,
                phantom: PhantomData,
            },
        )
    }

    /// The character of `val`: `0` for zero, `1` where `val^((q - 1) / 2)` is
    /// `1`, and `-1` otherwise.
    pub fn compute_legendre_symbol(&self, val: &Fq) -> (r: i32)
        requires
            self.wf(),
        ensures
            r == model::legendre(val@, self.q@),
    {
        euler_symbol(val, &self.q_minus_1_div_2, &self.q)
    }

    /// The root candidate of `val`: `val^((q + 1) / 4)`.
    pub fn compute_square_root(&self, val: &Fq) -> (r: Fq)
        requires
            self.wf(),
        ensures
            r@ == model::sqrt_mod(val@, self.q@),
            r@ < self.q@,
    {
        let exponent = Fq { bytes: le_bytes_from_limbs(&self.square_root_pow) };
        proof {
            lemma_mod_bound(
                vstd::arithmetic::power::pow(val@ as int, exponent@),
                self.q@ as int,
            );
        }
        val.pow(&exponent, &self.q)
    }

    /// `x^3 + b`.
    fn curve_rhs(&self, x: &Fq) -> (r: Fq)
        requires
            self.wf(),
        ensures
            r@ == model::cube_plus_b(x@, self.q@, self.b@),
            r@ < self.q@,
    {
        let q = &self.q;
        x.square(q).mul(x, q).add(&self.b, q)
    }

    /// Whether `p` is the point at infinity or satisfies `y^2 = x^3 + b`.
    pub fn is_on_curve(&self, p: &G1Affine) -> (r: bool)
        requires
            self.wf(),
        ensures
            r == (p.infinity || model::on_curve(p.x@, p.y@, self.q@, self.b@)),
    {
        p.infinity || p.y.square(&self.q).equals(&self.curve_rhs(&p.x))
    }

    /// `b` where `choice` is `1` and `a` where it is `0`, computed as
    /// `a (1 - choice) + b choice` in the field.
    fn select(&self, a: &Fq, b: &Fq, choice: u8) -> (r: Fq)
        requires
            self.wf(),
            choice <= 1,
            a@ < self.q@,
            b@ < self.q@,
        ensures
            r@ == (if choice == 1 { b@ } else { a@ }),
    {
        let q = &self.q;
        let keep = Fq::from_u64((1 - choice) as u64);
        let take = Fq::from_u64(choice as u64);
        proof {
            let (x, y, m) = (a@ as int, b@ as int, self.q@ as int);
            assert(x * 1 == x && y * 1 == y && x * 0 == 0 && y * 0 == 0);
            vstd::arithmetic::div_mod::lemma_small_mod(a@, self.q@);
            vstd::arithmetic::div_mod::lemma_small_mod(b@, self.q@);
            vstd::arithmetic::div_mod::lemma_small_mod(0, self.q@);
        }
        a.mul(&keep, q).add(&b.mul(&take, q), q)
    }

    /// The image of `val` under the map and its decode hint, with `r1` and
    /// `r2` masking the two character computations. `Domain` where `val` has
    /// no image: `1 + b + val^2` or `w` is not invertible, a masked character
    /// is zero, or the candidate point misses the curve.
    pub fn encode(&self, val: &Fq, r1: &Fq, r2: &Fq) -> (r: Result<
        (G1Affine, DecodeHint),
        EncodingError,
    >)
        requires
            self.wf(),
        ensures
            match model::encode_model(val@, r1@, r2@, self.q@, self.b@) {
                Some((x, y, h)) => r is Ok && r->Ok_0.0.x@ == x && r->Ok_0.0.y@ == y
                    && !r->Ok_0.0.infinity && r->Ok_0.1 == h,
                None => r is Err && r->Err_0 == EncodingError::Domain,
            },
            r is Ok ==> 1 <= r->Ok_0.1 <= 4,
            r is Ok ==> model::on_curve(r->Ok_0.0.x@, r->Ok_0.0.y@, self.q@, self.b@),
    {
        reveal(model::encode_model);
        let q = &self.q;
        let denominator = self.b_plus_one.add(&val.square(q), q);
        let denominator_inv = match denominator.inverse(q) {
            Some(x) => x,
            None => {
                return Err(EncodingError::Domain);
            },
        };
        let w = self.minus_sqrt_minus_3.mul(val, q).mul(&denominator_inv, q);
        let u = match w.inverse(q) {
            Some(x) => x,
            None => {
                return Err(EncodingError::Domain);
            },
        };
        let x1 = self.sqrt_minus_3_minus_1_div_2.add(&val.mul(&w, q), q);
        let x2 = self.minus_one.sub(&x1, q);
        let x3 = Fq::from_u64(1).add(&u.square(q), q);

        let alpha = self.compute_legendre_symbol(&r1.square(q).mul(&self.curve_rhs(&x1), q));
        let beta = self.compute_legendre_symbol(&r2.square(q).mul(&self.curve_rhs(&x2), q));
        if alpha == 0 || beta == 0 {
            return Err(EncodingError::Domain);
        }
        assert((alpha == 1 || alpha == -1) && (beta == 1 || beta == -1));
        let shifted: u8 = ((alpha - 1) * beta + 3) as u8;
        let idx: u8 = shifted % 3 + 1;
        assert(idx as int == model::branch_index(alpha as int, beta as int));

        let pick_2 = self.select(&x1, &x2, ct_eq_u8(idx, 2));
        let x = self.select(&pick_2, &x3, ct_eq_u8(idx, 3));
        assert(x@ == model::ft_x(idx as int, val@, self.q@, self.b@));

        let rhs = self.curve_rhs(&x);
        let root = self.compute_square_root(&rhs);
        let sgn_cur: i32 = if root.less_than(&self.q_minus_1_div_2) {
            1
        } else {
            -1
        };
        let sgn_expected = self.compute_character(idx, val, &u);
        let y = if sgn_cur != sgn_expected {
            root.neg(q)
        } else {
            root
        };
        if !y.square(q).equals(&rhs) {
            return Err(EncodingError::Domain);
        }
        let mut hint: u8 = 1;
        ct_assign_u8(&mut hint, 2, ct_eq_u8(idx, 2));
        let sgn_u = sign_of(&u, &self.q_minus_1_div_2);
        let on_3 = ct_eq_u8(idx, 3);
        ct_assign_u8(&mut hint, 3, ct_and(on_3, ct_eq_i8(sgn_u, 1)));
        ct_assign_u8(&mut hint, 4, ct_and(on_3, ct_eq_i8(sgn_u, -1)));

        Ok((G1Affine { x, y, infinity: false }, hint))
    }

    /// The preimage of a point with x-coordinate `x` on branch 1, with the
    /// sign that `y` carries.
    fn helper_decode_attempt_1_2(&self, x: &Fq, y: &Fq) -> (r: Option<Fq>)
        requires
            self.wf(),
        ensures
            option_value(r) == model::decode_branch_12(x@, y@, self.q@, self.b@),
            r is Some ==> r->Some_0@ < self.q@,
    {
        reveal(model::decode_branch_12);
        let q = &self.q;
        let step_1 = match x.sub(&self.sqrt_minus_3_minus_1_div_2, q).neg(q).inverse(q) {
            Some(t) => t,
            None => {
                return None;
            },
        };
        let step_2 = match step_1.mul(&self.sqrt_minus_3, q).add(&self.minus_one, q).inverse(q) {
            Some(t) => t,
            None => {
                return None;
            },
        };
        let step_3 = step_2.mul(&self.b_plus_one, q);
        if self.compute_legendre_symbol(&step_3) == -1 {
            return None;
        }
        let step_4 = self.compute_square_root(&step_3);
        let sgn_cur = sign_of(&step_4, &self.q_minus_1_div_2);
        let sgn_expected = sign_of(y, &self.q_minus_1_div_2);
        if sgn_cur != sgn_expected {
            Some(step_4.neg(q))
        } else {
            Some(step_4)
        }
    }

    /// The preimage above `u` on branch 3 that the sign of `y` selects.
    fn helper_decode_attempt_3_4(&self, u: &Fq, y: &Fq) -> (r: Option<Fq>)
        requires
            self.wf(),
        ensures
            option_value(r) == model::decode_branch_34(u@, y@, self.q@, self.b@),
            r is Some ==> r->Some_0@ < self.q@,
    {
        reveal(model::decode_branch_34);
        let q = &self.q;
        let step_1 = u.square(q).mul(&self.minus_3, q).add(&self.minus_4_times_b_plus_1, q);
        if self.compute_legendre_symbol(&step_1) == -1 {
            return None;
        }
        let mid = self.minus_sqrt_minus_3_div_2.mul(u, q);
        let step_2 = self.compute_square_root(&step_1).mul(&self.inv_2, q);
        if sign_of(y, &self.q_minus_1_div_2) == 1 {
            Some(mid.sub(&step_2, q))
        } else {
            Some(mid.add(&step_2, q))
        }
    }

    /// The `u` of a branch-3 point with x-coordinate `x`: the root candidate
    /// of `x - 1` or its negation, the lesser for hint 3 and the other for
    /// hint 4.
    fn branch_3_u(&self, x: &Fq, lesser: bool) -> (r: Fq)
        requires
            self.wf(),
        ensures
            r@ == model::branch_3_u(x@, lesser, self.q@),
    {
        let q = &self.q;
        let rho = self.compute_square_root(&x.sub(&Fq::from_u64(1), q));
        if rho.less_than(&self.q_minus_1_div_2) == lesser {
            rho
        } else {
            rho.neg(q)
        }
    }

    /// The four preimage candidates of `p`, one per hint: slot `i` holds the
    /// preimage that hint `i + 1` names, or `None` where that branch has none.
    pub fn decode_without_hints(&self, p: &G1Affine) -> (r: [Option<Fq>; 4])
        requires
            self.wf(),
        ensures
            forall|i: int|
                0 <= i < 4 ==> option_value(#[trigger] r@[i]) == model::decode_slot_model(
                    i,
                    p.x@,
                    p.y@,
                    self.q@,
                    self.b@,
                ),
            forall|i: int| 0 <= i < 4 && (#[trigger] r@[i]) is Some ==> r@[i]->Some_0@ < self.q@,
    {
        let q = &self.q;
        let one = Fq::from_u64(1);
        let attempt_1 = self.helper_decode_attempt_1_2(&p.x, &p.y);
        let attempt_2 = self.helper_decode_attempt_1_2(&p.x.add(&one, q).neg(q), &p.y);
        let mut attempt_3: Option<Fq> = None;
        let mut attempt_4: Option<Fq> = None;
        if self.compute_legendre_symbol(&p.x.sub(&one, q)) != -1 {
            attempt_3 = self.helper_decode_attempt_3_4(&self.branch_3_u(&p.x, true), &p.y);
            attempt_4 = self.helper_decode_attempt_3_4(&self.branch_3_u(&p.x, false), &p.y);
        }
        [attempt_1, attempt_2, attempt_3, attempt_4]
    }

    /// The preimage of `p` that `hint` names, or `None` where that branch has
    /// none. A hint other than 1, 2 and 3 is read as 4.
    pub fn decode_with_hints(&self, p: &G1Affine, hint: DecodeHint) -> (r: Option<Fq>)
        requires
            self.wf(),
        ensures
            option_value(r) == model::decode_hinted_model(p.x@, p.y@, hint, self.q@, self.b@),
            r is Some ==> r->Some_0@ < self.q@,
    {
        let q = &self.q;
        if hint == 1 {
            self.helper_decode_attempt_1_2(&p.x, &p.y)
        } else if hint == 2 {
            self.helper_decode_attempt_1_2(&p.x.add(&Fq::from_u64(1), q).neg(q), &p.y)
        } else {
            self.helper_decode_attempt_3_4(&self.branch_3_u(&p.x, hint == 3), &p.y)
        }
    }

    /// The sign that the y-coordinate of the image of `val` must carry on
    /// branch `idx`, where `u` is the inverse of `w`.
    pub fn compute_character(&self, idx: u8, val: &Fq, u: &Fq) -> (r: i32)
        requires
            self.wf(),
        ensures
            r == model::character(idx as int, val@, u@, self.q@, self.b@),
    {
        let q = &self.q;
        if idx == 1 || idx == 2 {
            if val.less_than(&self.q_minus_1_div_2) {
                1
            } else {
                -1
            }
        } else {
            let delta_sqrt = self.compute_square_root(
                &self.minus_3.mul(&u.square(q), q).add(&self.minus_4_times_b_plus_1, q),
            );
            let comp_number = u.mul(&self.minus_sqrt_minus_3_div_2, q).sub(
                &delta_sqrt.mul(&self.inv_2, q),
                q,
            );
            if val.equals(&comp_number) {
                1
            } else {
                -1
            }
        }
    }
}

} // verus!
