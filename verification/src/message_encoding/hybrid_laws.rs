//! What holds of the packer: a bundle decodes to its payload.

use vstd::arithmetic::div_mod::lemma_small_mod;
use vstd::arithmetic::power::{lemma_pow_increases, pow};
use vstd::prelude::*;

use crate::bn::BnParameters;
use crate::le_bytes::{canonical_bytes, le_value, lemma_canonical_extension, lemma_le_value_bound};
use crate::message_encoding::EncodingError;
use crate::message_encoding::hybrid::{
    HybridEncoder, adopted, bundle_defined, bundle_model, candidate_slots, chunk_value, data_hints,
    data_image, decoded_chunk, decoded_payload, hints_valid, lemma_unpack_pack, match_count,
    pack_hints, slot_matches, tag_buffer, tag_matches, unbundle_model, unpack_hints,
};
use crate::message_encoding::laws::{
    curve_valid, lemma_encode_on_curve, lemma_exhaustive_decode, lemma_hint_round_trip, regular,
};
use crate::message_encoding::model::{decode_slot_model, encode_model, on_curve};
use crate::message_encoding::tag::tag_of;
use crate::number_theory::is_prime;

verus! {

/// Whether `c` bytes a point, `n` data points and `w` bytes a field element
/// fit the modulus `q`: a chunk is below `q`, the hints and the tag fill one
/// chunk, and a field element has room for `q`.
pub open spec fn layout_fits(n: int, c: int, w: nat, q: nat) -> bool {
    &&& c > 10
    &&& n == 4 * (c - 10)
    &&& pow(256, c as nat) <= q
    &&& q < pow(256, w)
}

/// The value that the tag point carries: the packed hints and their tag, read
/// as a number.
pub open spec fn tag_value(bytes: Seq<u8>, masks: Seq<nat>, n: int, c: int, q: nat, b: nat)
    -> nat {
    le_value(tag_buffer(data_hints(bytes, masks, n, c, q, b))) % q
}

/// Whether every point of the bundle has the signs that the decoders read.
pub open spec fn bundle_regular(
    bytes: Seq<u8>,
    masks: Seq<nat>,
    n: int,
    c: int,
    q: nat,
    b: nat,
) -> bool {
    &&& forall|i: int|
        0 <= i < n ==> #[trigger] regular(
            chunk_value(bytes, i, c, q),
            masks[2 * i],
            masks[2 * i + 1],
            q,
            b,
        )
    &&& regular(tag_value(bytes, masks, n, c, q, b), masks[2 * n], masks[2 * n + 1], q, b)
}

/// A string of `c` bytes is below a modulus that `256^c` does not pass, and
/// its canonical spelling at a field element's length starts with it.
pub proof fn lemma_chunk(s: Seq<u8>, c: int, w: nat, q: nat)
    requires
        s.len() == c,
        pow(256, c as nat) <= q,
        q < pow(256, w),
    ensures
        le_value(s) % q == le_value(s),
        le_value(s) < q,
        canonical_bytes(le_value(s), w).len() == w,
        canonical_bytes(le_value(s), w).subrange(0, c) == s,
        c < w,
{
    lemma_le_value_bound(s);
    lemma_small_mod(le_value(s), q);
    if c >= w {
        lemma_pow_increases(256, w, c as nat);
    }
    lemma_canonical_extension(s, w);
}

/// Where one slot alone matches, the adopted candidate is that of the slot.
pub proof fn lemma_adopted(slots: Seq<Option<nat>>, k: int, j: int, c: int, w: nat)
    requires
        0 <= j < k,
        slot_matches(slots, j, c, w),
    ensures
        match_count(slots, k, c, w) >= 1,
        match_count(slots, k, c, w) == 1 ==> adopted(slots, k, c, w) == slots[j]->Some_0,
    decreases k,
{
    if j < k - 1 {
        lemma_adopted(slots, k - 1, j, c, w);
    } else {
        lemma_no_match(slots, k - 1, c, w);
    }
}

/// Where no slot matches, the count is zero.
pub proof fn lemma_no_match(slots: Seq<Option<nat>>, k: int, c: int, w: nat)
    ensures
        match_count(slots, k, c, w) == 0 ==> forall|i: int|
            0 <= i < k ==> !slot_matches(slots, i, c, w),
    decreases k,
{
    if k > 0 {
        lemma_no_match(slots, k - 1, c, w);
    }
}

/// The first `k` chunks that a bundle decodes to are the first `k` chunks of
/// the payload.
pub proof fn lemma_decoded_payload(
    bytes: Seq<u8>,
    points: Seq<(nat, nat)>,
    hints: Seq<u8>,
    k: int,
    n: int,
    c: int,
    w: nat,
    q: nat,
    b: nat,
)
    requires
        0 <= k <= n,
        c > 0,
        bytes.len() == c * n,
        forall|i: int|
            0 <= i < n ==> #[trigger] decoded_chunk(points, hints, i, c, w, q, b) == Some(
                bytes.subrange(i * c, (i + 1) * c),
            ),
    ensures
        decoded_payload(points, hints, k, c, w, q, b) == bytes.subrange(0, k * c),
    decreases k,
{
    if k == 0 {
        assert(bytes.subrange(0, 0) =~= Seq::<u8>::empty());
    } else {
        lemma_decoded_payload(bytes, points, hints, k - 1, n, c, w, q, b);
        assert(decoded_chunk(points, hints, k - 1, c, w, q, b) == Some(
            bytes.subrange((k - 1) * c, (k - 1 + 1) * c),
        ));
        assert(0 <= (k - 1) * c <= k * c <= c * n) by (nonlinear_arith)
            requires
                1 <= k <= n,
                c > 0,
        ;
        assert(bytes.subrange(0, (k - 1) * c) + bytes.subrange((k - 1) * c, k * c)
            =~= bytes.subrange(0, k * c));
    }
}

/// The hints of a bundle are valid, and packing loses none of them.
pub proof fn lemma_bundle_hints(bytes: Seq<u8>, masks: Seq<nat>, n: int, c: int, q: nat, b: nat)
    requires
        q > 0,
        n >= 0,
        n % 4 == 0,
        bundle_defined(bytes, masks, n, c, q, b),
    ensures
        hints_valid(data_hints(bytes, masks, n, c, q, b)),
        unpack_hints(pack_hints(data_hints(bytes, masks, n, c, q, b))) == data_hints(
            bytes,
            masks,
            n,
            c,
            q,
            b,
        ),
        data_hints(bytes, masks, n, c, q, b).len() == n,
{
    let hints = data_hints(bytes, masks, n, c, q, b);
    assert forall|i: int| 0 <= i < n implies 1 <= #[trigger] hints[i] <= 4 by {
        assert(data_image(bytes, masks, i, c, q, b) is Some);
        lemma_encode_on_curve(chunk_value(bytes, i, c, q), masks[2 * i], masks[2 * i + 1], q, b);
    }
    lemma_unpack_pack(hints);
}

/// Every point of a bundle lies on the curve.
pub proof fn lemma_bundle_on_curve(
    bytes: Seq<u8>,
    masks: Seq<nat>,
    i: int,
    n: int,
    c: int,
    q: nat,
    b: nat,
)
    requires
        q > 0,
        0 <= i <= n,
        bundle_defined(bytes, masks, n, c, q, b),
    ensures
        on_curve(
            bundle_model(bytes, masks, n, c, q, b)[i].0,
            bundle_model(bytes, masks, n, c, q, b)[i].1,
            q,
            b,
        ),
{
    if i < n {
        assert(data_image(bytes, masks, i, c, q, b) is Some);
        lemma_encode_on_curve(chunk_value(bytes, i, c, q), masks[2 * i], masks[2 * i + 1], q, b);
    } else {
        lemma_encode_on_curve(
            tag_value(bytes, masks, n, c, q, b),
            masks[2 * n],
            masks[2 * n + 1],
            q,
            b,
        );
    }
}

/// The spelling of the tag value starts with the packed hints and carries
/// their tag behind them.
pub proof fn lemma_tag_matches(hints: Seq<u8>, n: int, c: int, w: nat, q: nat)
    requires
        layout_fits(n, c, w, q),
        hints.len() == n,
    ensures
        le_value(tag_buffer(hints)) < q,
        tag_matches(le_value(tag_buffer(hints)) % q, c, w),
        canonical_bytes(le_value(tag_buffer(hints)) % q, w).subrange(0, c - 10) == pack_hints(
            hints,
        ),
{
    let packed = pack_hints(hints);
    let buffer = tag_buffer(hints);
    assert(buffer.len() == c);
    lemma_chunk(buffer, c, w, q);
    let spelled = canonical_bytes(le_value(buffer), w);
    assert(spelled.subrange(0, c - 10) =~= packed) by {
        assert(spelled.subrange(0, c).subrange(0, c - 10) =~= spelled.subrange(0, c - 10));
        assert(buffer.subrange(0, c - 10) =~= packed);
    }
    assert(spelled.subrange(c - 10, c) =~= tag_of(packed)) by {
        assert(spelled.subrange(0, c).subrange(c - 10, c) =~= spelled.subrange(c - 10, c));
        assert(buffer.subrange(c - 10, c) =~= tag_of(packed));
    }
}

/// The candidates of the image of a regular value hold the value; where its
/// tag matches and no other candidate's does, it is the adopted one.
pub proof fn lemma_tag_point(v: nat, r1: nat, r2: nat, c: int, w: nat, q: nat, b: nat)
    requires
        curve_valid(q, b),
        v < q,
        encode_model(v, r1, r2, q, b) is Some,
        regular(v, r1, r2, q, b),
        tag_matches(v, c, w),
    ensures
        ({
            let image = encode_model(v, r1, r2, q, b)->Some_0;
            let slots = candidate_slots(image.0, image.1, q, b);
            &&& match_count(slots, 4, c, w) >= 1
            &&& match_count(slots, 4, c, w) == 1 ==> adopted(slots, 4, c, w) == v
        }),
{
    let image = encode_model(v, r1, r2, q, b)->Some_0;
    let slots = candidate_slots(image.0, image.1, q, b);
    lemma_exhaustive_decode(v, r1, r2, q, b);
    lemma_encode_on_curve(v, r1, r2, q, b);
    let j = image.2 - 1;
    assert(slots[j] == decode_slot_model(j, image.0, image.1, q, b));
    assert(slot_matches(slots, j, c, w));
    lemma_adopted(slots, 4, j, c, w);
}

/// Data point `i` of a bundle decodes, under the hint of its chunk, to the
/// chunk.
pub proof fn lemma_data_point(
    bytes: Seq<u8>,
    masks: Seq<nat>,
    i: int,
    n: int,
    c: int,
    w: nat,
    q: nat,
    b: nat,
)
    requires
        curve_valid(q, b),
        layout_fits(n, c, w, q),
        bytes.len() == c * n,
        0 <= i < n,
        data_image(bytes, masks, i, c, q, b) is Some,
        regular(chunk_value(bytes, i, c, q), masks[2 * i], masks[2 * i + 1], q, b),
    ensures
        decoded_chunk(
            bundle_model(bytes, masks, n, c, q, b),
            data_hints(bytes, masks, n, c, q, b),
            i,
            c,
            w,
            q,
            b,
        ) == Some(bytes.subrange(i * c, (i + 1) * c)),
{
    let chunk = bytes.subrange(i * c, (i + 1) * c);
    assert(0 <= i * c <= (i + 1) * c <= c * n) by (nonlinear_arith)
        requires
            0 <= i < n,
            c > 0,
    ;
    assert((i + 1) * c == i * c + c) by (nonlinear_arith);
    lemma_chunk(chunk, c, w, q);
    lemma_hint_round_trip(chunk_value(bytes, i, c, q), masks[2 * i], masks[2 * i + 1], q, b);
}

/// A bundle decodes to its payload: what the packer makes of `bytes`
/// decodes to `bytes`, unless a second candidate of the tag point carries a
/// matching tag too.
pub proof fn lemma_bundle_round_trip(
    bytes: Seq<u8>,
    masks: Seq<nat>,
    n: int,
    c: int,
    w: nat,
    q: nat,
    b: nat,
)
    requires
        curve_valid(q, b),
        layout_fits(n, c, w, q),
        bytes.len() == c * n,
        masks.len() == 2 * (n + 1),
        bundle_defined(bytes, masks, n, c, q, b),
        bundle_regular(bytes, masks, n, c, q, b),
    ensures
        ({
            let decoded = unbundle_model(bundle_model(bytes, masks, n, c, q, b), n, c, w, q, b);
            decoded == Ok::<Seq<u8>, EncodingError>(bytes) || decoded == Err::<
                Seq<u8>,
                EncodingError,
            >(EncodingError::Ambiguity)
        }),
{
    let points = bundle_model(bytes, masks, n, c, q, b);
    let hints = data_hints(bytes, masks, n, c, q, b);
    let value = tag_value(bytes, masks, n, c, q, b);
    let slots = candidate_slots(points[n].0, points[n].1, q, b);
    lemma_bundle_hints(bytes, masks, n, c, q, b);
    lemma_tag_matches(hints, n, c, w, q);
    lemma_small_mod(le_value(tag_buffer(hints)), q);
    lemma_tag_point(value, masks[2 * n], masks[2 * n + 1], c, w, q, b);
    if match_count(slots, 4, c, w) == 1 {
        assert forall|i: int| 0 <= i < n implies #[trigger] decoded_chunk(
            points,
            hints,
            i,
            c,
            w,
            q,
            b,
        ) == Some(bytes.subrange(i * c, (i + 1) * c)) by {
            assert(data_image(bytes, masks, i, c, q, b) is Some);
            assert(regular(chunk_value(bytes, i, c, q), masks[2 * i], masks[2 * i + 1], q, b));
            lemma_data_point(bytes, masks, i, n, c, w, q, b);
        }
        lemma_decoded_payload(bytes, points, hints, n, n, c, w, q, b);
        assert(bytes.subrange(0, n * c) =~= bytes) by {
            assert(n * c == c * n) by (nonlinear_arith);
        }
    }
}

impl<P: BnParameters> HybridEncoder<P> {
    /// Over a prime modulus, the bundle of a payload decodes to the payload,
    /// unless a second candidate of the tag point carries a matching tag
    /// too.
    pub proof fn lemma_round_trip(&self, bytes: Seq<u8>, masks: Seq<nat>)
        requires
            self.wf(),
            is_prime(self.modulus()),
            bytes.len() == self.num_bytes_per_point * self.num_data_points,
            masks.len() == 2 * (self.num_data_points + 1),
            bundle_defined(
                bytes,
                masks,
                self.num_data_points as int,
                self.num_bytes_per_point as int,
                self.encoder.q@,
                self.encoder.b@,
            ),
            bundle_regular(
                bytes,
                masks,
                self.num_data_points as int,
                self.num_bytes_per_point as int,
                self.encoder.q@,
                self.encoder.b@,
            ),
        ensures
            ({
                let (n, c) = (self.num_data_points as int, self.num_bytes_per_point as int);
                let (q, b) = (self.encoder.q@, self.encoder.b@);
                let decoded = unbundle_model(
                    bundle_model(bytes, masks, n, c, q, b),
                    n,
                    c,
                    self.field_width(),
                    q,
                    b,
                );
                decoded == Ok::<Seq<u8>, EncodingError>(bytes) || decoded == Err::<
                    Seq<u8>,
                    EncodingError,
                >(EncodingError::Ambiguity)
            }),
    {
        self.lemma_chunk_fits();
        self.encoder.lemma_curve_valid();
        lemma_bundle_round_trip(
            bytes,
            masks,
            self.num_data_points as int,
            self.num_bytes_per_point as int,
            self.field_width(),
            self.encoder.q@,
            self.encoder.b@,
        );
    }
}

} // verus!
