//! The hybrid packer: a payload is cut into chunks, each chunk is mapped to a
//! curve point, and one more point carries the decode hints of all chunks
//! together with an 80-bit tag over them.

use vstd::arithmetic::power::{lemma_pow_increases, lemma_pow_multiplies, pow};
use vstd::prelude::*;
use vstd::slice::slice_subrange;

use crate::bn::BnParameters;
use crate::field::Fq;
use crate::le_bytes::{canonical_bytes, le_value, lemma_le_value_bound, same_bytes};
use crate::message_encoding::tag::{blake2s_tag, tag_of};
use crate::message_encoding::{DecodeHint, Encoder, EncodingError, G1Affine, model, option_value};

verus! {

/// The length of the tag in bits.
pub const HASH_LEN: usize = 80;

/// The byte that four hints share: hint `k` of the four gives bits `2k` and
/// `2k + 1`, as the number `hint - 1`.
pub open spec fn pack_byte(h0: u8, h1: u8, h2: u8, h3: u8) -> u8 {
    ((h0 - 1) + 4 * (h1 - 1) + 16 * (h2 - 1) + 64 * (h3 - 1)) as u8
}

/// The hints packed four to a byte.
pub open spec fn pack_hints(hints: Seq<u8>) -> Seq<u8> {
    Seq::new(
        hints.len() / 4,
        |j: int| pack_byte(hints[4 * j], hints[4 * j + 1], hints[4 * j + 2], hints[4 * j + 3]),
    )
}

/// Hint `i` of a packed string.
pub open spec fn unpack_hint(bytes: Seq<u8>, i: int) -> u8 {
    let byte = bytes[i / 4];
    let k = i % 4;
    if k == 0 {
        (byte % 4 + 1) as u8
    } else if k == 1 {
        ((byte / 4) % 4 + 1) as u8
    } else if k == 2 {
        ((byte / 16) % 4 + 1) as u8
    } else {
        (byte / 64 + 1) as u8
    }
}

/// The hints that a packed string holds, four to a byte.
pub open spec fn unpack_hints(bytes: Seq<u8>) -> Seq<u8> {
    Seq::new(4 * bytes.len(), |i: int| unpack_hint(bytes, i))
}

/// Whether every hint is one of 1, 2, 3 and 4.
pub open spec fn hints_valid(hints: Seq<u8>) -> bool {
    forall|i: int| 0 <= i < hints.len() ==> 1 <= #[trigger] hints[i] <= 4
}

/// Unpacking what was packed gives the hints back.
pub proof fn lemma_unpack_pack(hints: Seq<u8>)
    requires
        hints_valid(hints),
        hints.len() % 4 == 0,
    ensures
        unpack_hints(pack_hints(hints)) == hints,
{
    let packed = pack_hints(hints);
    let back = unpack_hints(packed);
    assert(back.len() == hints.len());
    assert forall|i: int| 0 <= i < hints.len() implies back[i] == hints[i] by {
        let j = i / 4;
        assert(1 <= hints[4 * j] <= 4);
        assert(1 <= hints[4 * j + 1] <= 4);
        assert(1 <= hints[4 * j + 2] <= 4);
        assert(1 <= hints[4 * j + 3] <= 4);
    }
    assert(back =~= hints);
}

/// The hints of `hints` packed four to a byte: hint `i` gives bits `2 i` and
/// `2 i + 1` of the string, least significant bit first, as the number
/// `hint - 1`.
pub fn pack(hints: &Vec<DecodeHint>) -> (r: Vec<u8>)
    requires
        hints_valid(hints@),
        hints@.len() % 4 == 0,
    ensures
        r@ == pack_hints(hints@),
{
    let mut r: Vec<u8> = Vec::new();
    let len: usize = hints.len();
    let count: usize = len / 4;
    let mut j: usize = 0;
    while j < count
        invariant
            j <= count,
            len == hints@.len(),
            count == hints@.len() / 4,
            hints@.len() % 4 == 0,
            hints_valid(hints@),
            r@.len() == j,
            forall|k: int| 0 <= k < j ==> r@[k] == #[trigger] pack_hints(hints@)[k],
        decreases count - j,
    {
        let h0: u8 = hints[4 * j];
        let h1: u8 = hints[4 * j + 1];
        let h2: u8 = hints[4 * j + 2];
        let h3: u8 = hints[4 * j + 3];
        r.push((h0 - 1) + 4 * (h1 - 1) + 16 * (h2 - 1) + 64 * (h3 - 1));
        j = j + 1;
    }
    assert(r@ =~= pack_hints(hints@));
    r
}

/// The hints that `bytes` holds, four to a byte.
pub fn unpack(bytes: &Vec<u8>) -> (r: Vec<DecodeHint>)
    requires
        4 * bytes@.len() <= usize::MAX,
    ensures
        r@ == unpack_hints(bytes@),
{
    let mut r: Vec<u8> = Vec::new();
    let mut j: usize = 0;
    while j < bytes.len()
        invariant
            j <= bytes@.len(),
            r@.len() == 4 * j,
            forall|k: int| 0 <= k < 4 * j ==> r@[k] == #[trigger] unpack_hint(bytes@, k),
        decreases bytes@.len() - j,
    {
        let num: u8 = bytes[j];
        r.push(num % 4 + 1);
        r.push((num / 4) % 4 + 1);
        r.push((num / 16) % 4 + 1);
        r.push(num / 64 + 1);
        j = j + 1;
    }
    assert(r@ =~= unpack_hints(bytes@));
    r
}

/// The bytes per point that a modulus of `bits` bits leaves: `(bits - 1) / 8`.
pub open spec fn bytes_per_point(bits: nat) -> int {
    (bits - 1) / 8
}

/// The data points of a bundle: two hint bits for each must fit beside the
/// tag in one more point.
pub open spec fn data_points(bits: nat) -> int {
    (bytes_per_point(bits) * 8 - HASH_LEN) / 2
}

/// Whether a modulus of `bits` bits leaves room for the tag and the payload
/// length fits the machine.
pub open spec fn layout_valid(bits: nat) -> bool {
    &&& bits >= 1
    &&& bytes_per_point(bits) > 10
    &&& bytes_per_point(bits) * data_points(bits) <= usize::MAX
}

/// The numbers that the elements of `s` hold.
pub open spec fn values_of(s: Seq<Fq>) -> Seq<nat> {
    Seq::new(s.len(), |i: int| s[i]@)
}

/// The coordinates of the points of `s`.
pub open spec fn coordinates_of(s: Seq<G1Affine>) -> Seq<(nat, nat)> {
    Seq::new(s.len(), |i: int| (s[i].x@, s[i].y@))
}

/// Chunk `i` of the payload, read as a number and reduced modulo `q`.
pub open spec fn chunk_value(bytes: Seq<u8>, i: int, c: int, q: nat) -> nat {
    le_value(bytes.subrange(i * c, (i + 1) * c)) % q
}

/// The image of chunk `i` under the point map, masked by the pair of masks
/// at `2 i`.
pub open spec fn data_image(bytes: Seq<u8>, masks: Seq<nat>, i: int, c: int, q: nat, b: nat)
    -> Option<(nat, nat, u8)> {
    model::encode_model(chunk_value(bytes, i, c, q), masks[2 * i], masks[2 * i + 1], q, b)
}

/// The hints of the `n` chunks.
pub open spec fn data_hints(bytes: Seq<u8>, masks: Seq<nat>, n: int, c: int, q: nat, b: nat)
    -> Seq<u8> {
    Seq::new(n as nat, |i: int| data_image(bytes, masks, i, c, q, b)->Some_0.2)
}

/// The packed hints followed by their tag.
pub open spec fn tag_buffer(hints: Seq<u8>) -> Seq<u8> {
    pack_hints(hints) + tag_of(pack_hints(hints))
}

/// The image of the tag buffer under the point map, masked by the last pair
/// of masks.
pub open spec fn tag_image(bytes: Seq<u8>, masks: Seq<nat>, n: int, c: int, q: nat, b: nat)
    -> Option<(nat, nat, u8)> {
    model::encode_model(
        le_value(tag_buffer(data_hints(bytes, masks, n, c, q, b))) % q,
        masks[2 * n],
        masks[2 * n + 1],
        q,
        b,
    )
}

/// Whether every chunk and the tag buffer have an image.
pub open spec fn bundle_defined(bytes: Seq<u8>, masks: Seq<nat>, n: int, c: int, q: nat, b: nat)
    -> bool {
    &&& forall|i: int| 0 <= i < n ==> (#[trigger] data_image(bytes, masks, i, c, q, b)) is Some
    &&& tag_image(bytes, masks, n, c, q, b) is Some
}

/// The bundle of a payload: the images of the `n` chunks, then that of the
/// tag buffer.
pub open spec fn bundle_model(bytes: Seq<u8>, masks: Seq<nat>, n: int, c: int, q: nat, b: nat)
    -> Seq<(nat, nat)> {
    Seq::new(
        (n + 1) as nat,
        |i: int|
            if i < n {
                (
                    data_image(bytes, masks, i, c, q, b)->Some_0.0,
                    data_image(bytes, masks, i, c, q, b)->Some_0.1,
                )
            } else {
                (
                    tag_image(bytes, masks, n, c, q, b)->Some_0.0,
                    tag_image(bytes, masks, n, c, q, b)->Some_0.1,
                )
            },
    )
}

/// Whether the `w`-byte spelling of `v` ends, at byte `c`, in the tag of its
/// first `c - 10` bytes.
pub open spec fn tag_matches(v: nat, c: int, w: nat) -> bool {
    let s = canonical_bytes(v, w);
    tag_of(s.subrange(0, c - 10)) == s.subrange(c - 10, c)
}

/// Whether slot `i` holds a candidate whose tag matches.
pub open spec fn slot_matches(slots: Seq<Option<nat>>, i: int, c: int, w: nat) -> bool {
    slots[i] is Some && tag_matches(slots[i]->Some_0, c, w)
}

/// How many of the first `k` slots hold a candidate whose tag matches.
pub open spec fn match_count(slots: Seq<Option<nat>>, k: int, c: int, w: nat) -> nat
    decreases k,
{
    if k <= 0 {
        0
    } else {
        match_count(slots, k - 1, c, w) + (if slot_matches(slots, k - 1, c, w) {
            1nat
        } else {
            0nat
        })
    }
}

/// The last of the first `k` slots' candidates whose tag matches.
pub open spec fn adopted(slots: Seq<Option<nat>>, k: int, c: int, w: nat) -> nat
    decreases k,
{
    if k <= 0 {
        0
    } else if slot_matches(slots, k - 1, c, w) {
        slots[k - 1]->Some_0
    } else {
        adopted(slots, k - 1, c, w)
    }
}

/// The four candidates of the point `(x, y)`.
pub open spec fn candidate_slots(x: nat, y: nat, q: nat, b: nat) -> Seq<Option<nat>> {
    Seq::new(4, |i: int| model::decode_slot_model(i, x, y, q, b))
}

/// The chunk that point `i` decodes to under its hint.
pub open spec fn decoded_chunk(
    points: Seq<(nat, nat)>,
    hints: Seq<u8>,
    i: int,
    c: int,
    w: nat,
    q: nat,
    b: nat,
) -> Option<Seq<u8>> {
    match model::decode_hinted_model(points[i].0, points[i].1, hints[i], q, b) {
        Some(v) => Some(canonical_bytes(v, w).subrange(0, c)),
        None => None,
    }
}

/// The first `k` decoded chunks, one after the other.
pub open spec fn decoded_payload(
    points: Seq<(nat, nat)>,
    hints: Seq<u8>,
    k: int,
    c: int,
    w: nat,
    q: nat,
    b: nat,
) -> Seq<u8>
    decreases k,
{
    if k <= 0 {
        Seq::empty()
    } else {
        decoded_payload(points, hints, k - 1, c, w, q, b) + decoded_chunk(
            points,
            hints,
            k - 1,
            c,
            w,
            q,
            b,
        )->Some_0
    }
}

/// What a bundle decodes to: the hints are those of the one candidate of the
/// last point whose tag matches, and each data point gives one chunk.
pub open spec fn unbundle_model(points: Seq<(nat, nat)>, n: int, c: int, w: nat, q: nat, b: nat)
    -> Result<Seq<u8>, EncodingError> {
    let slots = candidate_slots(points[n].0, points[n].1, q, b);
    let hints = unpack_hints(canonical_bytes(adopted(slots, 4, c, w), w).subrange(0, c - 10));
    if points.len() != n + 1 {
        Err(EncodingError::Length)
    } else if match_count(slots, 4, c, w) == 0 {
        Err(EncodingError::Integrity)
    } else if match_count(slots, 4, c, w) > 1 {
        Err(EncodingError::Ambiguity)
    } else if exists|i: int| 0 <= i < n && (#[trigger] decoded_chunk(points, hints, i, c, w, q, b))
        is None {
        Err(EncodingError::Integrity)
    } else {
        Ok(decoded_payload(points, hints, n, c, w, q, b))
    }
}

/// The bytes per point and the data points of a bundle for a modulus of
/// `bits` bits, or `None` where that leaves no room for the tag or the
/// payload length does not fit the machine.
pub fn layout(bits: u32) -> (r: Option<(usize, usize)>)
    ensures
        r is Some <==> layout_valid(bits as nat),
        r is Some ==> r->Some_0.0 == bytes_per_point(bits as nat) && r->Some_0.1 == data_points(
            bits as nat,
        ),
{
    if bits < 1 {
        return None;
    }
    let capacity: u32 = bits - 1;
    let num_bytes_per_point: u32 = capacity >> 3;
    assert(capacity >> 3 == capacity / 8) by (bit_vector);
    if num_bytes_per_point <= 10 {
        return None;
    }
    let num_points: u32 = (num_bytes_per_point * 8 - HASH_LEN as u32) / 2;
    assert(num_bytes_per_point * num_points <= 0x2000_0000 * 0x1_0000_0000) by (nonlinear_arith)
        requires
            0 <= num_bytes_per_point <= 0x2000_0000,
            0 <= num_points <= 0x1_0000_0000,
    ;
    let total: u64 = num_bytes_per_point as u64 * num_points as u64;
    if total > usize::MAX as u64 {
        return None;
    }
    assert(num_bytes_per_point as int * num_points as int <= usize::MAX);
    Some((num_bytes_per_point as usize, num_points as usize))
}

/// The packer for the curve `P`.
pub struct HybridEncoder<P: BnParameters> {
    /// The payload bytes that one point carries.
    pub num_bytes_per_point: usize,
    /// The data points of a bundle.
    pub num_data_points: usize,
    pub encoder: Encoder<P>,
}

impl<P: BnParameters> HybridEncoder<P> {
    /// Whether the layout is the one that the curve's modulus gives.
    pub open spec fn wf(&self) -> bool {
        &&& self.encoder.wf()
        &&& layout_valid(P::spec_modulus_bits())
        &&& self.num_bytes_per_point == bytes_per_point(P::spec_modulus_bits())
        &&& self.num_data_points == data_points(P::spec_modulus_bits())
    }

    /// The packer of the curve `P`, or `Config` where the curve does not admit
    /// the map or its modulus leaves no room for the tag.
    pub fn new() -> (r: Result<Self, EncodingError>)
        ensures
            r is Ok <==> model::config_valid(P::spec_modulus()) && layout_valid(
                P::spec_modulus_bits(),
            ),
            r is Ok ==> r->Ok_0.wf(),
            r is Err ==> r->Err_0 == EncodingError::Config,
    {
        let (num_bytes_per_point, num_data_points) = match layout(P::modulus_bits()) {
            Some(pair) => pair,
            None => {
                return Err(EncodingError::Config);
            },
        };
        let encoder = match Encoder::<P>::new() {
            Ok(e) => e,
            Err(_) => {
                return Err(EncodingError::Config);
            },
        };
        Ok(HybridEncoder { num_bytes_per_point, num_data_points, encoder })
    }

    /// The modulus `q` of the base field.
    pub open spec fn modulus(&self) -> nat {
        self.encoder.q@
    }

    /// The bytes that a field element is spelled in.
    pub open spec fn field_width(&self) -> nat {
        self.encoder.q.bytes@.len()
    }

    /// A chunk is below the modulus, and shorter than a field element.
    pub proof fn lemma_chunk_fits(&self)
        requires
            self.wf(),
        ensures
            pow(256, self.num_bytes_per_point as nat) <= self.modulus(),
            self.modulus() < pow(256, self.field_width()),
            self.num_bytes_per_point < self.field_width(),
            self.num_data_points == 4 * (self.num_bytes_per_point - 10),
    {
        let c = self.num_bytes_per_point as nat;
        let bits = P::spec_modulus_bits();
        P::lemma_modulus_bits();
        assert(pow(2, 8) == 256) by {
            reveal_with_fuel(pow, 9);
        }
        lemma_pow_multiplies(2, 8, c);
        lemma_pow_increases(2, 8 * c, (bits - 1) as nat);
        lemma_le_value_bound(self.encoder.q.bytes@);
        if c >= self.field_width() {
            lemma_pow_increases(256, self.field_width(), c);
        }
    }

    /// The payload bytes of one bundle.
    pub fn get_capacity(&self) -> (r: usize)
        requires
            self.wf(),
        ensures
            r == self.num_bytes_per_point * self.num_data_points,
    {
        self.num_bytes_per_point * self.num_data_points
    }

    /// The image and hint of chunk `i` of the payload.
    fn encode_chunk(&self, bytes: &[u8], masks: &[Fq], i: usize) -> (r: Result<
        (G1Affine, DecodeHint),
        EncodingError,
    >)
        requires
            self.wf(),
            i < self.num_data_points,
            bytes@.len() == self.num_bytes_per_point * self.num_data_points,
            masks@.len() == 2 * (self.num_data_points + 1),
        ensures
            ({
                let image = data_image(
                    bytes@,
                    values_of(masks@),
                    i as int,
                    self.num_bytes_per_point as int,
                    self.encoder.q@,
                    self.encoder.b@,
                );
                match image {
                    Some((x, y, h)) => r is Ok && r->Ok_0.0.x@ == x && r->Ok_0.0.y@ == y
                        && !r->Ok_0.0.infinity && r->Ok_0.1 == h && 1 <= h <= 4 && model::on_curve(
                        x,
                        y,
                        self.encoder.q@,
                        self.encoder.b@,
                    ),
                    None => r is Err,
                }
            }),
    {
        let n: usize = self.num_data_points;
        let c: usize = self.num_bytes_per_point;
        proof {
            assert((i + 1) * c <= c * n) by (nonlinear_arith)
                requires
                    i + 1 <= n,
                    c >= 0,
            ;
            assert(i * c <= (i + 1) * c) by (nonlinear_arith)
                requires
                    c >= 0,
                    i >= 0,
            ;
        }
        let chunk = slice_subrange(bytes, i * c, (i + 1) * c);
        let value = Fq::from_le_bytes_mod_order(chunk, &self.encoder.q);
        let total: usize = masks.len();
        assert(2 * i + 1 < total);
        self.encoder.encode(&value, &masks[2 * i], &masks[2 * i + 1])
    }

    /// The bundle of `bytes`: one point for each chunk, then one for the
    /// packed hints and their tag. Point `i` is masked by `masks[2 i]` and
    /// `masks[2 i + 1]`. `Length` where the payload is not `get_capacity()`
    /// bytes or the masks are not two for each point; `Domain` where a chunk
    /// or the tag buffer has no image.
    pub fn encode(&self, bytes: &[u8], masks: &[Fq]) -> (r: Result<Vec<G1Affine>, EncodingError>)
        requires
            self.wf(),
        ensures
            ({
                let n = self.num_data_points as int;
                let c = self.num_bytes_per_point as int;
                let (q, b) = (self.encoder.q@, self.encoder.b@);
                let m = values_of(masks@);
                if bytes@.len() != c * n || masks@.len() != 2 * (n + 1) {
                    r is Err && r->Err_0 == EncodingError::Length
                } else if !bundle_defined(bytes@, m, n, c, q, b) {
                    r is Err && r->Err_0 == EncodingError::Domain
                } else {
                    &&& r is Ok
                    &&& coordinates_of(r->Ok_0@) == bundle_model(bytes@, m, n, c, q, b)
                    &&& forall|i: int|
                        0 <= i <= n ==> {
                            let point = #[trigger] r->Ok_0@[i];
                            !point.infinity && model::on_curve(point.x@, point.y@, q, b)
                        }
                }
            }),
    {
        let n: usize = self.num_data_points;
        let c: usize = self.num_bytes_per_point;
        let ghost q = self.encoder.q@;
        let ghost b = self.encoder.b@;
        let ghost m = values_of(masks@);
        proof {
            self.lemma_chunk_fits();
        }
        if bytes.len() != self.get_capacity() {
            return Err(EncodingError::Length);
        }
        if masks.len() / 2 != n + 1 || masks.len() % 2 != 0 {
            return Err(EncodingError::Length);
        }
        let total: usize = masks.len();
        assert(total == 2 * (n + 1));
        let mut points: Vec<G1Affine> = Vec::new();
        let mut hints: Vec<DecodeHint> = Vec::new();
        let mut i: usize = 0;
        while i < n
            invariant
                i <= n,
                self.wf(),
                n == self.num_data_points,
                c == self.num_bytes_per_point,
                q == self.encoder.q@,
                b == self.encoder.b@,
                m == values_of(masks@),
                bytes@.len() == c * n,
                masks@.len() == 2 * (n + 1),
                points@.len() == i,
                hints@.len() == i,
                hints_valid(hints@),
                forall|j: int|
                    0 <= j < i ==> {
                        let image = #[trigger] data_image(bytes@, m, j, c as int, q, b);
                        &&& image is Some
                        &&& points@[j].x@ == image->Some_0.0
                        &&& points@[j].y@ == image->Some_0.1
                        &&& !points@[j].infinity
                        &&& model::on_curve(points@[j].x@, points@[j].y@, q, b)
                        &&& hints@[j] == image->Some_0.2
                    },
            decreases n - i,
        {
            match self.encode_chunk(bytes, masks, i) {
                Ok((point, hint)) => {
                    points.push(point);
                    hints.push(hint);
                },
                Err(_) => {
                    assert(data_image(bytes@, m, i as int, c as int, q, b) is None);
                    return Err(EncodingError::Domain);
                },
            }
            i = i + 1;
        }
        assert(hints@ =~= data_hints(bytes@, m, n as int, c as int, q, b));
        let mut buffer = pack(&hints);
        let mut tag = blake2s_tag(buffer.as_slice());
        buffer.append(&mut tag);
        assert(buffer@ =~= tag_buffer(hints@));
        let value = Fq::from_le_bytes_mod_order(buffer.as_slice(), &self.encoder.q);
        assert(m[2 * n] == masks@[2 * n]@ && m[2 * n + 1] == masks@[2 * n + 1]@);
        let ghost image = tag_image(bytes@, m, n as int, c as int, q, b);
        assert(image == model::encode_model(value@, m[2 * n], m[2 * n + 1], q, b));
        match self.encoder.encode(&value, &masks[2 * n], &masks[2 * n + 1]) {
            Ok((point, _)) => {
                points.push(point);
            },
            Err(_) => {
                assert(image is None);
                return Err(EncodingError::Domain);
            },
        }
        assert(image is Some);
        assert(bundle_defined(bytes@, m, n as int, c as int, q, b));
        assert(coordinates_of(points@) =~= bundle_model(bytes@, m, n as int, c as int, q, b));
        assert forall|i: int| 0 <= i <= n implies {
            let point = #[trigger] points@[i];
            !point.infinity && model::on_curve(point.x@, point.y@, q, b)
        } by {
            if i < n {
                assert(data_image(bytes@, m, i, c as int, q, b) is Some);
            }
        }
        Ok(points)
    }

    /// Whether the spelling of `element` ends in the tag of its hint bytes,
    /// and those hint bytes.
    fn check_tag(&self, element: &Fq) -> (r: (bool, Vec<u8>))
        requires
            self.wf(),
            element@ < self.encoder.q@,
        ensures
            r.0 == tag_matches(element@, self.num_bytes_per_point as int, self.field_width()),
            r.1@ == canonical_bytes(element@, self.field_width()).subrange(
                0,
                self.num_bytes_per_point - 10,
            ),
            r.1@.len() == self.num_bytes_per_point - 10,
    {
        proof {
            self.lemma_chunk_fits();
        }
        let c: usize = self.num_bytes_per_point;
        let spelled = element.to_le_bytes(self.encoder.q.bytes.len());
        let values = slice_subrange(spelled.as_slice(), 0, c - 10);
        let hashed = slice_subrange(spelled.as_slice(), c - 10, c);
        let tag = blake2s_tag(values);
        (same_bytes(tag.as_slice(), hashed), vstd::slice::slice_to_vec(values))
    }

    /// The hint bytes of the one candidate of `last` whose tag matches.
    fn find_hints(&self, last: &G1Affine) -> (r: Result<Vec<u8>, EncodingError>)
        requires
            self.wf(),
        ensures
            ({
                let c = self.num_bytes_per_point as int;
                let w = self.field_width();
                let slots = candidate_slots(last.x@, last.y@, self.encoder.q@, self.encoder.b@);
                let count = match_count(slots, 4, c, w);
                if count == 0 {
                    r is Err && r->Err_0 == EncodingError::Integrity
                } else if count > 1 {
                    r is Err && r->Err_0 == EncodingError::Ambiguity
                } else {
                    r is Ok && r->Ok_0@ == canonical_bytes(adopted(slots, 4, c, w), w).subrange(
                        0,
                        c - 10,
                    ) && r->Ok_0@.len() == c - 10
                }
            }),
    {
        let candidates = self.encoder.decode_without_hints(last);
        let ghost c = self.num_bytes_per_point as int;
        let ghost w = self.field_width();
        let ghost slots = candidate_slots(last.x@, last.y@, self.encoder.q@, self.encoder.b@);
        let mut count: usize = 0;
        let mut hints_raw: Vec<u8> = Vec::new();
        let mut k: usize = 0;
        while k < 4
            invariant
                k <= 4,
                self.wf(),
                c == self.num_bytes_per_point,
                w == self.field_width(),
                forall|i: int| 0 <= i < 4 ==> option_value(#[trigger] candidates@[i]) == slots[i],
                forall|i: int|
                    0 <= i < 4 && (#[trigger] candidates@[i]) is Some ==> candidates@[i]->Some_0@
                        < self.encoder.q@,
                count == match_count(slots, k as int, c, w),
                count <= k,
                count > 0 ==> hints_raw@ == canonical_bytes(adopted(slots, k as int, c, w), w)
                    .subrange(0, c - 10),
                count > 0 ==> hints_raw@.len() == c - 10,
            decreases 4 - k,
        {
            assert(option_value(candidates@[k as int]) == slots[k as int]);
            match &candidates[k] {
                Some(element) => {
                    let (matches, values) = self.check_tag(element);
                    if matches {
                        count = count + 1;
                        hints_raw = values;
                    }
                },
                None => {},
            }
            k = k + 1;
        }
        if count == 0 {
            Err(EncodingError::Integrity)
        } else if count > 1 {
            Err(EncodingError::Ambiguity)
        } else {
            Ok(hints_raw)
        }
    }

    /// The chunk that `point` decodes to under `hint`.
    fn decode_chunk(&self, point: &G1Affine, hint: DecodeHint) -> (r: Option<Vec<u8>>)
        requires
            self.wf(),
        ensures
            match model::decode_hinted_model(
                point.x@,
                point.y@,
                hint,
                self.encoder.q@,
                self.encoder.b@,
            ) {
                Some(v) => r is Some && r->Some_0@ == canonical_bytes(v, self.field_width())
                    .subrange(0, self.num_bytes_per_point as int),
                None => r is None,
            },
    {
        proof {
            self.lemma_chunk_fits();
        }
        match self.encoder.decode_with_hints(point, hint) {
            Some(value) => {
                let spelled = value.to_le_bytes(self.encoder.q.bytes.len());
                let chunk = slice_subrange(spelled.as_slice(), 0, self.num_bytes_per_point);
                Some(vstd::slice::slice_to_vec(chunk))
            },
            None => None,
        }
    }

    /// The payload of a bundle. `Length` where the bundle is not one point
    /// more than the data points; `Integrity` where no candidate of the last
    /// point carries a matching tag, or a data point has no preimage under
    /// its hint; `Ambiguity` where more than one candidate carries a
    /// matching tag.
    pub fn decode(&self, points: &[G1Affine]) -> (r: Result<Vec<u8>, EncodingError>)
        requires
            self.wf(),
        ensures
            match unbundle_model(
                coordinates_of(points@),
                self.num_data_points as int,
                self.num_bytes_per_point as int,
                self.field_width(),
                self.encoder.q@,
                self.encoder.b@,
            ) {
                Ok(payload) => r is Ok && r->Ok_0@ == payload,
                Err(e) => r is Err && r->Err_0 == e,
            },
    {
        let n: usize = self.num_data_points;
        let ghost c = self.num_bytes_per_point as int;
        let ghost w = self.field_width();
        let ghost q = self.encoder.q@;
        let ghost b = self.encoder.b@;
        let ghost coords = coordinates_of(points@);
        proof {
            self.lemma_chunk_fits();
        }
        if points.len() != n + 1 {
            return Err(EncodingError::Length);
        }
        let ghost slots = candidate_slots(coords[n as int].0, coords[n as int].1, q, b);
        let hints_raw = match self.find_hints(&points[n]) {
            Ok(raw) => raw,
            Err(e) => {
                return Err(e);
            },
        };
        let hints = unpack(&hints_raw);
        let mut ret: Vec<u8> = Vec::new();
        let mut i: usize = 0;
        while i < n
            invariant
                i <= n,
                self.wf(),
                n == self.num_data_points,
                c == self.num_bytes_per_point,
                w == self.field_width(),
                q == self.encoder.q@,
                b == self.encoder.b@,
                coords == coordinates_of(points@),
                points@.len() == n + 1,
                hints@.len() == n,
                slots == candidate_slots(coords[n as int].0, coords[n as int].1, q, b),
                match_count(slots, 4, c, w) == 1,
                hints@ == unpack_hints(
                    canonical_bytes(adopted(slots, 4, c, w), w).subrange(0, c - 10),
                ),
                forall|j: int|
                    0 <= j < i ==> (#[trigger] decoded_chunk(coords, hints@, j, c, w, q, b))
                        is Some,
                ret@ == decoded_payload(coords, hints@, i as int, c, w, q, b),
            decreases n - i,
        {
            assert(coords[i as int] == (points@[i as int].x@, points@[i as int].y@));
            match self.decode_chunk(&points[i], hints[i]) {
                Some(piece) => {
                    let mut piece = piece;
                    ret.append(&mut piece);
                },
                None => {
                    assert(decoded_chunk(coords, hints@, i as int, c, w, q, b) is None);
                    return Err(EncodingError::Integrity);
                },
            }
            i = i + 1;
        }
        Ok(ret)
    }
}

} // verus!
