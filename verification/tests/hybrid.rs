use ark_std::rand::RngCore;
use blake2::digest::{Update, VariableOutput};
use netherite_algebra::curve_bn254::Parameters as Bn254Parameters;
use netherite_algebra::curve_bn446::Parameters as Bn446Parameters;
use netherite_algebra::field::Fq;
use netherite_algebra::message_encoding::hybrid::{pack, unpack, HybridEncoder};
use netherite_algebra::message_encoding::EncodingError;

const REPETITIONS: u64 = 10;

fn random_masks<R: RngCore>(rng: &mut R, q: &Fq, count: usize) -> Vec<Fq> {
    let mut masks = Vec::new();
    for _ in 0..count {
        let mut buf = [0u8; 64];
        rng.fill_bytes(&mut buf);
        masks.push(Fq::from_le_bytes_mod_order(&buf, q));
    }
    masks
}

fn round_trips(seed_skips: u64, repetitions: u64) {
    let mut rng = ark_std::test_rng();
    // each run continues the one random stream where the run before it stopped
    for _ in 0..seed_skips {
        let encoder = HybridEncoder::<Bn446Parameters>::new().unwrap();
        let mut skipped = vec![0u8; encoder.get_capacity()];
        rng.fill_bytes(&mut skipped[..]);
        let _ = random_masks(&mut rng, &encoder.encoder.q, 2 * (encoder.num_data_points + 1));
    }
    for _ in 0..repetitions {
        let encoder = HybridEncoder::<Bn446Parameters>::new().unwrap();
        let num_bytes = encoder.get_capacity();

        let mut test_bytes = vec![0u8; num_bytes];
        rng.fill_bytes(&mut test_bytes[..]);

        let masks = random_masks(&mut rng, &encoder.encoder.q, 2 * (encoder.num_data_points + 1));
        let points = encoder.encode(&test_bytes, &masks).unwrap();
        let test_bytes_recovered = encoder.decode(&points).unwrap();

        assert_eq!(test_bytes, test_bytes_recovered);
    }
}

// Ten random payloads in all, REPETITIONS of them; they are spread over four
// tests, as one bundle of the 446-bit curve takes seconds to encode and decode.

#[test]
fn hybrid_test_decoding_rand() {
    round_trips(0, 3);
}

#[test]
fn hybrid_test_decoding_rand_second_part() {
    round_trips(3, 3);
}

#[test]
fn hybrid_test_decoding_rand_third_part() {
    round_trips(6, 2);
}

#[test]
fn hybrid_test_decoding_rand_fourth_part() {
    assert_eq!(3 + 3 + 2 + 2, REPETITIONS);
    round_trips(8, 2);
}

#[test]
fn test_layout() {
    let encoder = HybridEncoder::<Bn446Parameters>::new().unwrap();
    assert_eq!(encoder.num_bytes_per_point, 55);
    assert_eq!(encoder.num_data_points, 180);
    assert_eq!(encoder.get_capacity(), 9900);

    let encoder = HybridEncoder::<Bn254Parameters>::new().unwrap();
    assert_eq!(encoder.num_bytes_per_point, 31);
    assert_eq!(encoder.num_data_points, 84);
    assert_eq!(encoder.get_capacity(), 2604);
}

#[test]
fn test_round_trip_bn254() {
    let mut rng = ark_std::test_rng();
    let encoder = HybridEncoder::<Bn254Parameters>::new().unwrap();
    let mut payload = vec![0u8; encoder.get_capacity()];
    rng.fill_bytes(&mut payload[..]);
    let masks = random_masks(&mut rng, &encoder.encoder.q, 2 * (encoder.num_data_points + 1));
    let points = encoder.encode(&payload, &masks).unwrap();
    assert_eq!(points.len(), encoder.num_data_points + 1);
    for point in points.iter() {
        assert!(encoder.encoder.is_on_curve(point));
    }
    assert_eq!(encoder.decode(&points).unwrap(), payload);
}

#[test]
fn test_wrong_lengths() {
    let mut rng = ark_std::test_rng();
    let encoder = HybridEncoder::<Bn254Parameters>::new().unwrap();
    let count = 2 * (encoder.num_data_points + 1);
    let masks = random_masks(&mut rng, &encoder.encoder.q, count);
    let mut payload = vec![0x5au8; encoder.get_capacity()];
    for (i, byte) in payload.iter_mut().enumerate() {
        *byte = (i % 251) as u8 + 1;
    }

    let short = &payload[..payload.len() - 1];
    assert_eq!(encoder.encode(short, &masks).err(), Some(EncodingError::Length));
    assert_eq!(
        encoder.encode(&payload, &masks[..count - 1]).err(),
        Some(EncodingError::Length)
    );

    let points = encoder.encode(&payload, &masks).unwrap();
    assert_eq!(
        encoder.decode(&points[..points.len() - 1]).err(),
        Some(EncodingError::Length)
    );
    assert_eq!(encoder.decode(&[]).err(), Some(EncodingError::Length));
}

#[test]
fn test_a_foreign_tag_point_is_refused() {
    let mut rng = ark_std::test_rng();
    let encoder = HybridEncoder::<Bn254Parameters>::new().unwrap();
    let count = 2 * (encoder.num_data_points + 1);
    let masks = random_masks(&mut rng, &encoder.encoder.q, count);
    let mut payload = vec![0u8; encoder.get_capacity()];
    rng.fill_bytes(&mut payload[..]);
    let mut points = encoder.encode(&payload, &masks).unwrap();

    // the image of an unrelated value in place of the tag point
    let (foreign, _) = encoder
        .encoder
        .encode(&Fq::from_u64(123456789), &masks[0], &masks[1])
        .unwrap();
    let last = points.len() - 1;
    points[last] = foreign;
    assert_eq!(encoder.decode(&points).err(), Some(EncodingError::Integrity));
}

#[test]
fn test_a_swapped_data_point_changes_the_payload() {
    let mut rng = ark_std::test_rng();
    let encoder = HybridEncoder::<Bn254Parameters>::new().unwrap();
    let count = 2 * (encoder.num_data_points + 1);
    let masks = random_masks(&mut rng, &encoder.encoder.q, count);
    let mut payload = vec![0u8; encoder.get_capacity()];
    rng.fill_bytes(&mut payload[..]);
    let points = encoder.encode(&payload, &masks).unwrap();

    let mut swapped = points.clone();
    swapped.swap(0, 1);
    match encoder.decode(&swapped) {
        Ok(bytes) => assert_ne!(bytes, payload),
        Err(e) => assert_eq!(e, EncodingError::Integrity),
    }
}

#[test]
fn test_the_tag_point_carries_hints_and_tag() {
    let mut rng = ark_std::test_rng();
    let encoder = HybridEncoder::<Bn254Parameters>::new().unwrap();
    let c = encoder.num_bytes_per_point;
    let n = encoder.num_data_points;
    let count = 2 * (n + 1);
    let masks = random_masks(&mut rng, &encoder.encoder.q, count);
    let mut payload = vec![0u8; encoder.get_capacity()];
    rng.fill_bytes(&mut payload[..]);
    let points = encoder.encode(&payload, &masks).unwrap();

    // the hints of the chunks, two bits each, least significant first
    let mut hint_bytes = vec![0u8; n / 4];
    for i in 0..n {
        let chunk = Fq::from_le_bytes(&payload[i * c..(i + 1) * c]);
        let (point, hint) = encoder
            .encoder
            .encode(&chunk, &masks[2 * i], &masks[2 * i + 1])
            .unwrap();
        assert_eq!(point.x, points[i].x);
        assert_eq!(point.y, points[i].y);
        hint_bytes[i / 4] |= (hint - 1) << (2 * (i % 4));
    }

    // the ten-byte unkeyed BLAKE2s digest of the hint bytes
    let mut hasher = blake2::VarBlake2s::new(10).unwrap();
    hasher.update(&hint_bytes);
    let tag = hasher.finalize_boxed().into_vec();
    assert_eq!(tag.len(), 10);

    let mut buffer = hint_bytes.clone();
    buffer.extend(tag);
    assert_eq!(buffer.len(), c);
    let expected = Fq::from_le_bytes(&buffer);
    let slots = encoder.encoder.decode_without_hints(&points[n]);
    assert!(slots.iter().any(|slot| slot.as_ref() == Some(&expected)));
}

#[test]
fn test_packing_of_hints() {
    // 1 -> 00, 2 -> 01, 3 -> 10, 4 -> 11, the first hint in the lowest bits
    assert_eq!(pack(&vec![1, 2, 3, 4]), vec![0b11_10_01_00]);
    assert_eq!(pack(&vec![4, 1, 1, 1, 1, 1, 1, 3]), vec![0b00_00_00_11, 0b10_00_00_00]);
    assert_eq!(pack(&vec![]), Vec::<u8>::new());
    assert_eq!(unpack(&vec![0b11_10_01_00]), vec![1, 2, 3, 4]);
    assert_eq!(unpack(&vec![0xff, 0x00]), vec![4, 4, 4, 4, 1, 1, 1, 1]);
    let hints: Vec<u8> = (0..64).map(|i| (i * 7 % 4) as u8 + 1).collect();
    assert_eq!(unpack(&pack(&hints)), hints);
}

#[test]
fn test_a_zero_chunk_has_no_image() {
    let mut rng = ark_std::test_rng();
    let encoder = HybridEncoder::<Bn254Parameters>::new().unwrap();
    let count = 2 * (encoder.num_data_points + 1);
    let masks = random_masks(&mut rng, &encoder.encoder.q, count);
    let payload = vec![0u8; encoder.get_capacity()];
    assert_eq!(encoder.encode(&payload, &masks).err(), Some(EncodingError::Domain));

    // one zero chunk among others is enough
    let mut payload = vec![7u8; encoder.get_capacity()];
    let c = encoder.num_bytes_per_point;
    for byte in payload[3 * c..4 * c].iter_mut() {
        *byte = 0;
    }
    assert_eq!(encoder.encode(&payload, &masks).err(), Some(EncodingError::Domain));
}
