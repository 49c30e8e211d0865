use ark_std::rand::RngCore;
use netherite_algebra::curve_bn254::Parameters as Bn254Parameters;
use netherite_algebra::curve_bn446::Parameters as Bn446Parameters;
use netherite_algebra::field::Fq;
use netherite_algebra::message_encoding::{Encoder, EncodingError, G1Affine};
use num_bigint::BigUint;
use std::str::FromStr;

const REPETITIONS: u64 = 100;

const Q_446: &str = "102211695604069718983520304652693874995639508460729604902280098199792736381528662976886082950231100101353700265360419596271313339023463";

fn dec(s: &str) -> BigUint {
    BigUint::from_str(s).unwrap()
}

fn big(x: &Fq) -> BigUint {
    BigUint::from_bytes_le(&x.bytes)
}

fn element(x: &BigUint) -> Fq {
    Fq::from_le_bytes(&x.to_bytes_le())
}

fn random_element<R: RngCore>(rng: &mut R, q: &Fq) -> Fq {
    let mut buf = [0u8; 64];
    rng.fill_bytes(&mut buf);
    Fq::from_le_bytes_mod_order(&buf, q)
}

fn euler(v: &BigUint, q: &BigUint) -> i32 {
    let one = BigUint::from(1u64);
    let e = v.modpow(&((q - &one) >> 1usize), q);
    if (v % q) == BigUint::from(0u64) {
        0
    } else if e == one {
        1
    } else {
        -1
    }
}

#[test]
fn encoder_test_precomputation() {
    let encoder = Encoder::<Bn446Parameters>::new().unwrap();
    assert_eq!(big(&encoder.q), dec(Q_446));
}

#[test]
fn mod_test_precomputation() {
    let encoder = Encoder::<Bn446Parameters>::new().unwrap();

    assert_eq!(dec(Q_446), big(&encoder.q));
    assert_eq!(dec("257"), big(&encoder.b));
    assert_eq!(dec("258"), big(&encoder.b_plus_one));
    assert_eq!(dec("102211695604069718983520304652693874995639508460729604902280098199792736381528662976886082950231100101353700265360419596271313339023462"), big(&encoder.minus_one));
    assert_eq!(dec("102211695604069718983520304652693874995639508460729604902280098199792736381528662976886082950231100101353700265360419596271313339023460"), big(&encoder.minus_3));
    assert_eq!(dec("102211695604069718983520304652693874995639508460729604902280098199792736381528662976886082950231100101353700265360419596271313339022431"), big(&encoder.minus_4_times_b_plus_1));
    assert_eq!(dec("51105847802034859491760152326346937497819754230364802451140049099896368190764331488443041475115550050676850132680209798135656669511732"), big(&encoder.inv_2));
    assert_eq!(encoder.legendre_2, 1);
    assert_eq!(dec("78741026092188429277422585721872241941339850196332811688266123445560154836806169644207872181933178973"), big(&encoder.sqrt_minus_3));
    assert_eq!(dec("102211695604069718983520304652693796254613416272300327479694376327550795041678466644074394684107654541198863459190775388399131405844490"), big(&encoder.minus_sqrt_minus_3));
    assert_eq!(dec("39370513046094214638711292860936120970669925098166405844133061722780077418403084822103936090966589486"), big(&encoder.sqrt_minus_3_minus_1_div_2));
    assert_eq!(dec("51105847802034859491760152326346898127306708136150163739847188163775397520839233322037197342053827270599431729595387694199565702922245"), big(&encoder.minus_sqrt_minus_3_div_2));
    assert_eq!(dec("51105847802034859491760152326346937497819754230364802451140049099896368190764331488443041475115550050676850132680209798135656669511731"), big(&encoder.q_minus_1_div_2));

    let mut square_root_pow = BigUint::from(0u64);
    for limb in encoder.square_root_pow.iter().rev() {
        square_root_pow = (square_root_pow << 64usize) + BigUint::from(*limb);
    }
    assert_eq!(square_root_pow, dec("25552923901017429745880076163173468748909877115182401225570024549948184095382165744221520737557775025338425066340104899067828334755866"));
}

#[test]
fn test_precomputation_bn254() {
    let encoder = Encoder::<Bn254Parameters>::new().unwrap();
    let q = dec("16798108731015832284940804142231733909889187121439069848933715426072753864723");
    assert_eq!(big(&encoder.q), q);
    assert_eq!(big(&encoder.b), dec("2"));
    assert_eq!(big(&encoder.b_plus_one), dec("3"));
    assert_eq!(big(&encoder.q_minus_1_div_2), (&q - 1u64) / 2u64);
    let s = big(&encoder.sqrt_minus_3);
    assert_eq!((&s * &s) % &q, &q - 3u64);
    assert_eq!((big(&encoder.inv_2) * 2u64) % &q, dec("1"));
}

#[test]
fn encoder_test_square_root() {
    let mut rng = ark_std::test_rng();
    let encoder = Encoder::<Bn446Parameters>::new().unwrap();
    let q = dec(Q_446);

    for _ in 0..REPETITIONS {
        let a = random_element(&mut rng, &encoder.q);
        let square = a.square(&encoder.q);
        let root = encoder.compute_square_root(&square);
        assert_eq!(big(&root), big(&square).modpow(&((&q + 1u64) / 4u64), &q));
        assert_eq!(root.square(&encoder.q), square);
    }
}

#[test]
fn mod_test_square_root() {
    let mut rng = ark_std::test_rng();
    let encoder = Encoder::<Bn446Parameters>::new().unwrap();

    for _ in 0..REPETITIONS {
        let mut a = random_element(&mut rng, &encoder.q);
        a = a.mul(&a, &encoder.q);

        let sqrt_a = encoder.compute_square_root(&a);
        assert_eq!(sqrt_a.mul(&sqrt_a, &encoder.q), a);
    }
}

#[test]
fn encoder_test_legendre_symbol() {
    let mut rng = ark_std::test_rng();
    let encoder = Encoder::<Bn446Parameters>::new().unwrap();
    let q = dec(Q_446);

    for _ in 0..10 {
        let a = random_element(&mut rng, &encoder.q);
        let res_encoder = encoder.compute_legendre_symbol(&a);
        let res_standard = euler(&big(&a), &q);
        assert_eq!(res_encoder, res_standard);
    }
}

#[test]
fn mod_test_legendre_symbol() {
    let mut rng = ark_std::test_rng();
    let encoder = Encoder::<Bn446Parameters>::new().unwrap();
    let q = dec(Q_446);

    for _ in 0..REPETITIONS {
        let a = random_element(&mut rng, &encoder.q);
        let res_encoder = encoder.compute_legendre_symbol(&a);
        let res_standard = euler(&big(&a), &q);
        assert_eq!(res_encoder, res_standard);
    }
}

#[test]
fn test_legendre_symbol_of_squares() {
    let mut rng = ark_std::test_rng();
    let encoder = Encoder::<Bn446Parameters>::new().unwrap();

    assert_eq!(encoder.compute_legendre_symbol(&Fq::from_u64(0)), 0);
    assert_eq!(encoder.compute_legendre_symbol(&encoder.q), 0);
    assert_eq!(encoder.compute_legendre_symbol(&Fq::from_u64(1)), 1);
    assert_eq!(encoder.compute_legendre_symbol(&Fq::from_u64(4)), 1);
    assert_eq!(encoder.compute_legendre_symbol(&encoder.minus_one), -1);
    for _ in 0..10 {
        let a = random_element(&mut rng, &encoder.q);
        if a.is_zero() {
            continue;
        }
        let square = a.square(&encoder.q);
        assert_eq!(encoder.compute_legendre_symbol(&square), 1);
        assert_eq!(encoder.compute_legendre_symbol(&square.neg(&encoder.q)), -1);
    }
}

#[test]
fn test_encoding() {
    let mut rng = ark_std::test_rng();
    let encoder = Encoder::<Bn446Parameters>::new().unwrap();

    let r1 = random_element(&mut rng, &encoder.q);
    let r2 = random_element(&mut rng, &encoder.q);
    let (p1, h1) = encoder.encode(&Fq::from_u64(3), &r1, &r2).unwrap();
    assert_eq!(dec("36716321155346290056326261881547168995119143630874288596213978910008386805926472362186816803935134015"), big(&p1.x));
    assert_eq!(dec("48674267463598597561434421411169385221111256267026887203971795345888926403911609875517263053966874364761655980041561930937695329940019"), big(&p1.y));
    assert_eq!(h1, 1);

    let r1 = random_element(&mut rng, &encoder.q);
    let r2 = random_element(&mut rng, &encoder.q);
    let (p2, h2) = encoder.encode(&Fq::from_u64(4), &r1, &r2).unwrap();
    assert_eq!(dec("31334972374970278812466078798636043693319567722267679721381955847596039977834065451781812728534582101222538572057475536256409877968303"), big(&p2.x));
    assert_eq!(dec("26562368505820453331331139235045952220077135576631966471336165996466766241424839991915013754701621604012397377681212063456304981999664"), big(&p2.y));
    assert_eq!(h2, 2);

    let r1 = random_element(&mut rng, &encoder.q);
    let r2 = random_element(&mut rng, &encoder.q);
    let (p3, h3) = encoder.encode(&Fq::from_u64(1), &r1, &r2).unwrap();
    assert_eq!(dec("34070565201356572994506768217564624998546502820243201634093366066597578793842887658962027650077033367117900088453473198757104446318795"), big(&p3.x));
    assert_eq!(dec("73860803538922718841691690520324796530042249436798270933990858732782956505671392697658857721094746164733733326003807537837075468843619"), big(&p3.y));
    assert!(h3 == 3 || h3 == 4);
}

#[test]
fn test_decoding_simple() {
    let mut rng = ark_std::test_rng();
    let encoder = Encoder::<Bn446Parameters>::new().unwrap();

    let r1 = random_element(&mut rng, &encoder.q);
    let r2 = random_element(&mut rng, &encoder.q);
    let (p1, _) = encoder.encode(&Fq::from_u64(3), &r1, &r2).unwrap();
    let (p2, _) = encoder.encode(&Fq::from_u64(4), &r1, &r2).unwrap();
    let (p3, h3) = encoder.encode(&Fq::from_u64(1), &r1, &r2).unwrap();

    let decode_p1 = encoder.decode_without_hints(&p1);
    let decode_p2 = encoder.decode_without_hints(&p2);
    let decode_p3 = encoder.decode_without_hints(&p3);

    assert_eq!(decode_p1[0], Some(Fq::from_u64(3)));
    assert_eq!(decode_p2[1], Some(Fq::from_u64(4)));
    assert_eq!(decode_p3[2], Some(Fq::from_u64(1)));
    assert_eq!(h3, 3);
}

#[test]
fn mod_test_decoding_rand() {
    let mut rng = ark_std::test_rng();

    for _ in 0..REPETITIONS {
        let encoder = Encoder::<Bn446Parameters>::new().unwrap();
        let t = random_element(&mut rng, &encoder.q);
        let r1 = random_element(&mut rng, &encoder.q);
        let r2 = random_element(&mut rng, &encoder.q);
        let (p, h) = encoder.encode(&t, &r1, &r2).unwrap();

        let t_recovered = encoder.decode_with_hints(&p, h).unwrap();
        assert_eq!(t, t_recovered);
    }
}

#[test]
fn test_encoded_points_are_on_curve() {
    let mut rng = ark_std::test_rng();
    let encoder = Encoder::<Bn254Parameters>::new().unwrap();
    let q = big(&encoder.q);

    for _ in 0..20 {
        let t = random_element(&mut rng, &encoder.q);
        let r1 = random_element(&mut rng, &encoder.q);
        let r2 = random_element(&mut rng, &encoder.q);
        let (p, h) = encoder.encode(&t, &r1, &r2).unwrap();
        assert!(!p.infinity);
        assert!(encoder.is_on_curve(&p));
        let (x, y) = (big(&p.x), big(&p.y));
        assert_eq!((&y * &y) % &q, (&x * &x * &x + 2u64) % &q);
        assert!(1 <= h && h <= 4);
    }
}

#[test]
fn test_exhaustive_decode_finds_the_value() {
    let mut rng = ark_std::test_rng();
    let encoder = Encoder::<Bn254Parameters>::new().unwrap();

    for _ in 0..20 {
        let t = random_element(&mut rng, &encoder.q);
        let r1 = random_element(&mut rng, &encoder.q);
        let r2 = random_element(&mut rng, &encoder.q);
        let (p, h) = encoder.encode(&t, &r1, &r2).unwrap();
        let slots = encoder.decode_without_hints(&p);
        assert_eq!(slots[(h - 1) as usize], Some(t.copy()));
        assert_eq!(encoder.decode_with_hints(&p, h), Some(t));
    }
}

#[test]
fn test_masks_do_not_change_the_point() {
    let mut rng = ark_std::test_rng();
    let encoder = Encoder::<Bn446Parameters>::new().unwrap();

    for _ in 0..10 {
        let t = random_element(&mut rng, &encoder.q);
        let (p, h) = encoder.encode(&t, &Fq::from_u64(1), &Fq::from_u64(1)).unwrap();
        let r1 = random_element(&mut rng, &encoder.q);
        let r2 = random_element(&mut rng, &encoder.q);
        let (p2, h2) = encoder.encode(&t, &r1, &r2).unwrap();
        assert_eq!(p.x, p2.x);
        assert_eq!(p.y, p2.y);
        assert_eq!(h, h2);
    }
}

#[test]
fn test_encode_rejects_zero() {
    let encoder = Encoder::<Bn446Parameters>::new().unwrap();
    let one = Fq::from_u64(1);
    // v = 0 gives w = 0, which has no inverse
    assert_eq!(
        encoder.encode(&Fq::from_u64(0), &one, &one).err(),
        Some(EncodingError::Domain)
    );
    // a zero mask makes the masked character zero
    assert_eq!(
        encoder.encode(&Fq::from_u64(3), &Fq::from_u64(0), &one).err(),
        Some(EncodingError::Domain)
    );
}

#[test]
fn test_decode_of_a_point_off_the_image() {
    let encoder = Encoder::<Bn446Parameters>::new().unwrap();
    // x = (sqrt(-3) - 1) / 2 makes the first inverse of branch 1 fail
    let p = G1Affine {
        x: encoder.sqrt_minus_3_minus_1_div_2.copy(),
        y: Fq::from_u64(1),
        infinity: false,
    };
    assert_eq!(encoder.decode_with_hints(&p, 1), None);
    assert_eq!(encoder.decode_without_hints(&p)[0], None);
}

#[test]
fn test_compute_character() {
    let encoder = Encoder::<Bn446Parameters>::new().unwrap();
    let big_value = encoder.q_minus_1_div_2.copy();
    assert_eq!(encoder.compute_character(1, &Fq::from_u64(3), &Fq::from_u64(7)), 1);
    assert_eq!(encoder.compute_character(2, &big_value, &Fq::from_u64(7)), -1);
    assert_eq!(encoder.compute_character(1, &encoder.minus_one, &Fq::from_u64(7)), -1);
    // branch 3: the marked root has character 1, every other value -1
    let u = element(&dec("12345678901234567890"));
    let q = &encoder.q;
    let delta = encoder.compute_square_root(
        &encoder.minus_3.mul(&u.square(q), q).add(&encoder.minus_4_times_b_plus_1, q),
    );
    let mark = u
        .mul(&encoder.minus_sqrt_minus_3_div_2, q)
        .sub(&delta.mul(&encoder.inv_2, q), q);
    assert_eq!(encoder.compute_character(3, &mark, &u), 1);
    assert_eq!(encoder.compute_character(3, &mark.add(&Fq::from_u64(1), q), &u), -1);
}

#[test]
fn test_values_whose_sign_survives_negation() {
    // (q - 1) / 2 and (q + 1) / 2 are opposite and both carry the sign -1, so the
    // decoder cannot tell them apart: one of the two comes back as the other
    let one = Fq::from_u64(1);

    let encoder = Encoder::<Bn446Parameters>::new().unwrap();
    let low = encoder.q_minus_1_div_2.copy();
    let high = low.int_add(&one);
    let (p, h) = encoder.encode(&low, &one, &one).unwrap();
    assert_eq!(h, 2);
    assert_eq!(encoder.decode_with_hints(&p, h), Some(high.copy()));
    // no candidate of the exhaustive decode is the value either
    let slots = encoder.decode_without_hints(&p);
    assert!(slots.iter().all(|slot| slot.as_ref() != Some(&low)));
    let (p, h) = encoder.encode(&high, &one, &one).unwrap();
    assert_eq!(h, 2);
    assert_eq!(encoder.decode_with_hints(&p, h), Some(high));

    let encoder = Encoder::<Bn254Parameters>::new().unwrap();
    let low = encoder.q_minus_1_div_2.copy();
    let high = low.int_add(&one);
    let (p, h) = encoder.encode(&high, &one, &one).unwrap();
    assert_eq!(h, 1);
    assert_eq!(encoder.decode_with_hints(&p, h), Some(low.copy()));
    let (p, h) = encoder.encode(&low, &one, &one).unwrap();
    assert_eq!(h, 1);
    assert_eq!(encoder.decode_with_hints(&p, h), Some(low));
}

#[test]
fn test_hinted_decode_agrees_with_the_slots() {
    let mut rng = ark_std::test_rng();
    let encoder = Encoder::<Bn254Parameters>::new().unwrap();
    for _ in 0..10 {
        let t = random_element(&mut rng, &encoder.q);
        let (p, _) = encoder.encode(&t, &Fq::from_u64(1), &Fq::from_u64(1)).unwrap();
        let slots = encoder.decode_without_hints(&p);
        for hint in 1u8..=4 {
            let slot = &slots[(hint - 1) as usize];
            if slot.is_some() {
                assert_eq!(&encoder.decode_with_hints(&p, hint), slot);
            }
        }
        // a hint other than 1, 2 and 3 is read as 4
        assert_eq!(encoder.decode_with_hints(&p, 9), encoder.decode_with_hints(&p, 4));
    }
}
