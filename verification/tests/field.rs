use netherite_algebra::field::Fq;
use netherite_algebra::le_bytes;
use netherite_algebra::limbs;
use num_bigint::BigUint;

fn big(x: &Fq) -> BigUint {
    BigUint::from_bytes_le(&x.bytes)
}

#[test]
fn test_field_operations_small() {
    let m = Fq::from_u64(23);
    let a = Fq::from_u64(17);
    let b = Fq::from_u64(9);
    assert_eq!(a.add(&b, &m), Fq::from_u64(3));
    assert_eq!(a.sub(&b, &m), Fq::from_u64(8));
    assert_eq!(b.sub(&a, &m), Fq::from_u64(15));
    assert_eq!(a.mul(&b, &m), Fq::from_u64(15));
    assert_eq!(a.neg(&m), Fq::from_u64(6));
    assert_eq!(Fq::from_u64(0).neg(&m), Fq::from_u64(0));
    assert_eq!(a.square(&m), Fq::from_u64(13));
    assert_eq!(a.pow(&Fq::from_u64(5), &m), Fq::from_u64(21));
    assert_eq!(a.pow(&Fq::from_u64(0), &m), Fq::from_u64(1));
    assert_eq!(a.inverse(&m), Some(Fq::from_u64(19)));
    assert_eq!(Fq::from_u64(0).inverse(&m), None);
    assert_eq!(Fq::from_u64(46).inverse(&m), None);
    assert_eq!(Fq::from_u64(100).reduce(&m), Fq::from_u64(8));
}

#[test]
fn test_inverse_in_a_composite_modulus() {
    let m = Fq::from_u64(15);
    assert_eq!(Fq::from_u64(3).inverse(&m), None);
    assert_eq!(Fq::from_u64(2).inverse(&m), Some(Fq::from_u64(8)));
}

#[test]
fn test_integer_operations() {
    let a = Fq::from_u64(u64::MAX);
    let b = Fq::from_u64(2);
    let sum = a.int_add(&b);
    assert_eq!(big(&sum), BigUint::from(u64::MAX) + 2u64);
    assert_eq!(sum.int_sub(&b), a);
    assert_eq!(big(&a.int_div(&b)), BigUint::from(u64::MAX / 2));
    assert!(b.less_than(&a));
    assert!(!a.less_than(&b));
    assert!(!a.less_than(&a));
    assert!(a.equals(&a.copy()));
    assert!(!a.equals(&b));
    assert!(Fq::from_u64(0).is_zero());
    assert!(!b.is_zero());
}

#[test]
fn test_equality_ignores_the_length() {
    let short = Fq::from_le_bytes(&[5]);
    let long = Fq::from_le_bytes(&[5, 0, 0, 0]);
    assert_eq!(short, long);
    assert!(short.equals(&long));
    assert!(!short.less_than(&long));
    assert!(Fq::from_le_bytes(&[]).is_zero());
    assert!(Fq::from_le_bytes(&[255]).less_than(&Fq::from_le_bytes(&[0, 1])));
    assert!(!Fq::from_le_bytes(&[0, 1]).less_than(&Fq::from_le_bytes(&[255, 0, 0])));
}

#[test]
fn test_bytes_of_an_element() {
    let a = Fq::from_le_bytes(&[1, 2, 3]);
    assert_eq!(a.to_le_bytes(5), vec![1, 2, 3, 0, 0]);
    assert_eq!(a.to_le_bytes(3), vec![1, 2, 3]);
    let padded = Fq::from_le_bytes(&[1, 2, 0, 0, 0, 0]);
    assert_eq!(padded.to_le_bytes(2), vec![1, 2]);
    assert_eq!(Fq::from_u64(0x0102).to_le_bytes(2), vec![2, 1]);
    let m = Fq::from_u64(1000);
    assert_eq!(
        Fq::from_le_bytes_mod_order(&[0xff, 0xff], &m),
        Fq::from_u64(65535 % 1000)
    );
}

#[test]
fn test_le_bytes_helpers() {
    assert_eq!(le_bytes::from_u64(0x0807060504030201), vec![1, 2, 3, 4, 5, 6, 7, 8]);
    assert_eq!(le_bytes::pad_to(&vec![9, 8], 4), vec![9, 8, 0, 0]);
    assert_eq!(le_bytes::to_width(&vec![9, 8, 0, 0, 0], 3), vec![9, 8, 0]);
    assert!(le_bytes::less_than(&vec![1], &vec![2]));
    assert!(le_bytes::same_value(&vec![1, 0], &vec![1]));
    assert!(le_bytes::is_zero_value(&vec![0, 0, 0]));
    assert!(!le_bytes::is_zero_value(&vec![0, 1]));
    assert!(le_bytes::same_bytes(&[1, 2], &[1, 2]));
    assert!(!le_bytes::same_bytes(&[1, 2], &[1, 2, 0]));
    assert!(!le_bytes::same_bytes(&[1, 2], &[1, 3]));
}

#[test]
fn test_limbs() {
    let bytes: Vec<u8> = vec![1, 0, 0, 0, 0, 0, 0, 0, 2, 3];
    assert_eq!(limbs::limbs_from_le_bytes(&bytes), vec![1u64, 0x0302]);
    assert_eq!(limbs::limbs_from_le_bytes(&vec![]), Vec::<u64>::new());
    assert_eq!(
        limbs::limbs_from_le_bytes(&vec![0xff; 8]),
        vec![u64::MAX]
    );
    assert_eq!(
        limbs::le_bytes_from_limbs(&vec![0x0102u64, 7]),
        vec![2, 1, 0, 0, 0, 0, 0, 0, 7, 0, 0, 0, 0, 0, 0, 0]
    );
}

#[test]
fn test_edges_of_the_big_number_calls() {
    let one = Fq::from_u64(1);
    let five = Fq::from_u64(5);
    let empty = Fq::from_le_bytes(&[]);
    // the empty string spells zero
    assert_eq!(empty.add(&one, &five), one);
    assert_eq!(empty.mul(&five, &five), Fq::from_u64(0));
    assert_eq!(empty.int_add(&five), five);
    assert_eq!(five.int_sub(&five), empty);
    assert_eq!(empty.int_div(&five), empty);
    assert_eq!(empty.inverse(&five), None);
    assert_eq!(empty.pow(&empty, &five), one);
    assert_eq!(empty.pow(&one, &five), empty);
    // modulo one everything is zero, and zero is the inverse of everything
    assert_eq!(five.pow(&Fq::from_u64(3), &one), empty);
    assert_eq!(five.pow(&empty, &one), empty);
    assert_eq!(five.reduce(&one), empty);
    assert_eq!(five.neg(&one), empty);
    assert_eq!(five.inverse(&one), Some(Fq::from_u64(0)));
    // an even modulus
    let eight = Fq::from_u64(8);
    assert_eq!(Fq::from_u64(3).pow(&Fq::from_u64(5), &eight), Fq::from_u64(3));
    assert_eq!(Fq::from_u64(3).inverse(&eight), Some(Fq::from_u64(3)));
    assert_eq!(Fq::from_u64(6).inverse(&eight), None);
}
