use netherite_algebra::field::Fq;
use netherite_algebra::message_encoding::admits_map;
use netherite_algebra::message_encoding::hybrid::layout;

#[test]
fn test_moduli_that_do_not_admit_the_map() {
    // 13 = 1 (mod 4)
    assert!(!admits_map(&Fq::from_u64(13)));
    // 11 = 3 (mod 4), but -3 = 8 is not a square modulo 11
    assert!(!admits_map(&Fq::from_u64(11)));
    // 15 = 3 (mod 4) is odd, so 2 has an inverse, but -3 = 12 is not a square
    assert!(!admits_map(&Fq::from_u64(15)));
    // an even modulus
    assert!(!admits_map(&Fq::from_u64(10)));
    assert!(!admits_map(&Fq::from_u64(0)));
}

#[test]
fn test_moduli_that_admit_the_map() {
    // -3 = 4 = 2^2 (mod 7), -3 = 16 = 4^2 (mod 19)
    assert!(admits_map(&Fq::from_u64(7)));
    assert!(admits_map(&Fq::from_u64(19)));
    assert!(admits_map(&Fq::from_u64(31)));
}

#[test]
fn test_layout_of_a_bundle() {
    assert_eq!(layout(446), Some((55, 180)));
    assert_eq!(layout(254), Some((31, 84)));
    // eleven bytes a point leave one byte of hints: four data points
    assert_eq!(layout(89), Some((11, 4)));
    assert_eq!(layout(96), Some((11, 4)));
    assert_eq!(layout(97), Some((12, 8)));
    // ten bytes a point leave no room beside the tag
    assert_eq!(layout(88), None);
    assert_eq!(layout(1), None);
    assert_eq!(layout(0), None);
}
