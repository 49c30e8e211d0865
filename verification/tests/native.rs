use ark_ff::biginteger::BigInteger448;
use ark_ff::fields::{FftParameters, Fp448, Fp448Parameters, FpParameters};
use ark_ff::{BigInteger, Field, LegendreSymbol, PrimeField, SquareRootField};
use ark_std::UniformRand;
use netherite_algebra::curve_bn446::Parameters as Bn446Parameters;
use netherite_algebra::field::Fq;
use netherite_algebra::message_encoding::Encoder;

// The base field of the 446-bit curve as an arkworks field, to hold the
// encoder's arithmetic against.

type NativeFq = Fp448<NativeFqParameters>;

struct NativeFqParameters;

impl Fp448Parameters for NativeFqParameters {}

impl FftParameters for NativeFqParameters {
    type BigInt = BigInteger448;

    const TWO_ADICITY: u32 = 1;

    // -1, in the Montgomery representation
    const TWO_ADIC_ROOT_OF_UNITY: BigInteger448 = BigInteger448([
        168225279050552u64,
        197595433651593216u64,
        4035225267602456576u64,
        824633720836u64,
        118747255804128u64,
        81064793294143488u64,
        2305843009213693952u64,
    ]);
}

impl FpParameters for NativeFqParameters {
    const MODULUS: BigInteger448 = BigInteger448([
        21028159881319u64,
        24699429206449152u64,
        9727775195305082880u64,
        103079215104u64,
        14843406975516u64,
        10133099161767936u64,
        2594073385365405696u64,
    ]);

    const MODULUS_BITS: u32 = 446;

    const CAPACITY: u32 = Self::MODULUS_BITS - 1;

    const REPR_SHAVE_BITS: u32 = 2;

    // 2^448 mod MODULUS
    const R: BigInteger448 = BigInteger448([
        18446596876590382383u64,
        18273848069264407551u64,
        5692549927702626303u64,
        18446743352155045884u64,
        18446640169860723003u64,
        18375812379577176063u64,
        288230376151711743u64,
    ]);

    // R^2 mod MODULUS
    const R2: BigInteger448 = BigInteger448([
        15226258013123662302u64,
        10862166246390342314u64,
        13776351249927989378u64,
        4091262347089019733u64,
        6442809140437287942u64,
        6919780807063966150u64,
        576445739961068170u64,
    ]);

    // (-MODULUS)^(-1) mod 2^64
    const INV: u64 = 7770619218252063913u64;

    // 3, the least quadratic non-residue, in the Montgomery representation
    const GENERATOR: BigInteger448 = BigInteger448([
        18446302482352043917u64,
        17928056060374119423u64,
        17077649783107878911u64,
        18446741909046034420u64,
        18446432362163065779u64,
        18233948991312424959u64,
        864691128455135231u64,
    ]);

    const MODULUS_MINUS_ONE_DIV_TWO: BigInteger448 = BigInteger448([
        10514079940659u64,
        12349714603224576u64,
        4863887597652541440u64,
        51539607552u64,
        7421703487758u64,
        5066549580883968u64,
        1297036692682702848u64,
    ]);

    // MODULUS - 1 = 2 T
    const T: BigInteger448 = BigInteger448([
        10514079940659u64,
        12349714603224576u64,
        4863887597652541440u64,
        51539607552u64,
        7421703487758u64,
        5066549580883968u64,
        1297036692682702848u64,
    ]);

    // (T - 1) / 2
    const T_MINUS_ONE_DIV_TWO: BigInteger448 = BigInteger448([
        5257039970329u64,
        6174857301612288u64,
        2431943798826270720u64,
        25769803776u64,
        3710851743879u64,
        2533274790441984u64,
        648518346341351424u64,
    ]);
}

fn plain(x: &NativeFq) -> Fq {
    Fq::from_le_bytes(&x.into_repr().to_bytes_le())
}

fn native(x: &Fq) -> NativeFq {
    NativeFq::from_le_bytes_mod_order(&x.bytes)
}

#[test]
fn test_legendre_symbol() {
    let mut rng = ark_std::test_rng();
    let encoder = Encoder::<Bn446Parameters>::new().unwrap();

    for _ in 0..100 {
        let a = NativeFq::rand(&mut rng);

        let res_encoder = encoder.compute_legendre_symbol(&plain(&a));

        let res_standard = match a.legendre() {
            LegendreSymbol::Zero => 0,
            LegendreSymbol::QuadraticResidue => 1,
            LegendreSymbol::QuadraticNonResidue => -1,
        };

        assert_eq!(res_encoder, res_standard);
    }
}

#[test]
fn test_square_root() {
    let mut rng = ark_std::test_rng();
    let encoder = Encoder::<Bn446Parameters>::new().unwrap();

    for _ in 0..100 {
        let mut a = NativeFq::rand(&mut rng);
        a = a * &a;

        let sqrt_a = native(&encoder.compute_square_root(&plain(&a)));
        assert_eq!(sqrt_a * &sqrt_a, a);
        let standard = a.sqrt().unwrap();
        assert!(sqrt_a == standard || sqrt_a == -standard);
    }
}

#[test]
fn test_field_operations_against_the_native_field() {
    let mut rng = ark_std::test_rng();
    let encoder = Encoder::<Bn446Parameters>::new().unwrap();
    let q = &encoder.q;
    assert_eq!(native(q), NativeFq::from(0u64));

    for _ in 0..50 {
        let a = NativeFq::rand(&mut rng);
        let b = NativeFq::rand(&mut rng);
        let (x, y) = (plain(&a), plain(&b));
        assert_eq!(native(&x), a);
        assert_eq!(native(&x.add(&y, q)), a + b);
        assert_eq!(native(&x.sub(&y, q)), a - b);
        assert_eq!(native(&x.mul(&y, q)), a * b);
        assert_eq!(native(&x.neg(q)), -a);
        assert_eq!(native(&x.square(q)), a.square());
        assert_eq!(x.inverse(q).map(|i| native(&i)), a.inverse());
        assert_eq!(native(&x.pow(&Fq::from_u64(65537), q)), a.pow(&[65537u64]));
        assert_eq!(x.less_than(&y), a < b);
        assert_eq!(x.to_le_bytes(56), a.into_repr().to_bytes_le());
    }
}

#[test]
fn test_the_image_is_on_the_native_curve() {
    let mut rng = ark_std::test_rng();
    let encoder = Encoder::<Bn446Parameters>::new().unwrap();

    for _ in 0..20 {
        let v = NativeFq::rand(&mut rng);
        let r1 = NativeFq::rand(&mut rng);
        let r2 = NativeFq::rand(&mut rng);
        let (p, h) = encoder.encode(&plain(&v), &plain(&r1), &plain(&r2)).unwrap();
        let (x, y) = (native(&p.x), native(&p.y));
        assert_eq!(y.square(), x.square() * x + NativeFq::from(257u64));
        assert_eq!(encoder.decode_with_hints(&p, h).map(|t| native(&t)), Some(v));
    }
}
