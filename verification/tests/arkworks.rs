use ark_ec::short_weierstrass::{Affine, Projective, SWCurveConfig};
use ark_ec::{AffineRepr, CurveConfig, CurveGroup, PrimeGroup};
use ark_ff::{AdditiveGroup, BigInt, Field, Fp, MontBackend, MontConfig, PrimeField, Zero};
use ark_serialize::{CanonicalDeserialize, CanonicalSerialize};
use cp6_782::codec::{decode, encode};
use cp6_782::fq::Fq;
use cp6_782::{Compress, Config, G1Affine, G1Prepared, G1Projective};

struct BaseConfig;

impl MontConfig<13> for BaseConfig {
    const MODULUS: BigInt<13> = BigInt::new([
        0xdace79b57b942ae9,
        0x545d85c16dfd424a,
        0xee135c065f4d26b7,
        0x9c2f764a12c4024b,
        0x1ad533049cfe6a39,
        0x52a3fb77c79c1320,
        0xab3596c8617c5792,
        0x830c728d80f9d78b,
        0x6a7223ee72023d07,
        0xbc5d176b746af026,
        0xe959283d8f526663,
        0xc4d2263babf8941f,
        0x0000000000003848,
    ]);
    const GENERATOR: Fp<MontBackend<Self, 13>, 13> = Fp::new(BigInt::new([
        0x000000000000000d,
        0x0000000000000000,
        0x0000000000000000,
        0x0000000000000000,
        0x0000000000000000,
        0x0000000000000000,
        0x0000000000000000,
        0x0000000000000000,
        0x0000000000000000,
        0x0000000000000000,
        0x0000000000000000,
        0x0000000000000000,
        0x0000000000000000,
    ]));
    const TWO_ADIC_ROOT_OF_UNITY: Fp<MontBackend<Self, 13>, 13> = Fp::new(BigInt::new([
        0xa9681a4c950dcb84,
        0xbce30ac3ce7edda3,
        0x381acb243c66b76d,
        0x2e8ddca713662683,
        0xf66fbd28288ca7aa,
        0x3359c9b7dc825a95,
        0xb17d24cc3a0d44ca,
        0xfac881c7bb672408,
        0x319b6a3562fb87f7,
        0x3d3368662e5175a5,
        0x159303d07fea2d88,
        0xffb14cb9f9eb0a80,
        0x0000000000000537,
    ]));
}

type ArkFq = Fp<MontBackend<BaseConfig, 13>, 13>;

struct ScalarConfig;

impl MontConfig<6> for ScalarConfig {
    const MODULUS: BigInt<6> = BigInt::new([
        0x8508c00000000001,
        0x170b5d4430000000,
        0x1ef3622fba094800,
        0x1a22d9f300f5138f,
        0xc63b05c06ca1493b,
        0x01ae3a4617c510ea,
    ]);
    const GENERATOR: Fp<MontBackend<Self, 6>, 6> = Fp::new(BigInt::new([
        0x000000000000000f,
        0x0000000000000000,
        0x0000000000000000,
        0x0000000000000000,
        0x0000000000000000,
        0x0000000000000000,
    ]));
    const TWO_ADIC_ROOT_OF_UNITY: Fp<MontBackend<Self, 6>, 6> = Fp::new(BigInt::new([
        0x7eca603cc563b9a1,
        0x06df0a4306fe0bc3,
        0xb44d994a0ddff8c6,
        0x40fbe05b4512a3d4,
        0x30f152488aeffc9b,
        0x0036a92e05198a80,
    ]));
}

type ArkFr = Fp<MontBackend<ScalarConfig, 6>, 6>;

#[derive(Clone, Default, PartialEq, Eq)]
struct ArkConfig;

impl CurveConfig for ArkConfig {
    type BaseField = ArkFq;
    type ScalarField = ArkFr;

    const COFACTOR: &'static [u64] = &[
        0x5657b9b57b942344,
        0x84f9a65f3bd54eaf,
        0x05ea4214e35cd127,
        0xe3cbcbc14ec1501d,
        0xf196cb845a3092ab,
        0x7e14627ad0e19017,
        0x0000000000217db4,
    ];
    const COFACTOR_INV: ArkFr = Fp::new(BigInt::new([
        0x8ab71af5000c227c,
        0x904dde8909beaafb,
        0x8ac3516add3c230a,
        0xe32f1c4fd2536e65,
        0x6297eada7a5a97d3,
        0x010f92a023250aba,
    ]));
}

impl SWCurveConfig for ArkConfig {
    const COEFF_A: ArkFq = Fp::new(BigInt::new([
        0x0000000000000005,
        0x0000000000000000,
        0x0000000000000000,
        0x0000000000000000,
        0x0000000000000000,
        0x0000000000000000,
        0x0000000000000000,
        0x0000000000000000,
        0x0000000000000000,
        0x0000000000000000,
        0x0000000000000000,
        0x0000000000000000,
        0x0000000000000000,
    ]));
    const COEFF_B: ArkFq = Fp::new(BigInt::new([
        0xaefe9e08c2e171de,
        0x919605cd5f4c4aac,
        0xb7e11a732e201cf2,
        0x8c34a82cdcf1b9fc,
        0x1f3e383f77a1f36d,
        0xb29a26000e3f51b3,
        0xb629b6afdadce8d8,
        0x9058a68fc984aed1,
        0x61dbf155b5f68692,
        0x487938eab7833f55,
        0x156f35a693ad0e1d,
        0x42783886aa09fc09,
        0x0000000000002cb2,
    ]));
    const GENERATOR: Affine<ArkConfig> = Affine::new_unchecked(
        Fp::new(BigInt::new([
            0x290019736917c00e,
            0x6b9bd5d34ee12b44,
            0x25b3f5edfbdf5e1c,
            0x0f3927578e4efbe3,
            0x0dedade9abebef66,
            0xdbd0cea8e77f4753,
            0x19416580e5b67c43,
            0x7d361af3a2ea0ebe,
            0xa4fb86c6714af477,
            0x6e7976ce0336b848,
            0x9b7406a68b031815,
            0xd29680c771759a01,
            0x0000000000000ddd,
        ])),
        Fp::new(BigInt::new([
            0xd2e1f08d97bf422b,
            0x08a33075c0687a2d,
            0x66365f0753358f10,
            0xf55c37d2389d3e4c,
            0x8d0671603ff5c29c,
            0xf448cd5f193566f8,
            0x11a4224b5936abe8,
            0x720355eb6bca3314,
            0x7ae0c40f642e1cf1,
            0xc87f0324a13b407b,
            0x883af4aad5dd1917,
            0xf5ea095b73a443f4,
            0x00000000000013e8,
        ])),
    );
}

type ArkAffine = Affine<ArkConfig>;
type ArkProjective = Projective<ArkConfig>;

fn to_ark(x: &Fq) -> ArkFq {
    ArkFq::from_bigint(BigInt::new(x.to_limbs())).unwrap()
}

fn from_ark(x: &ArkFq) -> Fq {
    Fq::from_limbs(x.into_bigint().0).unwrap()
}

fn affine_to_ark(p: &G1Affine) -> ArkAffine {
    if p.is_zero() {
        ArkAffine::identity()
    } else {
        ArkAffine::new_unchecked(to_ark(&p.x), to_ark(&p.y))
    }
}

fn affine_from_ark(p: &ArkAffine) -> G1Affine {
    G1Affine {
        x: from_ark(&p.x),
        y: from_ark(&p.y),
        infinity: p.infinity,
    }
}

fn projective_to_ark(p: &G1Projective) -> ArkProjective {
    ArkProjective::new_unchecked(to_ark(&p.x), to_ark(&p.y), to_ark(&p.z))
}

fn projective_from_ark(p: &ArkProjective) -> G1Projective {
    G1Projective::new_unchecked(from_ark(&p.x), from_ark(&p.y), from_ark(&p.z))
}

fn field_samples() -> Vec<Fq> {
    let g = G1Affine::generator();
    vec![
        Fq::zero(),
        Fq::one(),
        Fq::from_u64(2),
        Fq::from_u64(u64::MAX),
        Fq::one().neg(),
        g.x,
        g.y,
        g.x.mul(&g.y),
        Config::coeff_b(),
    ]
}

fn point_samples() -> Vec<G1Affine> {
    let g = G1Projective::generator();
    vec![
        G1Affine::identity(),
        G1Affine::generator(),
        G1Affine::generator().neg(),
        g.double().into_affine(),
        g.mul_bigint(&[0xdead_beef_0123_4567]).into_affine(),
        g.mul_bigint(&[7, 11]).into_affine().neg(),
    ]
}

#[test]
fn field_arithmetic_agrees_with_ark_ff() {
    let samples = field_samples();
    for a in &samples {
        let fa = to_ark(a);
        assert!(from_ark(&fa).equals(a));
        assert!(from_ark(&(-fa)).equals(&a.neg()));
        assert!(from_ark(&fa.double()).equals(&a.double()));
        assert!(from_ark(&fa.square()).equals(&a.square()));
        assert_eq!(fa.is_zero(), a.is_zero());
        for b in &samples {
            let fb = to_ark(b);
            assert!(from_ark(&(fa + fb)).equals(&a.add(b)));
            assert!(from_ark(&(fa - fb)).equals(&a.sub(b)));
            assert!(from_ark(&(fa * fb)).equals(&a.mul(b)));
            assert_eq!(fa < fb, a.less_than(b));
            assert_eq!(fa == fb, a.equals(b));
        }
    }
}

#[test]
fn field_inverses_and_roots_agree_with_ark_ff() {
    for a in &field_samples() {
        let fa = to_ark(a);
        match (fa.inverse(), a.inverse()) {
            (Some(x), Some(y)) => assert!(from_ark(&x).equals(&y)),
            (None, None) => assert!(a.is_zero()),
            _ => panic!("one inverse exists and the other does not"),
        }
        match (fa.sqrt(), a.sqrt()) {
            (Some(x), Some(y)) => {
                let x = from_ark(&x);
                assert!(x.equals(&y) || x.equals(&y.neg()));
            }
            (None, None) => {}
            _ => panic!("one square root exists and the other does not"),
        }
        assert!(from_ark(&fa.pow([0x1234_5678u64, 3])).equals(&a.pow(&[0x1234_5678, 3])));
    }
}

#[test]
fn constants_agree_with_ark_configuration() {
    assert_eq!(Config::cofactor().as_slice(), ArkConfig::COFACTOR);
    assert_eq!(
        Config::cofactor_inv(),
        ArkConfig::COFACTOR_INV.into_bigint().0
    );
    assert_eq!(Config::scalar_modulus(), ArkFr::MODULUS.0);
    assert_eq!(cp6_782::fq::modulus_limbs(), ArkFq::MODULUS.0);
    assert!(to_ark(&Config::coeff_a()) == ArkConfig::COEFF_A);
    assert!(to_ark(&Config::coeff_b()) == ArkConfig::COEFF_B);
    assert!(affine_to_ark(&Config::generator()) == ArkConfig::GENERATOR);
    assert!(ArkConfig::GENERATOR.is_on_curve());
    assert!(ArkConfig::GENERATOR.is_in_correct_subgroup_assuming_on_curve());
    assert!(ArkConfig::COFACTOR_INV * ArkFr::from(BigInt::new([
            0x4f5a79b567a67e3d,
            0x28dcb691e17a2993,
            0xddfbe4ef27e89cdb,
            0xe754232797a6d0a4,
            0xe010137d3eecb1c4,
            0x0019fb8c1086e1d6,
        ])) == ArkFr::ONE);
}

#[test]
fn group_operations_agree_with_ark_ec() {
    let points = point_samples();
    for p in &points {
        let ap = affine_to_ark(p);
        assert_eq!(ap.is_on_curve(), p.is_on_curve());
        assert_eq!(ap.is_zero(), p.is_zero());
        assert!(affine_from_ark(&(-ap)).equals(&p.neg()));
        let jp = p.into_group();
        assert!(projective_from_ark(&ap.into_group()).equals(&jp));
        let doubled = projective_to_ark(&jp.double());
        assert!(doubled == ap.into_group().double());
        assert!(affine_from_ark(&doubled.into_affine()).equals(&jp.double().into_affine()));
        for q in &points {
            let aq = affine_to_ark(q);
            let sum = p.add(q);
            assert!(projective_to_ark(&sum) == ap + aq);
            assert!(affine_from_ark(&(ap + aq).into_affine()).equals(&sum.into_affine()));
            let diff = jp.sub(&q.into_group());
            assert!(projective_to_ark(&diff) == ap - aq);
            assert_eq!(ap == aq, p.equals(q));
            assert_eq!(ap.into_group() == aq.into_group(), jp.equals(&q.into_group()));
        }
    }
}

#[test]
fn jacobian_coordinates_agree_with_ark_ec() {
    let g = G1Projective::generator();
    let ag = ArkProjective::generator();
    let d = g.double();
    let ad = ag.double();
    assert!(to_ark(&d.x) == ad.x);
    assert!(to_ark(&d.y) == ad.y);
    assert!(to_ark(&d.z) == ad.z);
    let s = d.add(&g.double().double());
    let asum = ad + ad.double();
    assert!(to_ark(&s.x) == asum.x);
    assert!(to_ark(&s.y) == asum.y);
    assert!(to_ark(&s.z) == asum.z);
}

#[test]
fn scalar_multiplication_agrees_with_ark_ec() {
    let g = G1Affine::generator();
    let ag = ArkAffine::generator();
    let scalars: Vec<Vec<u64>> = vec![
        vec![],
        vec![0],
        vec![1],
        vec![2],
        vec![0xffff_ffff_ffff_ffff],
        vec![0x0123_4567_89ab_cdef, 0xfedc_ba98_7654_3210, 5],
        Config::cofactor().to_vec(),
        Config::cofactor_inv().to_vec(),
        Config::scalar_modulus().to_vec(),
    ];
    for k in &scalars {
        let ours = g.mul_bigint(k);
        let theirs = ag.mul_bigint(k);
        assert!(projective_to_ark(&ours) == theirs);
        assert!(affine_from_ark(&theirs.into_affine()).equals(&ours.into_affine()));
    }
    assert!(affine_to_ark(&g.mul_by_cofactor()) == ag.mul_by_cofactor());
    assert!(affine_to_ark(&g.clear_cofactor()) == ag.clear_cofactor());
    assert!(affine_to_ark(&g.mul_by_cofactor_inv()) == ag.mul_by_cofactor_inv());
    assert!(projective_to_ark(&g.mul_by_cofactor_to_group()) == ag.mul_by_cofactor_to_group());
}

#[test]
fn encodings_agree_with_ark_serialize() {
    for p in &point_samples() {
        let ap = affine_to_ark(p);
        let mut compressed = Vec::new();
        ap.serialize_compressed(&mut compressed).unwrap();
        assert_eq!(encode(p, Compress::Yes), compressed);
        assert_eq!(ap.compressed_size(), compressed.len());
        let mut uncompressed = Vec::new();
        ap.serialize_uncompressed(&mut uncompressed).unwrap();
        assert_eq!(encode(p, Compress::No), uncompressed);
        assert_eq!(ap.uncompressed_size(), uncompressed.len());
        let back = ArkAffine::deserialize_compressed(&encode(p, Compress::Yes)[..]).unwrap();
        assert!(back == ap);
        let back = ArkAffine::deserialize_uncompressed(&encode(p, Compress::No)[..]).unwrap();
        assert!(back == ap);
        assert!(decode(&compressed, Compress::Yes).unwrap().equals(p));
        assert!(decode(&uncompressed, Compress::No).unwrap().equals(p));
    }
}

#[test]
fn rejected_encodings_are_rejected_by_ark_serialize_too() {
    let g = G1Affine::generator();
    let mut off_curve = encode(&g, Compress::No);
    off_curve[98] ^= 1;
    assert!(decode(&off_curve, Compress::No).is_err());
    assert!(ArkAffine::deserialize_uncompressed(&off_curve[..]).is_err());
    let mut no_point = vec![0u8; 98];
    no_point[0] = 2;
    assert!(decode(&no_point, Compress::Yes).is_err());
    assert!(ArkAffine::deserialize_compressed(&no_point[..]).is_err());
    let mut both = encode(&g, Compress::Yes);
    both[97] |= 0xc0;
    assert!(decode(&both, Compress::Yes).is_err());
    assert!(ArkAffine::deserialize_compressed(&both[..]).is_err());
    let short = &encode(&g, Compress::Yes)[..97];
    assert!(decode(short, Compress::Yes).is_err());
    assert!(ArkAffine::deserialize_compressed(short).is_err());
}

#[test]
fn prepared_points_agree_with_normalization_in_ark_ec() {
    let q = G1Projective::generator().mul_bigint(&[99]);
    let prepared = G1Prepared::from(q);
    let normalized = projective_to_ark(&q).into_affine();
    assert!(affine_to_ark(&prepared.0) == normalized);
    assert_eq!(prepared.is_zero(), normalized.is_zero());
    assert!(affine_to_ark(&G1Prepared::default().0) == ArkAffine::generator());
}
