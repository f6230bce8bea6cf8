use cp6_782::fq::{modulus_limbs, Fq};
use cp6_782::limbs::{add_limbs, bits_le, limbs_from_bytes, limbs_to_bytes, sub_limbs};
use cp6_782::{Config, G1Affine, G1Projective};

fn fq(limbs: [u64; 13]) -> Fq {
    Fq::from_limbs(limbs).unwrap()
}

fn small(v: u64) -> [u64; 13] {
    let mut l = [0u64; 13];
    l[0] = v;
    l
}

const TWO_G_X: [u64; 13] = [
        0xf3d1027333e8598a,
        0x021181b02d4644a9,
        0x976190ce25d8cf46,
        0xe64a815af94a36c9,
        0x6393033d49097903,
        0xc7d8ac1970888105,
        0x4ce4130add0c0471,
        0x0a0ca0c9b6bc0e6f,
        0x8fefac35e60496ad,
        0x5008918e347adb8f,
        0x2a5e248f1f76f353,
        0xad78dad121965c3f,
        0x00000000000016be,
    ];
const TWO_G_Y: [u64; 13] = [
        0x2d9538e02e42f92c,
        0xaebeaaa3a7eb6b96,
        0x75f2a440be13f35c,
        0x49c9587c0c824fe0,
        0x644558f711ffb900,
        0x39525231b4401f76,
        0x641ca0b9d2425717,
        0x98b0c6ab6ca866cc,
        0x9c9fea3a20794859,
        0xc1a69e4bb7e59e4d,
        0x53c16445ab8480c5,
        0x5c40f8f59fe85fa1,
        0x00000000000017dd,
    ];
const THREE_G_X: [u64; 13] = [
        0x41c13d01d443da43,
        0x6331be6160d9834b,
        0xac9ae546f9335680,
        0xfe04cecea1ee3ba0,
        0x7dd70a4b6aecd806,
        0xb100dbd0792f7c36,
        0xcbdc50a767db5cc1,
        0x8b7bcc9170ea9773,
        0x0941bf2496ef1d69,
        0xa1ad57658c773502,
        0x7e78224056bb6752,
        0xe1c25e96ae2b79bb,
        0x0000000000000309,
    ];
const THREE_G_Y: [u64; 13] = [
        0xe1d71e29a73939f4,
        0x7e09eefeceecb500,
        0xe371dea79621d2de,
        0x1b0d2505e979a06c,
        0x3bf114922ec0f968,
        0x30250722d5ea1f5f,
        0x33b25feb76a4fe75,
        0x19cc12bcba961bfc,
        0xec8de6715f53ff13,
        0x1c5826b8aa0bab67,
        0x258512ae25741fdc,
        0x8c3523688e79a9bc,
        0x0000000000001677,
    ];
const FIVE_G_X: [u64; 13] = [
        0x637949db1542236b,
        0x6602aa9a86505ca6,
        0xdca246fe7f57185c,
        0x3ee2aa3972fae736,
        0x216bb9413cb1c7ff,
        0x713a0116a36e2c7c,
        0xaba33eb188c3babc,
        0x63290dd7ef098b93,
        0x8056d7d242e6f6be,
        0xba294a94c4e0e4c0,
        0x83d3812c495f0711,
        0x52f0b03994d607eb,
        0x00000000000010fa,
    ];
const FIVE_G_Y: [u64; 13] = [
        0xe21c6a842a19abad,
        0xf2763cb53ca21f82,
        0xcfc48511d44c2625,
        0xd8eefcb3faa84cf6,
        0xc34da6481c411c8f,
        0x77b652c4c8bb008a,
        0x941f91c12522ede8,
        0x5dfcc046c86fb539,
        0xc0e4039d3de7516c,
        0x6731bb2cfddd4568,
        0x11e262ec47ae1d28,
        0x0fe3051d78be6138,
        0x0000000000001960,
    ];

/// `a * b mod m` on little-endian limbs, by shift-and-add.
fn mul_mod(a: &[u64], b: &[u64], m: &[u64]) -> Vec<u64> {
    fn geq(a: &[u64], b: &[u64]) -> bool {
        for i in (0..a.len()).rev() {
            if a[i] != b[i] {
                return a[i] > b[i];
            }
        }
        true
    }
    fn sub(a: &mut [u64], b: &[u64]) {
        let mut borrow = 0u64;
        for i in 0..a.len() {
            let (d, b1) = a[i].overflowing_sub(b[i]);
            let (d, b2) = d.overflowing_sub(borrow);
            a[i] = d;
            borrow = (b1 || b2) as u64;
        }
    }
    fn double(a: &mut [u64]) {
        let mut carry = 0u64;
        for limb in a.iter_mut() {
            let next = *limb >> 63;
            *limb = (*limb << 1) | carry;
            carry = next;
        }
    }
    fn add(a: &mut [u64], b: &[u64]) {
        let mut carry = 0u64;
        for i in 0..a.len() {
            let (s, c1) = a[i].overflowing_add(b[i]);
            let (s, c2) = s.overflowing_add(carry);
            a[i] = s;
            carry = (c1 || c2) as u64;
        }
    }
    let n = m.len() + 1;
    let pad = |x: &[u64]| {
        let mut v = x.to_vec();
        v.resize(n, 0);
        v
    };
    let m = pad(m);
    let mut a = pad(a);
    while geq(&a, &m) {
        sub(&mut a, &m);
    }
    let mut acc = vec![0u64; n];
    for i in (0..b.len() * 64).rev() {
        double(&mut acc);
        if geq(&acc, &m) {
            sub(&mut acc, &m);
        }
        if (b[i / 64] >> (i % 64)) & 1 == 1 {
            add(&mut acc, &a);
            if geq(&acc, &m) {
                sub(&mut acc, &m);
            }
        }
    }
    acc
}

#[test]
fn cofactor_times_its_inverse_is_one_modulo_r() {
    let h = Config::cofactor();
    let h_inv = Config::cofactor_inv();
    let r = Config::scalar_modulus();
    let product = mul_mod(&h, &h_inv, &r);
    let mut one = vec![0u64; 7];
    one[0] = 1;
    assert_eq!(product, one);
}

#[test]
fn configuration_constants_have_their_documented_values() {
    assert_eq!(
        Config::cofactor(),
        [
            0x5657b9b57b942344,
            0x84f9a65f3bd54eaf,
            0x5ea4214e35cd127,
            0xe3cbcbc14ec1501d,
            0xf196cb845a3092ab,
            0x7e14627ad0e19017,
            0x217db4,
        ]
    );
    assert_eq!(Config::coeff_a().to_limbs(), small(5));
    assert_eq!(Config::scalar_modulus()[5], 0x1ae3a4617c510ea);
    assert_eq!(modulus_limbs()[12], 0x3848);
    assert_eq!(modulus_limbs()[0], 0xdace79b57b942ae9);
    let g = Config::generator();
    assert!(g.equals(&G1Affine::generator()));
    assert!(g.x.equals(&cp6_782::config::g1_generator_x()));
    assert!(g.y.equals(&cp6_782::config::g1_generator_y()));
    assert_eq!(g.x.to_limbs()[0], 0x290019736917c00e);
    assert_eq!(g.y.to_limbs()[0], 0xd2e1f08d97bf422b);
}

#[test]
fn doubling_gives_the_tangent_point() {
    let d = G1Projective::generator().double().into_affine();
    assert!(d.x.equals(&fq(TWO_G_X)));
    assert!(d.y.equals(&fq(TWO_G_Y)));
}

#[test]
fn addition_gives_the_chord_point() {
    let g = G1Projective::generator();
    let s = g.double().add(&g).into_affine();
    assert!(s.x.equals(&fq(THREE_G_X)));
    assert!(s.y.equals(&fq(THREE_G_Y)));
    let t = G1Affine::generator()
        .add(&G1Affine::new(fq(TWO_G_X), fq(TWO_G_Y)).unwrap())
        .into_affine();
    assert!(t.equals(&s));
}

#[test]
fn five_times_the_generator() {
    let p = G1Affine::generator().mul_bigint(&[5]).into_affine();
    assert!(p.x.equals(&fq(FIVE_G_X)));
    assert!(p.y.equals(&fq(FIVE_G_Y)));
    assert_eq!(p.x().unwrap().to_limbs(), FIVE_G_X);
    assert_eq!(p.y().unwrap().to_limbs(), FIVE_G_Y);
    assert!(G1Affine::identity().x().is_none());
    assert!(G1Affine::identity().y().is_none());
    assert!(G1Affine::identity().xy().is_none());
}

#[test]
fn subtraction_undoes_addition() {
    let g = G1Projective::generator();
    let five = g.mul_bigint(&[5]);
    let three = five.sub(&g.double());
    assert!(three.into_affine().x.equals(&fq(THREE_G_X)));
    assert!(three.into_affine().y.equals(&fq(THREE_G_Y)));
}

#[test]
fn field_addition_wraps_at_the_characteristic() {
    let mut top = modulus_limbs();
    top[0] -= 1;
    let q_minus_one = fq(top);
    assert!(q_minus_one.add(&Fq::one()).is_zero());
    assert!(Fq::zero().sub(&Fq::one()).equals(&q_minus_one));
    assert!(Fq::one().neg().equals(&q_minus_one));
    assert!(Fq::zero().neg().is_zero());
    assert!(q_minus_one.double().equals(&q_minus_one.sub(&Fq::one())));
    assert!(q_minus_one.square().equals(&Fq::one()));
    assert_eq!(Fq::from_u64(7).add(&Fq::from_u64(8)).to_limbs(), small(15));
    assert_eq!(Fq::from_u64(8).sub(&Fq::from_u64(7)).to_limbs(), small(1));
}

#[test]
fn field_elements_are_canonical() {
    assert!(Fq::from_limbs(modulus_limbs()).is_none());
    let mut below = modulus_limbs();
    below[0] -= 1;
    assert!(Fq::from_limbs(below).is_some());
    let mut above = modulus_limbs();
    above[12] += 1;
    assert!(Fq::from_limbs(above).is_none());
    assert!(Fq::from_limbs([u64::MAX; 13]).is_none());
    assert_eq!(fq(below).to_limbs(), below);
    assert!(Fq::from_bytes_le(&[0u8; 97]).is_none());
    assert!(Fq::from_bytes_le(&[0u8; 99]).is_none());
    assert!(Fq::from_bytes_le(&[0u8; 98]).unwrap().is_zero());
}

#[test]
fn field_order_and_equality() {
    let a = Fq::from_u64(3);
    let b = Fq::from_u64(4);
    assert!(a.less_than(&b));
    assert!(!b.less_than(&a));
    assert!(!a.less_than(&a));
    assert!(a.equals(&a));
    assert!(!a.equals(&b));
    assert!(a == a);
    assert!(a != b);
    assert!(!a.is_zero());
    assert!(Fq::zero().is_zero());
    assert!(Fq::one().equals(&Fq::from_u64(1)));
}

#[test]
fn field_powers_and_inverses() {
    let two = Fq::from_u64(2);
    assert_eq!(two.pow(&[10]).to_limbs(), small(1024));
    assert_eq!(two.pow(&[0]).to_limbs(), small(1));
    assert_eq!(two.pow(&[]).to_limbs(), small(1));
    assert_eq!(Fq::zero().pow(&[5]).to_limbs(), small(0));
    let mut wide = [0u64; 13];
    wide[1] = 1;
    assert_eq!(two.pow(&[64]).to_limbs(), wide);
    let three = Fq::from_u64(3);
    let inv = three.inverse().unwrap();
    assert!(inv.mul(&three).equals(&Fq::one()));
    assert!(inv.equals(&three.fermat_inverse()));
    assert!(Fq::zero().fermat_inverse().is_zero());
    let mut top = modulus_limbs();
    top[0] -= 2;
    assert!(three.pow(&top).equals(&inv));
}

#[test]
fn field_multiplication_carries_across_limbs() {
    let mut a = [0u64; 13];
    a[0] = u64::MAX;
    let mut want = [0u64; 13];
    want[0] = 1;
    want[1] = u64::MAX - 1;
    assert_eq!(fq(a).square().to_limbs(), want);
    let g = G1Affine::generator();
    assert!(g.x.mul(&g.y).equals(&g.y.mul(&g.x)));
    assert!(g.x.mul(&Fq::one()).equals(&g.x));
    assert!(g.x.mul(&Fq::zero()).is_zero());
}

#[test]
fn limb_addition_and_subtraction_report_carries() {
    let (sum, carry) = add_limbs(&[u64::MAX; 13], &small(1));
    assert_eq!(sum, [0u64; 13]);
    assert!(carry);
    let (sum, carry) = add_limbs(&small(u64::MAX), &small(1));
    let mut want = [0u64; 13];
    want[1] = 1;
    assert_eq!(sum, want);
    assert!(!carry);
    let (diff, borrow) = sub_limbs(&small(0), &small(1));
    assert_eq!(diff, [u64::MAX; 13]);
    assert!(borrow);
    let (diff, borrow) = sub_limbs(&want, &small(1));
    assert_eq!(diff, small(u64::MAX));
    assert!(!borrow);
    let (diff, borrow) = sub_limbs(&want, &want);
    assert_eq!(diff, [0u64; 13]);
    assert!(!borrow);
}

#[test]
fn bits_and_bytes_of_limbs() {
    let bits = bits_le(&[0b1011, 1]);
    assert_eq!(bits.len(), 128);
    assert_eq!(&bits[..5], &[true, true, false, true, false]);
    assert!(bits[64]);
    assert_eq!(bits.iter().filter(|b| **b).count(), 4);
    assert!(bits_le(&[]).is_empty());
    let mut l = small(0x0102030405060708);
    l[12] = 0xff00000000000000;
    let bytes = limbs_to_bytes(&l);
    assert_eq!(bytes.len(), 104);
    assert_eq!(&bytes[..9], &[8, 7, 6, 5, 4, 3, 2, 1, 0]);
    assert_eq!(bytes[103], 0xff);
    let mut array = [0u8; 104];
    array.copy_from_slice(&bytes);
    assert_eq!(limbs_from_bytes(&array), l);
}
