use cp6_782::codec::{decode, encode, serialized_size};
use cp6_782::fq::{modulus_limbs, Fq};
use cp6_782::{Compress, Config, DeserializationError, G1Affine, G1Prepared, G1Projective};

fn sample_points() -> Vec<G1Affine> {
    let g = G1Projective::generator();
    vec![
        G1Affine::generator(),
        G1Affine::generator().neg(),
        g.double().into_affine(),
        g.double().add(&g).into_affine().neg(),
        G1Affine::identity(),
    ]
}

fn field_bytes(v: u64) -> Vec<u8> {
    let mut out = vec![0u8; 98];
    out[..8].copy_from_slice(&v.to_le_bytes());
    out
}

#[test]
fn encodings_have_fixed_width() {
    assert_eq!(serialized_size(Compress::Yes), 98);
    assert_eq!(serialized_size(Compress::No), 196);
    for p in sample_points() {
        assert_eq!(encode(&p, Compress::Yes).len(), 98);
        assert_eq!(encode(&p, Compress::No).len(), 196);
    }
}

#[test]
fn compressed_round_trip() {
    for p in sample_points() {
        let bytes = p.serialize_compressed();
        let back = G1Affine::deserialize_compressed(&bytes).unwrap();
        assert!(back.equals(&p));
        assert_eq!(back.serialize_compressed(), bytes);
    }
}

#[test]
fn uncompressed_round_trip() {
    for p in sample_points() {
        let bytes = p.serialize_uncompressed();
        let back = G1Affine::deserialize_uncompressed(&bytes).unwrap();
        assert!(back.equals(&p));
        assert_eq!(back.serialize_uncompressed(), bytes);
    }
}

#[test]
fn generator_encoding_bytes() {
    let bytes = G1Affine::generator().serialize_compressed();
    assert_eq!(bytes[0], 14);
    assert_eq!(bytes[1], 192);
    assert_eq!(bytes[96], 221);
    assert_eq!(bytes[97], 13);
    let full = G1Affine::generator().serialize_uncompressed();
    assert_eq!(&full[..98], &bytes[..]);
    assert_eq!(full[98], 43);
    assert_eq!(full[195], 19);
}

#[test]
fn sign_flag_marks_the_larger_ordinate() {
    let neg = G1Affine::generator().neg();
    let bytes = neg.serialize_compressed();
    assert_eq!(bytes[97], 13 | 0x80);
    let full = neg.serialize_uncompressed();
    assert_eq!(full[98], 190);
    assert_eq!(full[195], 164);
    assert_eq!(full[97], 13);
}

#[test]
fn infinity_encoding_is_flag_only() {
    let c = G1Affine::identity().serialize_compressed();
    let mut want = vec![0u8; 98];
    want[97] = 0x40;
    assert_eq!(c, want);
    let u = G1Affine::identity().serialize_uncompressed();
    let mut want = vec![0u8; 196];
    want[195] = 0x40;
    assert_eq!(u, want);
    let odd = G1Affine {
        x: Fq::from_u64(9),
        y: Fq::from_u64(9),
        infinity: true,
    };
    assert_eq!(odd.serialize_uncompressed(), want);
    assert!(decode(&want, Compress::No).unwrap().is_zero());
}

#[test]
fn wrong_length_is_rejected() {
    let c = G1Affine::generator().serialize_compressed();
    let u = G1Affine::generator().serialize_uncompressed();
    for (bytes, mode) in [
        (&c[..97], Compress::Yes),
        (&u[..99], Compress::Yes),
        (&u[..], Compress::Yes),
        (&c[..], Compress::No),
        (&u[..195], Compress::No),
        (&[][..], Compress::Yes),
        (&[][..], Compress::No),
    ] {
        assert_eq!(
            decode(bytes, mode).unwrap_err(),
            DeserializationError::InvalidLength
        );
    }
    let mut long = u.clone();
    long.push(0);
    assert_eq!(
        decode(&long, Compress::No).unwrap_err(),
        DeserializationError::InvalidLength
    );
}

#[test]
fn abscissa_without_point_is_rejected() {
    let bytes = field_bytes(2);
    assert_eq!(
        decode(&bytes, Compress::Yes).unwrap_err(),
        DeserializationError::NotOnCurve
    );
    let mut flagged = field_bytes(2);
    flagged[97] |= 0x80;
    assert_eq!(
        decode(&flagged, Compress::Yes).unwrap_err(),
        DeserializationError::NotOnCurve
    );
    assert!(decode(&field_bytes(0), Compress::Yes).is_ok());
}

#[test]
fn compressed_decoding_picks_the_flagged_root() {
    let small = decode(&field_bytes(0), Compress::Yes).unwrap();
    let mut flagged = field_bytes(0);
    flagged[97] |= 0x80;
    let large = decode(&flagged, Compress::Yes).unwrap();
    assert!(small.is_on_curve());
    assert!(large.is_on_curve());
    assert!(large.equals(&small.neg()));
    assert!(small.y.less_than(&large.y));
    assert!(small.y.square().equals(&Config::coeff_b()));
}

#[test]
fn coordinates_off_the_curve_are_rejected() {
    let mut bytes = G1Affine::generator().serialize_uncompressed();
    bytes[98] ^= 1;
    assert_eq!(
        decode(&bytes, Compress::No).unwrap_err(),
        DeserializationError::NotOnCurve
    );
    let mut bytes = G1Affine::generator().serialize_uncompressed();
    bytes[0] ^= 1;
    assert_eq!(
        decode(&bytes, Compress::No).unwrap_err(),
        DeserializationError::NotOnCurve
    );
}

#[test]
fn unreduced_coordinates_are_rejected() {
    let q = modulus_limbs();
    let mut bytes = Vec::new();
    for limb in q.iter() {
        bytes.extend_from_slice(&limb.to_le_bytes());
    }
    bytes.truncate(98);
    assert_eq!(bytes[97], 56);
    assert_eq!(
        decode(&bytes, Compress::Yes).unwrap_err(),
        DeserializationError::NotOnCurve
    );
    let mut full = G1Affine::generator().serialize_uncompressed();
    full[..98].copy_from_slice(&bytes);
    assert_eq!(
        decode(&full, Compress::No).unwrap_err(),
        DeserializationError::NotOnCurve
    );
    let mut high = G1Affine::generator().serialize_uncompressed();
    high[97] |= 0x80;
    assert_eq!(
        decode(&high, Compress::No).unwrap_err(),
        DeserializationError::NotOnCurve
    );
}

#[test]
fn both_flags_are_rejected() {
    let mut c = G1Affine::generator().serialize_compressed();
    c[97] |= 0xc0;
    assert_eq!(
        decode(&c, Compress::Yes).unwrap_err(),
        DeserializationError::InconsistentInfinityFlag
    );
    let mut u = G1Affine::generator().serialize_uncompressed();
    u[195] |= 0xc0;
    assert_eq!(
        decode(&u, Compress::No).unwrap_err(),
        DeserializationError::InconsistentInfinityFlag
    );
}

#[test]
fn infinity_flag_with_coordinate_bits_is_rejected() {
    let mut c = G1Affine::identity().serialize_compressed();
    c[0] = 1;
    assert_eq!(
        decode(&c, Compress::Yes).unwrap_err(),
        DeserializationError::InconsistentInfinityFlag
    );
    let mut c = G1Affine::identity().serialize_compressed();
    c[97] |= 1;
    assert_eq!(
        decode(&c, Compress::Yes).unwrap_err(),
        DeserializationError::InconsistentInfinityFlag
    );
    let mut u = G1Affine::identity().serialize_uncompressed();
    u[100] = 7;
    assert_eq!(
        decode(&u, Compress::No).unwrap_err(),
        DeserializationError::InconsistentInfinityFlag
    );
    let mut g = G1Affine::generator().serialize_compressed();
    g[97] |= 0x40;
    assert_eq!(
        decode(&g, Compress::Yes).unwrap_err(),
        DeserializationError::InconsistentInfinityFlag
    );
}

#[test]
fn uncompressed_decoding_ignores_the_sign_flag() {
    let gen = G1Affine::generator();
    let mut bytes = gen.serialize_uncompressed();
    assert_eq!(bytes[195] & 0x80, 0);
    bytes[195] |= 0x80;
    assert!(decode(&bytes, Compress::No).unwrap().equals(&gen));
}

#[test]
fn prepared_points_encode_as_their_point() {
    let p = G1Prepared::default();
    for mode in [Compress::Yes, Compress::No] {
        let bytes = p.serialize_with_mode(mode);
        assert_eq!(bytes, encode(&G1Affine::generator(), mode));
        let back = G1Prepared::deserialize_with_mode(&bytes, mode).unwrap();
        assert!(back.0.equals(&p.0));
    }
    assert_eq!(
        G1Prepared::deserialize_with_mode(&[1, 2, 3], Compress::Yes).unwrap_err(),
        DeserializationError::InvalidLength
    );
}

#[test]
fn field_elements_round_trip_through_bytes() {
    let x = G1Affine::generator().x;
    let bytes = x.to_bytes_le();
    assert_eq!(bytes.len(), 98);
    assert!(Fq::from_bytes_le(&bytes).unwrap().equals(&x));
    assert_eq!(Fq::from_u64(0x0102).to_bytes_le()[..3], [2, 1, 0]);
    assert!(Fq::from_bytes_le(&field_bytes(77))
        .unwrap()
        .equals(&Fq::from_u64(77)));
}
