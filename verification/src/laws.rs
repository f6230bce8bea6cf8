//! The laws of the group and of the encoding.
//!
//! The laws speak of the affine model of [`crate::curve`], over which the
//! executable functions state their results. Those that need division to
//! behave take [`is_field`] as a hypothesis.
use crate::algebra::{
    eqm, lemma_cancel, lemma_eqm_add_int, lemma_eqm_mul_int, lemma_eqm_reduced,
    lemma_eqm_sub, lemma_eqm_sub_int, lemma_neg_square,
};
use crate::codec::{
    decode_compressed, decode_spec, encode_spec, encoded_len, flags_of_byte, with_flags,
    without_flags, y_flags, Compress, DeserializationError, PointFlags,
};
use crate::curve::{
    chord_slope, curve_rhs, ec_add, ec_double, ec_mul, ec_neg, ec_third, jac_add, jac_double,
    jac_from, jac_point, on_curve, Jacobian, Point,
};
use crate::fq::{fq_neg, fq_sqrt, fq_sub, lemma_modulus_bits, is_field, modulus, sqrt_from};
use crate::group_law::{lemma_chord_slope, lemma_from_point, lemma_sub_nonzero, lemma_third};
use crate::roots::lemma_sqrt_of_square;
use crate::limbs::{
    byte_pow, bytes_value, le_bytes, lemma_bytes_take_step, lemma_le_bytes_value,
};
use vstd::arithmetic::div_mod::{lemma_fundamental_div_mod_converse, lemma_small_mod};
use vstd::prelude::*;

verus! {

/// The point at infinity is neutral: `p + 0 = p` and `0 + p = p`.
pub proof fn law_add_identity(p: Point)
    ensures
        ec_add(p, Point::Infinity) == p,
        ec_add(Point::Infinity, p) == p,
{
}

/// Every point has an inverse: `p + (-p) = 0`.
pub proof fn law_add_inverse(p: Point)
    requires
        p.reduced(),
    ensures
        ec_add(p, ec_neg(p)) == Point::Infinity,
        ec_add(ec_neg(p), p) == Point::Infinity,
{
    match p {
        Point::Infinity => {},
        Point::Finite { x, y } => {
            if y == 0 {
                lemma_small_mod(0, modulus());
            } else {
                assert(modulus() % 2 == 1);
                lemma_fundamental_div_mod_converse(
                    0 - y as int,
                    modulus() as int,
                    -1,
                    modulus() as int - y as int,
                );
            }
        },
    }
}

/// In a field, the chord through two points has one slope, whichever point
/// comes first.
proof fn lemma_chord_slope_symmetric(x1: nat, y1: nat, x2: nat, y2: nat)
    requires
        is_field(),
        x1 < modulus(),
        y1 < modulus(),
        x2 < modulus(),
        y2 < modulus(),
        x1 != x2,
    ensures
        chord_slope(x1, y1, x2, y2) == chord_slope(x2, y2, x1, y1),
{
    let l1 = chord_slope(x1, y1, x2, y2);
    let l2 = chord_slope(x2, y2, x1, y1);
    let t = fq_sub(x2, x1);
    let (a1, b1, a2, b2) = (x1 as int, y1 as int, x2 as int, y2 as int);
    let (l1i, l2i, ti) = (l1 as int, l2 as int, t as int);
    lemma_chord_slope(x1, y1, x2, y2);
    lemma_chord_slope(x2, y2, x1, y1);
    lemma_sub_nonzero(x2, x1);
    lemma_eqm_sub(x2, a2, x1, a1);
    lemma_eqm_mul_int(-1, -1, l2i * (a1 - a2), b1 - b2);
    assert(-1 * (l2i * (a1 - a2)) == (a2 - a1) * l2i) by (nonlinear_arith);
    assert(l1i * (a2 - a1) == (a2 - a1) * l1i) by (nonlinear_arith);
    lemma_eqm_mul_int(ti, a2 - a1, l1i, l1i);
    lemma_eqm_mul_int(ti, a2 - a1, l2i, l2i);
    lemma_cancel(t, l1i, l2i);
    lemma_eqm_reduced(l1, l2);
}

/// The third point on a chord is the same from either end.
proof fn lemma_third_symmetric(l: nat, x1: nat, y1: nat, x2: nat, y2: nat)
    requires
        eqm(l as int * (x1 as int - x2 as int), y1 as int - y2 as int),
    ensures
        ec_third(l, x1, y1, x2) == ec_third(l, x2, y2, x1),
{
    let (a1, b1, a2, b2) = (x1 as int, y1 as int, x2 as int, y2 as int);
    let li = l as int;
    let e1 = ec_third(l, x1, y1, x2);
    let e2 = ec_third(l, x2, y2, x1);
    lemma_third(l, x1, y1, x2);
    lemma_third(l, x2, y2, x1);
    lemma_eqm_reduced(e1->x, e2->x);
    let ex = e1->x as int;
    assert(li * (a1 - ex) - b1 == (li * (a2 - ex) - b2) + (li * (a1 - a2) - (b1 - b2)))
        by (nonlinear_arith);
    lemma_eqm_sub_int(li * (a1 - a2), b1 - b2, b1 - b2, b1 - b2);
    lemma_eqm_add_int(li * (a2 - ex) - b2, li * (a2 - ex) - b2, li * (a1 - a2) - (b1 - b2), 0);
    lemma_eqm_reduced(e1->y, e2->y);
}

/// In a field, addition is commutative: `p + q = q + p`.
pub proof fn law_add_commutative(p: Point, q: Point)
    requires
        is_field(),
        p.reduced(),
        q.reduced(),
    ensures
        ec_add(p, q) == ec_add(q, p),
{
    match (p, q) {
        (Point::Finite { x: x1, y: y1 }, Point::Finite { x: x2, y: y2 }) => {
            if x1 != x2 {
                lemma_chord_slope_symmetric(x1, y1, x2, y2);
                lemma_chord_slope(x2, y2, x1, y1);
                lemma_third_symmetric(chord_slope(x1, y1, x2, y2), x1, y1, x2, y2);
            }
        },
        _ => {},
    }
}

/// Doubling is adding a point to itself, in the model and in Jacobian
/// coordinates.
pub proof fn law_double_is_self_addition(p: Point, j: Jacobian)
    ensures
        ec_add(p, p) == ec_double(p),
        jac_add(j, j) == jac_double(j),
{
    reveal(jac_add);
    reveal(jac_double);
}

/// The first multiples by double-and-add are the sums of as many copies:
/// `0 p = 0`, `1 p = p`, `2 p = p + p` and `3 p = (p + p) + p`.
pub proof fn law_small_multiples(p: Point)
    ensures
        ec_mul(0, p) == Point::Infinity,
        ec_mul(1, p) == p,
        ec_mul(2, p) == ec_add(p, p),
        ec_mul(3, p) == ec_add(ec_add(p, p), p),
{
    reveal_with_fuel(ec_mul, 3);
}

/// An affine point passed to Jacobian coordinates and back is the point
/// again.
pub proof fn law_affine_projective_round_trip(p: Point)
    requires
        p.reduced(),
    ensures
        jac_point(jac_from(p)) == p,
{
    lemma_from_point(p);
}

/// The encoding of a canonical field element: 98 bytes that denote it,
/// with the two high bits of the last byte clear.
pub proof fn lemma_encoded_field_element(v: nat)
    requires
        v < modulus(),
    ensures
        le_bytes(v, 98).len() == 98,
        bytes_value(le_bytes(v, 98)) == v,
        le_bytes(v, 98)[97] < 64,
{
    lemma_modulus_bits();
    lemma_le_bytes_value(v, 98);
    let s = le_bytes(v, 98);
    lemma_bytes_take_step(s, 97);
    assert(s.take(98) =~= s);
    let top = s[97] as nat;
    let w = byte_pow(97);
    assert(top < 64) by (nonlinear_arith)
        requires
            top * w < 64 * w,
    ;
}

/// Flag bits put on the encoding of a field element are read back, and
/// clearing them restores the encoding.
pub proof fn lemma_flags_round_trip(v: nat, f: PointFlags)
    requires
        v < modulus(),
    ensures
        with_flags(le_bytes(v, 98), f).len() == 98,
        flags_of_byte(with_flags(le_bytes(v, 98), f).last()) == Some(f),
        without_flags(with_flags(le_bytes(v, 98), f)) == le_bytes(v, 98),
{
    lemma_encoded_field_element(v);
    let s = le_bytes(v, 98);
    assert(without_flags(with_flags(s, f)) =~= s);
}

/// The point at infinity is decoded from its encoding, in both forms.
pub proof fn law_infinity_round_trip(c: Compress)
    ensures
        decode_spec(encode_spec(Point::Infinity, c), c) == Ok::<Point, DeserializationError>(
            Point::Infinity,
        ),
{
}

/// A point of the curve is decoded from its uncompressed encoding.
pub proof fn law_uncompressed_round_trip(p: Point)
    requires
        p.reduced(),
        p.on_curve(),
    ensures
        decode_spec(encode_spec(p, Compress::No), Compress::No) == Ok::<
            Point,
            DeserializationError,
        >(p),
{
    match p {
        Point::Infinity => {},
        Point::Finite { x, y } => {
            let f = y_flags(y);
            let head = le_bytes(x, 98);
            let tail = with_flags(le_bytes(y, 98), f);
            let bytes = head + tail;
            lemma_encoded_field_element(x);
            lemma_flags_round_trip(y, f);
            lemma_encoded_field_element(y);
            assert(bytes.take(98) =~= head);
            assert(bytes.skip(98) =~= tail);
            assert(bytes.last() == tail.last());
        },
    }
}

/// A point of the curve is decoded from its compressed encoding, provided
/// that the square root taken of `x^3 + a x + b` is `y` or `-y`.
pub proof fn law_compressed_round_trip_given_root(p: Point)
    requires
        p.reduced(),
        p matches Point::Finite { x, y } ==> (fq_sqrt(curve_rhs(x)) matches Some(s) && (s == y || s
            == fq_neg(y))),
    ensures
        decode_spec(encode_spec(p, Compress::Yes), Compress::Yes) == Ok::<
            Point,
            DeserializationError,
        >(p),
{
    match p {
        Point::Infinity => {},
        Point::Finite { x, y } => {
            let f = y_flags(y);
            let bytes = with_flags(le_bytes(x, 98), f);
            lemma_flags_round_trip(x, f);
            lemma_encoded_field_element(x);
            lemma_neg_involution(y);
            assert(decode_compressed(x, f) == Ok::<Point, DeserializationError>(p));
        },
    }
}

/// Negating twice gives the residue again.
pub proof fn lemma_neg_involution(y: nat)
    requires
        y < modulus(),
    ensures
        fq_neg(fq_neg(y)) == y,
        fq_neg(y) < modulus(),
{
    if y == 0 {
        lemma_small_mod(0, modulus());
    } else {
        lemma_fundamental_div_mod_converse(
            0 - y as int,
            modulus() as int,
            -1,
            modulus() as int - y as int,
        );
        lemma_fundamental_div_mod_converse(
            0 - (modulus() as int - y as int),
            modulus() as int,
            -1,
            y as int,
        );
    }
}

/// A buffer of the wrong length is rejected as such.
pub proof fn law_decode_rejects_wrong_length(bytes: Seq<u8>, c: Compress)
    requires
        bytes.len() != encoded_len(c),
    ensures
        decode_spec(bytes, c) == Err::<Point, DeserializationError>(
            DeserializationError::InvalidLength,
        ),
{
}

/// A compressed abscissa above which the curve has no point is rejected.
pub proof fn law_decode_rejects_abscissa_without_point(x: nat, f: PointFlags)
    requires
        fq_sqrt(curve_rhs(x)) is None,
    ensures
        decode_compressed(x, f) == Err::<Point, DeserializationError>(
            DeserializationError::NotOnCurve,
        ),
{
}

/// Every point that is decoded is a point of the curve with canonical
/// coordinates.
pub proof fn law_decoded_points_are_valid(bytes: Seq<u8>, c: Compress)
    ensures
        decode_spec(bytes, c) matches Ok(p) ==> p.on_curve() && p.reduced(),
{
    if decode_spec(bytes, c) is Ok && c == Compress::Yes && flags_of_byte(bytes.last())
        != Some(PointFlags::PointAtInfinity) {
        let x = bytes_value(without_flags(bytes));
        let y = fq_sqrt(curve_rhs(x))->0;
        reveal_with_fuel(sqrt_from, 5);
        lemma_neg_square(y);
    }
}

/// In a field, a point of the curve is decoded from its compressed
/// encoding.
pub proof fn law_compressed_round_trip(p: Point)
    requires
        is_field(),
        p.reduced(),
        p.on_curve(),
    ensures
        decode_spec(encode_spec(p, Compress::Yes), Compress::Yes) == Ok::<
            Point,
            DeserializationError,
        >(p),
{
    match p {
        Point::Infinity => {},
        Point::Finite { x, y } => {
            lemma_sqrt_of_square(y);
        },
    }
    law_compressed_round_trip_given_root(p);
}

/// In a field, a point of the curve is decoded from its encoding, in both
/// forms.
pub proof fn law_codec_round_trip(p: Point, c: Compress)
    requires
        is_field(),
        p.reduced(),
        p.on_curve(),
    ensures
        decode_spec(encode_spec(p, c), c) == Ok::<Point, DeserializationError>(p),
{
    match c {
        Compress::Yes => law_compressed_round_trip(p),
        Compress::No => law_uncompressed_round_trip(p),
    }
}

/// In a field, a compressed abscissa is rejected only if the curve has no
/// point above it.
pub proof fn law_rejected_abscissa_has_no_point(x: nat, f: PointFlags, y: nat)
    requires
        is_field(),
        x < modulus(),
        y < modulus(),
        decode_compressed(x, f) is Err,
    ensures
        !on_curve(x, y),
{
    lemma_sqrt_of_square(y);
}

} // verus!
