//! Why the group law stays on the curve.
//!
//! A line `y = lam x + mu` meets the curve where the cubic
//! `g(X) = X^3 + a X + b - (lam X + mu)^2` vanishes. The abscissas of two of
//! the meeting points and the slope give the third: the three add up to
//! `lam^2`.
use crate::algebra::{
    eqm, lemma_cancel, lemma_eqm_add, lemma_eqm_add_int, lemma_eqm_mul,
    lemma_eqm_mul_int, lemma_eqm_sub, lemma_eqm_sub_int, lemma_neg_square,
};
use crate::curve::{
    chord_slope, coeff_a, coeff_b, curve_rhs, ec_add, ec_double, ec_mul, ec_neg, ec_third,
    on_curve, tangent_slope, Point,
};
use crate::fq::{fq_add, fq_mul, fq_sub, is_field, modulus};
use crate::group_law::{lemma_chord_slope, lemma_sub_nonzero, lemma_tangent_slope, lemma_third};
use vstd::prelude::*;

verus! {

/// `x1^2 + x1 x2 + x2^2 + a - lam^2 (x1 + x2) - 2 lam (y1 - lam x1)`: the
/// quotient of `g(x2) - g(x1)` by `x2 - x1` for the line of slope `lam`
/// through `(x1, y1)`.
pub open spec fn secant(a: int, lam: int, x1: int, y1: int, x2: int) -> int {
    (x1 * x1 + x1 * x2 + x2 * x2) + a - lam * (lam * (x1 + x2) + 2 * (y1 - lam * x1))
}

/// The curve equation as a congruence.
proof fn lemma_on_curve_congruence(x: nat, y: nat)
    ensures
        on_curve(x, y) ==> eqm(
            y as int * y as int,
            (x as int * x as int) * x as int + coeff_a() as int * x as int + coeff_b() as int,
        ),
        x < modulus() && y < modulus() && eqm(
            y as int * y as int,
            (x as int * x as int) * x as int + coeff_a() as int * x as int + coeff_b() as int,
        ) ==> on_curve(x, y),
{
    let (xi, yi) = (x as int, y as int);
    let (a, b) = (coeff_a() as int, coeff_b() as int);
    lemma_eqm_mul(y, yi, y, yi);
    lemma_eqm_mul(x, xi, x, xi);
    lemma_eqm_mul(fq_mul(x, x), xi * xi, x, xi);
    lemma_eqm_mul(coeff_a(), a, x, xi);
    lemma_eqm_add(fq_mul(fq_mul(x, x), x), (xi * xi) * xi, fq_mul(coeff_a(), x), a * xi);
    lemma_eqm_add(
        fq_add(fq_mul(fq_mul(x, x), x), fq_mul(coeff_a(), x)),
        (xi * xi) * xi + a * xi,
        coeff_b(),
        b,
    );
    if x < modulus() && y < modulus() && eqm(yi * yi, (xi * xi) * xi + a * xi + b) {
        crate::algebra::lemma_eqm_reduced(fq_mul(y, y), curve_rhs(x));
    }
}

/// `g(x3) - g(x1) == (x3 - x1) * secant`, for the cubic `g` of the line of
/// slope `lam` through `(x1, y1)`.
proof fn lemma_cubic_difference(a: int, b: int, lam: int, x1: int, y1: int, x3: int)
    ensures
        ((x3 * x3) * x3 + a * x3 + b) - (lam * x3 + (y1 - lam * x1)) * (lam * x3 + (y1 - lam * x1))
            == (((x1 * x1) * x1 + a * x1 + b) - y1 * y1) + (x3 - x1) * secant(a, lam, x1, y1, x3),
{
    let mu = y1 - lam * x1;
    let d = x3 - x1;
    let sq = x1 * x1 + x1 * x3 + x3 * x3;
    let ln = lam * (x1 + x3) + 2 * mu;
    let v3 = lam * x3 + mu;
    assert((x3 * x3) * x3 - (x1 * x1) * x1 == d * sq) by (nonlinear_arith)
        requires
            d == x3 - x1,
            sq == x1 * x1 + x1 * x3 + x3 * x3,
    ;
    assert(v3 - y1 == lam * d) by (nonlinear_arith)
        requires
            v3 == lam * x3 + mu,
            mu == y1 - lam * x1,
            d == x3 - x1,
    ;
    assert(v3 + y1 == ln) by (nonlinear_arith)
        requires
            v3 == lam * x3 + mu,
            mu == y1 - lam * x1,
            ln == lam * (x1 + x3) + 2 * mu,
    ;
    assert(v3 * v3 - y1 * y1 == (v3 - y1) * (v3 + y1)) by (nonlinear_arith);
    assert((lam * d) * ln == d * (lam * ln)) by (nonlinear_arith);
    assert(a * x3 - a * x1 == d * a) by (nonlinear_arith)
        requires
            d == x3 - x1,
    ;
    assert(d * sq + d * a - d * (lam * ln) == d * (sq + a - lam * ln)) by (nonlinear_arith);
}

/// The third point of a line is on the curve, given that the first is and
/// that the secant quantity of the first two abscissas vanishes.
proof fn lemma_third_on_curve(
    a: int,
    b: int,
    lam: int,
    x1: int,
    y1: int,
    x2: int,
    x3: int,
    y3: int,
)
    requires
        eqm(y1 * y1, (x1 * x1) * x1 + a * x1 + b),
        eqm(secant(a, lam, x1, y1, x2), 0),
        eqm(x3, lam * lam - x1 - x2),
        eqm(y3, lam * (x1 - x3) - y1),
    ensures
        eqm(y3 * y3, (x3 * x3) * x3 + a * x3 + b),
{
    let mu = y1 - lam * x1;
    let v3 = lam * x3 + mu;
    let w = (x3 + x2 + x1) - lam * lam;
    let s2 = secant(a, lam, x1, y1, x2);
    let s3 = secant(a, lam, x1, y1, x3);
    let g1 = ((x1 * x1) * x1 + a * x1 + b) - y1 * y1;
    let c3 = (x3 * x3) * x3 + a * x3 + b;
    // the three abscissas add up to lam^2
    lemma_eqm_sub_int(x3, lam * lam - x1 - x2, lam * lam - x1 - x2, lam * lam - x1 - x2);
    assert(eqm(w, 0));
    lemma_eqm_mul_int(x3 - x2, x3 - x2, w, 0);
    assert((x3 - x2) * 0 == 0);
    assert(s3 - s2 == (x3 - x2) * w) by (nonlinear_arith)
        requires
            s2 == (x1 * x1 + x1 * x2 + x2 * x2) + a - lam * (lam * (x1 + x2) + 2 * (y1 - lam * x1)),
            s3 == (x1 * x1 + x1 * x3 + x3 * x3) + a - lam * (lam * (x1 + x3) + 2 * (y1 - lam * x1)),
            w == (x3 + x2 + x1) - lam * lam,
    ;
    lemma_eqm_add_int(s2, 0, (x3 - x2) * w, 0);
    assert(eqm(s3, 0));
    // so the cubic vanishes at the third as at the first
    lemma_eqm_mul_int(x3 - x1, x3 - x1, s3, 0);
    assert((x3 - x1) * 0 == 0);
    lemma_eqm_sub_int((x1 * x1) * x1 + a * x1 + b, y1 * y1, y1 * y1, y1 * y1);
    lemma_cubic_difference(a, b, lam, x1, y1, x3);
    lemma_eqm_add_int(g1, 0, (x3 - x1) * s3, 0);
    assert(eqm(c3 - v3 * v3, 0));
    lemma_eqm_add_int(c3 - v3 * v3, 0, v3 * v3, v3 * v3);
    assert(eqm(c3, v3 * v3));
    // and y3 is the negative of the ordinate of the line there
    assert(lam * (x1 - x3) - y1 == 0 - v3) by (nonlinear_arith)
        requires
            v3 == lam * x3 + mu,
            mu == y1 - lam * x1,
    ;
    lemma_eqm_mul_int(y3, 0 - v3, y3, 0 - v3);
    assert((0 - v3) * (0 - v3) == v3 * v3) by (nonlinear_arith);
}

/// The secant quantity of the tangent vanishes.
proof fn lemma_tangent_secant(a: int, lam: int, x: int, y: int)
    requires
        eqm(lam * (2 * y), 3 * (x * x) + a),
    ensures
        eqm(secant(a, lam, x, y, x), 0),
{
    assert(secant(a, lam, x, y, x) == (3 * (x * x) + a) - lam * (2 * y)) by (nonlinear_arith)
        requires
            secant(a, lam, x, y, x) == (x * x + x * x + x * x) + a - lam * (lam * (x + x) + 2 * (y
                - lam * x)),
    ;
    lemma_eqm_sub_int(3 * (x * x) + a, lam * (2 * y), lam * (2 * y), lam * (2 * y));
}

/// In a field, the secant quantity of a chord between points of the curve
/// vanishes.
proof fn lemma_chord_secant(lam: nat, x1: nat, y1: nat, x2: nat, y2: nat)
    requires
        is_field(),
        x1 < modulus(),
        x2 < modulus(),
        x1 != x2,
        on_curve(x1, y1),
        on_curve(x2, y2),
        eqm(lam as int * (x2 as int - x1 as int), y2 as int - y1 as int),
    ensures
        eqm(secant(coeff_a() as int, lam as int, x1 as int, y1 as int, x2 as int), 0),
{
    let (a, b) = (coeff_a() as int, coeff_b() as int);
    let (l, a1, b1, a2, b2) = (lam as int, x1 as int, y1 as int, x2 as int, y2 as int);
    let mu = b1 - l * a1;
    let v2 = l * a2 + mu;
    let s = secant(a, l, a1, b1, a2);
    let t = fq_sub(x2, x1);
    let c1 = (a1 * a1) * a1 + a * a1 + b;
    let c2 = (a2 * a2) * a2 + a * a2 + b;
    lemma_on_curve_congruence(x1, y1);
    lemma_on_curve_congruence(x2, y2);
    // the second point lies on the line
    assert(v2 == b1 + l * (a2 - a1)) by (nonlinear_arith)
        requires
            v2 == l * a2 + mu,
            mu == b1 - l * a1,
    ;
    lemma_eqm_add_int(b1, b1, l * (a2 - a1), b2 - b1);
    assert(eqm(v2, b2));
    lemma_eqm_mul_int(v2, b2, v2, b2);
    // so the cubic vanishes at both abscissas
    lemma_eqm_sub_int(c2, b2 * b2, v2 * v2, b2 * b2);
    lemma_eqm_sub_int(c1, b1 * b1, b1 * b1, b1 * b1);
    lemma_cubic_difference(a, b, l, a1, b1, a2);
    lemma_eqm_sub_int(c2 - v2 * v2, 0, c1 - b1 * b1, 0);
    assert(eqm((a2 - a1) * s, 0));
    // and x2 - x1 cancels
    lemma_sub_nonzero(x2, x1);
    lemma_eqm_sub(x2, a2, x1, a1);
    lemma_eqm_mul_int(t as int, a2 - a1, s, s);
    assert(t * 0 == 0);
    lemma_cancel(t, s, 0);
}

/// In a field, the chord rule gives a point of the curve.
pub proof fn lemma_chord_on_curve(x1: nat, y1: nat, x2: nat, y2: nat)
    requires
        is_field(),
        x1 < modulus(),
        y1 < modulus(),
        x2 < modulus(),
        y2 < modulus(),
        x1 != x2,
        on_curve(x1, y1),
        on_curve(x2, y2),
    ensures
        ec_third(chord_slope(x1, y1, x2, y2), x1, y1, x2).on_curve(),
{
    let lam = chord_slope(x1, y1, x2, y2);
    let e = ec_third(lam, x1, y1, x2);
    lemma_chord_slope(x1, y1, x2, y2);
    lemma_chord_secant(lam, x1, y1, x2, y2);
    lemma_third(lam, x1, y1, x2);
    lemma_on_curve_congruence(x1, y1);
    lemma_third_on_curve(
        coeff_a() as int,
        coeff_b() as int,
        lam as int,
        x1 as int,
        y1 as int,
        x2 as int,
        e->x as int,
        e->y as int,
    );
    lemma_on_curve_congruence(e->x, e->y);
}

/// In a field, the tangent rule gives a point of the curve.
pub proof fn lemma_tangent_on_curve(x: nat, y: nat)
    requires
        is_field(),
        x < modulus(),
        0 < y < modulus(),
        on_curve(x, y),
    ensures
        ec_third(tangent_slope(x, y), x, y, x).on_curve(),
{
    let lam = tangent_slope(x, y);
    let e = ec_third(lam, x, y, x);
    lemma_tangent_slope(x, y);
    lemma_tangent_secant(coeff_a() as int, lam as int, x as int, y as int);
    lemma_third(lam, x, y, x);
    lemma_on_curve_congruence(x, y);
    lemma_third_on_curve(
        coeff_a() as int,
        coeff_b() as int,
        lam as int,
        x as int,
        y as int,
        x as int,
        e->x as int,
        e->y as int,
    );
    lemma_on_curve_congruence(e->x, e->y);
}

/// The inverse of a point of the curve is a point of the curve.
pub proof fn law_neg_on_curve(p: Point)
    requires
        p.on_curve(),
    ensures
        ec_neg(p).on_curve(),
{
    match p {
        Point::Infinity => {},
        Point::Finite { x, y } => {
            lemma_neg_square(y);
        },
    }
}

/// In a field, the double of a point of the curve is a point of the curve.
pub proof fn law_double_on_curve(p: Point)
    requires
        is_field(),
        p.reduced(),
        p.on_curve(),
    ensures
        ec_double(p).on_curve(),
        ec_double(p).reduced(),
{
    match p {
        Point::Infinity => {},
        Point::Finite { x, y } => {
            if y != 0 {
                lemma_tangent_on_curve(x, y);
                lemma_third(tangent_slope(x, y), x, y, x);
            }
        },
    }
}

/// In a field, the sum of two points of the curve is a point of the curve.
pub proof fn law_add_on_curve(p: Point, q: Point)
    requires
        is_field(),
        p.reduced(),
        q.reduced(),
        p.on_curve(),
        q.on_curve(),
    ensures
        ec_add(p, q).on_curve(),
        ec_add(p, q).reduced(),
{
    match (p, q) {
        (Point::Finite { x: x1, y: y1 }, Point::Finite { x: x2, y: y2 }) => {
            if x1 != x2 {
                lemma_chord_on_curve(x1, y1, x2, y2);
                lemma_third(chord_slope(x1, y1, x2, y2), x1, y1, x2);
            } else {
                law_double_on_curve(p);
            }
        },
        _ => {},
    }
}

/// In a field, every multiple of a point of the curve is a point of the
/// curve.
pub proof fn law_mul_on_curve(k: nat, p: Point)
    requires
        is_field(),
        p.reduced(),
        p.on_curve(),
    ensures
        ec_mul(k, p).on_curve(),
        ec_mul(k, p).reduced(),
    decreases k,
{
    if k > 0 {
        law_mul_on_curve(k / 2, p);
        law_double_on_curve(ec_mul(k / 2, p));
        law_add_on_curve(ec_double(ec_mul(k / 2, p)), p);
    }
}

} // verus!
