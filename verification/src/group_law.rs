//! Why the Jacobian formulas compute the group law.
//!
//! Jacobian coordinates `(X, Y, Z)` with `Z != 0` stand for the affine point
//! `(x, y)` with `X = x Z^2` and `Y = y Z^3`. The lemmas here show, for a
//! base field that is a field, that doubling and adding coordinates doubles
//! and adds the points they stand for.
use crate::algebra::{
    eqm, lemma_cancel, lemma_eqm_add, lemma_eqm_add_int, lemma_eqm_mul,
    lemma_eqm_mul_int, lemma_eqm_reduced, lemma_eqm_sub, lemma_eqm_sub_int,
    lemma_no_zero_divisors, lemma_unit,
};
use crate::curve::{
    chord_i, chord_r, chord_slope, coeff_a, ec_add, ec_double, ec_mul, ec_neg, ec_third, jac_add,
    jac_add_s, jac_add_u, jac_chord, jac_double, jac_double_m, jac_double_s, jac_double_t,
    jac_from, jac_mul, jac_neg, jac_point, jac_same, lemma_ec_mul_step,
    lemma_jac_mul_step, tangent_slope, Jacobian, Point,
};
use crate::fq::{fq_add, fq_inv, fq_mul, fq_neg, fq_sub, is_field, modulus};
use vstd::arithmetic::power::lemma1_pow;
use vstd::arithmetic::div_mod::{lemma_fundamental_div_mod_converse, lemma_small_mod};
use vstd::prelude::*;

verus! {

/// `x * z^2` in the field.
pub open spec fn scale2(x: nat, z: nat) -> nat {
    fq_mul(x, fq_mul(z, z))
}

/// `y * z^3` in the field.
pub open spec fn scale3(y: nat, z: nat) -> nat {
    fq_mul(y, fq_mul(fq_mul(z, z), z))
}

/// The coordinates `j` stand for the point `p`: `Z == 0` for the point at
/// infinity, and otherwise `X == x Z^2` and `Y == y Z^3`.
pub open spec fn represents(j: Jacobian, p: Point) -> bool {
    match p {
        Point::Infinity => j.z == 0,
        Point::Finite { x, y } => j.z != 0 && j.x == scale2(x, j.z) && j.y == scale3(y, j.z),
    }
}

/// The algebra of the tangent rule. With `X = x Z^2`, `Y = y Z^3` and a
/// slope `lam` with `lam * 2 y = 3 x^2 + a`, the doubled coordinates
/// `(x3, y3, z3)` stand for the point `(ex3, ey3)` of the tangent rule.
proof fn lemma_double_core(
    a: int,
    lam: int,
    x: int,
    y: int,
    xq: int,
    yq: int,
    zq: int,
    m: int,
    s: int,
    y8: int,
    z3: int,
    x3: int,
    y3: int,
    ex3: int,
    ey3: int,
)
    requires
        eqm(xq, x * (zq * zq)),
        eqm(yq, y * ((zq * zq) * zq)),
        eqm(lam * (2 * y), 3 * (x * x) + a),
        eqm(m, 3 * (xq * xq) + a * ((zq * zq) * (zq * zq))),
        eqm(z3, 2 * (yq * zq)),
        eqm(s, 4 * (xq * (yq * yq))),
        eqm(y8, 8 * ((yq * yq) * (yq * yq))),
        eqm(ex3, lam * lam - 2 * x),
        eqm(x3, m * m - 2 * s),
        eqm(ey3, lam * (x - ex3) - y),
        eqm(y3, m * (s - x3) - y8),
    ensures
        eqm(ex3 * (z3 * z3), x3),
        eqm(ey3 * ((z3 * z3) * z3), y3),
{
    let zz = zq * zq;
    let zzz = zz * zq;
    let yz = yq * zq;
    let z3sq = z3 * z3;
    let z3cu = z3sq * z3;
    // lam * z3 == m
    lemma_eqm_mul_int(yq, y * zzz, zq, zq);
    lemma_eqm_mul_int(2, 2, yz, (y * zzz) * zq);
    lemma_eqm_mul_int(lam, lam, z3, 2 * ((y * zzz) * zq));
    assert(lam * (2 * ((y * zzz) * zq)) == (lam * (2 * y)) * (zz * zz)) by (nonlinear_arith)
        requires
            zz == zq * zq,
            zzz == zz * zq,
    ;
    lemma_eqm_mul_int(lam * (2 * y), 3 * (x * x) + a, zz * zz, zz * zz);
    assert((3 * (x * x) + a) * (zz * zz) == 3 * ((x * zz) * (x * zz)) + a * (zz * zz))
        by (nonlinear_arith);
    lemma_eqm_mul_int(x * zz, xq, x * zz, xq);
    lemma_eqm_mul_int(3, 3, (x * zz) * (x * zz), xq * xq);
    lemma_eqm_add_int(3 * ((x * zz) * (x * zz)), 3 * (xq * xq), a * (zz * zz), a * (zz * zz));
    assert(eqm(lam * z3, m));
    // x * z3^2 == s
    lemma_eqm_mul_int(z3, 2 * yz, z3, 2 * yz);
    lemma_eqm_mul_int(x, x, z3sq, (2 * yz) * (2 * yz));
    assert(x * ((2 * yz) * (2 * yz)) == (4 * (yq * yq)) * (x * zz)) by (nonlinear_arith)
        requires
            zz == zq * zq,
            yz == yq * zq,
    ;
    lemma_eqm_mul_int(4 * (yq * yq), 4 * (yq * yq), x * zz, xq);
    assert((4 * (yq * yq)) * xq == 4 * (xq * (yq * yq))) by (nonlinear_arith);
    assert(eqm(x * z3sq, s));
    // ex3 * z3^2 == x3
    lemma_eqm_mul_int(ex3, lam * lam - 2 * x, z3sq, z3sq);
    assert((lam * lam - 2 * x) * z3sq == (lam * z3) * (lam * z3) - 2 * (x * z3sq))
        by (nonlinear_arith)
        requires
            z3sq == z3 * z3,
    ;
    lemma_eqm_mul_int(lam * z3, m, lam * z3, m);
    lemma_eqm_mul_int(2, 2, x * z3sq, s);
    lemma_eqm_sub_int((lam * z3) * (lam * z3), m * m, 2 * (x * z3sq), 2 * s);
    assert(eqm(ex3 * z3sq, x3));
    // y * z3^3 == y8
    lemma_eqm_mul_int(z3sq, (2 * yz) * (2 * yz), z3, 2 * yz);
    lemma_eqm_mul_int(y, y, z3cu, ((2 * yz) * (2 * yz)) * (2 * yz));
    assert(y * (((2 * yz) * (2 * yz)) * (2 * yz)) == (8 * ((yq * yq) * yq)) * (y * zzz))
        by (nonlinear_arith)
        requires
            zz == zq * zq,
            zzz == zz * zq,
            yz == yq * zq,
    ;
    lemma_eqm_mul_int(8 * ((yq * yq) * yq), 8 * ((yq * yq) * yq), y * zzz, yq);
    assert((8 * ((yq * yq) * yq)) * yq == 8 * ((yq * yq) * (yq * yq))) by (nonlinear_arith);
    assert(eqm(y * z3cu, y8));
    // ey3 * z3^3 == y3
    lemma_eqm_mul_int(ey3, lam * (x - ex3) - y, z3cu, z3cu);
    assert((lam * (x - ex3) - y) * z3cu == (lam * z3) * (x * z3sq - ex3 * z3sq) - y * z3cu)
        by (nonlinear_arith)
        requires
            z3sq == z3 * z3,
            z3cu == z3sq * z3,
    ;
    lemma_eqm_sub_int(x * z3sq, s, ex3 * z3sq, x3);
    lemma_eqm_mul_int(lam * z3, m, x * z3sq - ex3 * z3sq, s - x3);
    lemma_eqm_sub_int((lam * z3) * (x * z3sq - ex3 * z3sq), m * (s - x3), y * z3cu, y8);
}

/// Twice a nonzero residue is nonzero, because the characteristic is odd.
pub proof fn lemma_twice_nonzero(v: nat)
    requires
        0 < v < modulus(),
    ensures
        fq_add(v, v) != 0,
        fq_add(v, v) < modulus(),
{
    assert(modulus() % 2 == 1);
    if v + v < modulus() {
        lemma_small_mod(v + v, modulus());
    } else {
        lemma_small_mod((v + v - modulus()) as nat, modulus());
        vstd::arithmetic::div_mod::lemma_mod_sub_multiples_vanish(
            (v + v) as int,
            modulus() as int,
        );
    }
}

/// Zero times anything is zero.
proof fn lemma_mul_zero(t: nat)
    ensures
        fq_mul(0, t) == 0,
        fq_mul(t, 0) == 0,
{
    assert(0 * t == 0 && t * 0 == 0) by (nonlinear_arith);
    lemma_small_mod(0, modulus());
}

/// In a field, the square and the cube of a nonzero residue are nonzero.
proof fn lemma_powers_nonzero(z: nat)
    requires
        is_field(),
        0 < z < modulus(),
    ensures
        0 < fq_mul(z, z) < modulus(),
        0 < fq_mul(fq_mul(z, z), z) < modulus(),
{
    lemma_no_zero_divisors(z, z);
    lemma_no_zero_divisors(fq_mul(z, z), z);
}

/// In a field, coordinates stand for the point that [`jac_point`] gives.
pub proof fn lemma_point_represents(j: Jacobian)
    requires
        is_field(),
        j.reduced(),
    ensures
        represents(j, jac_point(j)),
        jac_point(j).reduced(),
{
    if j.z != 0 {
        lemma_unit(j.z);
        let z = j.z as int;
        let zi = fq_inv(j.z) as int;
        let zi2 = fq_mul(fq_inv(j.z), fq_inv(j.z));
        let zi3 = fq_mul(zi2, fq_inv(j.z));
        let zz = fq_mul(j.z, j.z);
        let zzz = fq_mul(zz, j.z);
        let x = fq_mul(j.x, zi2);
        let y = fq_mul(j.y, zi3);
        let xq = j.x as int;
        let yq = j.y as int;
        lemma_eqm_mul(fq_inv(j.z), zi, fq_inv(j.z), zi);
        lemma_eqm_mul(zi2, zi * zi, fq_inv(j.z), zi);
        lemma_eqm_mul(j.z, z, j.z, z);
        lemma_eqm_mul(zz, z * z, j.z, z);
        lemma_eqm_mul(j.x, xq, zi2, zi * zi);
        lemma_eqm_mul(j.y, yq, zi3, (zi * zi) * zi);
        lemma_eqm_mul(x, xq * (zi * zi), zz, z * z);
        lemma_eqm_mul(y, yq * ((zi * zi) * zi), zzz, (z * z) * z);
        let u = z * zi;
        assert((xq * (zi * zi)) * (z * z) == xq * (u * u)) by (nonlinear_arith)
            requires
                u == z * zi,
        ;
        assert((yq * ((zi * zi) * zi)) * ((z * z) * z) == yq * ((u * u) * u)) by (nonlinear_arith)
            requires
                u == z * zi,
        ;
        lemma_eqm_mul_int(u, 1, u, 1);
        lemma_eqm_mul_int(u * u, 1, u, 1);
        lemma_eqm_mul_int(xq, xq, u * u, 1);
        lemma_eqm_mul_int(yq, yq, (u * u) * u, 1);
        lemma_eqm_reduced(scale2(x, j.z), j.x);
        lemma_eqm_reduced(scale3(y, j.z), j.y);
    }
}

/// In a field, coordinates stand for one point only.
pub proof fn lemma_represents_unique(j: Jacobian, p: Point, q: Point)
    requires
        is_field(),
        j.reduced(),
        p.reduced(),
        q.reduced(),
        represents(j, p),
        represents(j, q),
    ensures
        p == q,
{
    match (p, q) {
        (Point::Finite { x, y }, Point::Finite { x: x2, y: y2 }) => {
            lemma_powers_nonzero(j.z);
            let zz = fq_mul(j.z, j.z);
            let zzz = fq_mul(zz, j.z);
            lemma_eqm_mul(x, x as int, zz, zz as int);
            lemma_eqm_mul(x2, x2 as int, zz, zz as int);
            lemma_eqm_mul(y, y as int, zzz, zzz as int);
            lemma_eqm_mul(y2, y2 as int, zzz, zzz as int);
            assert(zz * x == x * zz && zz * x2 == x2 * zz) by (nonlinear_arith);
            assert(zzz * y == y * zzz && zzz * y2 == y2 * zzz) by (nonlinear_arith);
            lemma_cancel(zz, x as int, x2 as int);
            lemma_cancel(zzz, y as int, y2 as int);
            lemma_eqm_reduced(x, x2);
            lemma_eqm_reduced(y, y2);
        },
        _ => {},
    }
}


/// The slope of the tangent at a point with `y != 0` satisfies
/// `lam * 2 y == 3 x^2 + a`.
pub proof fn lemma_tangent_slope(x: nat, y: nat)
    requires
        is_field(),
        x < modulus(),
        0 < y < modulus(),
    ensures
        eqm(tangent_slope(x, y) as int * (2 * (y as int)), 3 * (x as int * x as int) + coeff_a() as int),
{
    let (xi, yi) = (x as int, y as int);
    let a = coeff_a() as int;
    let exx = fq_mul(x, x);
    let num = fq_add(fq_add(fq_add(exx, exx), exx), coeff_a());
    let ty = fq_add(y, y);
    let w = fq_inv(ty);
    let lam = fq_mul(num, w);
    let (lami, numi, wi, tyi) = (lam as int, num as int, w as int, ty as int);
    lemma_twice_nonzero(y);
    lemma_unit(ty);
    lemma_eqm_mul(x, xi, x, xi);
    lemma_eqm_add(exx, xi * xi, exx, xi * xi);
    lemma_eqm_add(fq_add(exx, exx), 2 * (xi * xi), exx, xi * xi);
    lemma_eqm_add(fq_add(fq_add(exx, exx), exx), 3 * (xi * xi), coeff_a(), a);
    lemma_eqm_add(y, yi, y, yi);
    lemma_eqm_mul(num, numi, w, wi);
    lemma_eqm_mul_int(lami, numi * wi, 2 * yi, tyi);
    assert((numi * wi) * tyi == numi * (tyi * wi)) by (nonlinear_arith);
    lemma_eqm_mul_int(numi, numi, tyi * wi, 1);
    assert(numi * 1 == numi);
}

/// The coordinates of the third point on a line, in terms of its slope.
pub proof fn lemma_third(lam: nat, x1: nat, y1: nat, x2: nat)
    ensures
        ec_third(lam, x1, y1, x2) matches Point::Finite { x, y } && x < modulus() && y < modulus()
            && eqm(x as int, lam as int * lam as int - x1 as int - x2 as int) && eqm(
            y as int,
            lam as int * (x1 as int - x as int) - y1 as int,
        ),
{
    let lami = lam as int;
    let x3 = fq_sub(fq_sub(fq_mul(lam, lam), x1), x2);
    lemma_eqm_mul(lam, lami, lam, lami);
    lemma_eqm_sub(fq_mul(lam, lam), lami * lami, x1, x1 as int);
    lemma_eqm_sub(fq_sub(fq_mul(lam, lam), x1), lami * lami - x1 as int, x2, x2 as int);
    lemma_eqm_sub(x1, x1 as int, x3, x3 as int);
    lemma_eqm_mul(lam, lami, fq_sub(x1, x3), x1 as int - x3 as int);
    lemma_eqm_sub(
        fq_mul(lam, fq_sub(x1, x3)),
        lami * (x1 as int - x3 as int),
        y1,
        y1 as int,
    );
}

/// The quantities of the doubling formulas as polynomials in the
/// coordinates.
proof fn lemma_jac_double_terms(j: Jacobian)
    ensures
        eqm(
            jac_double_m(j) as int,
            3 * (j.x as int * j.x as int) + coeff_a() as int * ((j.z as int * j.z as int) * (j.z as int
                * j.z as int)),
        ),
        eqm(jac_double_s(j) as int, 4 * (j.x as int * (j.y as int * j.y as int))),
        eqm(
            jac_double_t(j) as int,
            8 * ((j.y as int * j.y as int) * (j.y as int * j.y as int)),
        ),
{
    let a = coeff_a() as int;
    let (xq, yq, zq) = (j.x as int, j.y as int, j.z as int);
    let zz = fq_mul(j.z, j.z);
    let xx = fq_mul(j.x, j.x);
    let yy = fq_mul(j.y, j.y);
    let yyyy = fq_mul(yy, yy);
    let xyy = fq_mul(j.x, yy);
    let s2 = fq_add(xyy, xyy);
    let azz = fq_mul(coeff_a(), fq_mul(zz, zz));
    let y2 = fq_add(yyyy, yyyy);
    let y4 = fq_add(y2, y2);
    let y4q = (yq * yq) * (yq * yq);
    lemma_eqm_mul(j.z, zq, j.z, zq);
    lemma_eqm_mul(j.x, xq, j.x, xq);
    lemma_eqm_add(xx, xq * xq, xx, xq * xq);
    lemma_eqm_add(fq_add(xx, xx), 2 * (xq * xq), xx, xq * xq);
    lemma_eqm_mul(zz, zq * zq, zz, zq * zq);
    lemma_eqm_mul(coeff_a(), a, fq_mul(zz, zz), (zq * zq) * (zq * zq));
    lemma_eqm_add(fq_add(fq_add(xx, xx), xx), 3 * (xq * xq), azz, a * ((zq * zq) * (zq * zq)));
    lemma_eqm_mul(j.y, yq, j.y, yq);
    lemma_eqm_mul(j.x, xq, yy, yq * yq);
    lemma_eqm_add(xyy, xq * (yq * yq), xyy, xq * (yq * yq));
    lemma_eqm_add(s2, 2 * (xq * (yq * yq)), s2, 2 * (xq * (yq * yq)));
    lemma_eqm_mul(yy, yq * yq, yy, yq * yq);
    lemma_eqm_add(yyyy, y4q, yyyy, y4q);
    lemma_eqm_add(y2, 2 * y4q, y2, 2 * y4q);
    lemma_eqm_add(y4, 4 * y4q, y4, 4 * y4q);
}

/// What it means for coordinates to stand for a finite point, as
/// congruences.
proof fn lemma_represents_congruences(j: Jacobian, x: nat, y: nat)
    requires
        represents(j, Point::Finite { x, y }),
    ensures
        eqm(j.x as int, x as int * (j.z as int * j.z as int)),
        eqm(j.y as int, y as int * ((j.z as int * j.z as int) * j.z as int)),
{
    let zq = j.z as int;
    let zz = fq_mul(j.z, j.z);
    lemma_eqm_mul(j.z, zq, j.z, zq);
    lemma_eqm_mul(zz, zq * zq, j.z, zq);
    lemma_eqm_mul(x, x as int, zz, zq * zq);
    lemma_eqm_mul(y, y as int, fq_mul(zz, j.z), (zq * zq) * zq);
}

/// Congruences that say that coordinates stand for a finite point.
proof fn lemma_congruences_represent(j: Jacobian, x: nat, y: nat)
    requires
        j.reduced(),
        j.z != 0,
        eqm(x as int * (j.z as int * j.z as int), j.x as int),
        eqm(y as int * ((j.z as int * j.z as int) * j.z as int), j.y as int),
    ensures
        represents(j, Point::Finite { x, y }),
{
    let zq = j.z as int;
    let zz = fq_mul(j.z, j.z);
    lemma_eqm_mul(j.z, zq, j.z, zq);
    lemma_eqm_mul(zz, zq * zq, j.z, zq);
    lemma_eqm_mul(x, x as int, zz, zq * zq);
    lemma_eqm_mul(y, y as int, fq_mul(zz, j.z), (zq * zq) * zq);
    lemma_eqm_reduced(scale2(x, j.z), j.x);
    lemma_eqm_reduced(scale3(y, j.z), j.y);
}

/// In a field, the doubled coordinates of a point with `y != 0` have
/// `Z != 0`.
proof fn lemma_double_finite(j: Jacobian, x: nat, y: nat)
    requires
        is_field(),
        j.reduced(),
        x < modulus(),
        0 < y < modulus(),
        represents(j, Point::Finite { x, y }),
    ensures
        jac_double(j).z != 0,
        jac_double(j).reduced(),
{
    reveal(jac_double);
    let zzz = fq_mul(fq_mul(j.z, j.z), j.z);
    lemma_powers_nonzero(j.z);
    lemma_no_zero_divisors(y, zzz);
    lemma_no_zero_divisors(j.y, j.z);
    lemma_twice_nonzero(fq_mul(j.y, j.z));
}

/// The doubled coordinates as polynomials in the quantities of the
/// doubling formulas.
proof fn lemma_jac_double_coords(j: Jacobian)
    requires
        j.z != 0,
    ensures
        ({
            let d = jac_double(j);
            let (m, s, t) = (
                jac_double_m(j) as int,
                jac_double_s(j) as int,
                jac_double_t(j) as int,
            );
            &&& eqm(d.z as int, 2 * (j.y as int * j.z as int))
            &&& eqm(d.x as int, m * m - 2 * s)
            &&& eqm(d.y as int, m * (s - d.x as int) - t)
        }),
{
    reveal(jac_double);
    let d = jac_double(j);
    let (m, s, t) = (jac_double_m(j), jac_double_s(j), jac_double_t(j));
    let (mi, si, ti) = (m as int, s as int, t as int);
    let yz = fq_mul(j.y, j.z);
    lemma_eqm_mul(j.y, j.y as int, j.z, j.z as int);
    lemma_eqm_add(yz, j.y as int * j.z as int, yz, j.y as int * j.z as int);
    lemma_eqm_mul(m, mi, m, mi);
    lemma_eqm_add(s, si, s, si);
    lemma_eqm_sub(fq_mul(m, m), mi * mi, fq_add(s, s), 2 * si);
    lemma_eqm_sub(s, si, d.x, d.x as int);
    lemma_eqm_mul(m, mi, fq_sub(s, d.x), si - d.x as int);
    lemma_eqm_sub(fq_mul(m, fq_sub(s, d.x)), mi * (si - d.x as int), t, ti);
}

/// In a field, doubling coordinates doubles the point they stand for.
pub proof fn lemma_double_represents(j: Jacobian, p: Point)
    requires
        is_field(),
        j.reduced(),
        p.reduced(),
        represents(j, p),
    ensures
        represents(jac_double(j), ec_double(p)),
        jac_double(j).reduced(),
        ec_double(p).reduced(),
{
    match p {
        Point::Infinity => {
            reveal(jac_double);
        },
        Point::Finite { x, y } => {
            if y == 0 {
                reveal(jac_double);
                lemma_mul_zero(fq_mul(fq_mul(j.z, j.z), j.z));
                lemma_mul_zero(j.z);
                lemma_small_mod(0, modulus());
            } else {
                let d = jac_double(j);
                let lam = tangent_slope(x, y);
                let e = ec_third(lam, x, y, x);
                lemma_double_finite(j, x, y);
                lemma_third(lam, x, y, x);
                lemma_tangent_slope(x, y);
                lemma_jac_double_terms(j);
                lemma_jac_double_coords(j);
                lemma_represents_congruences(j, x, y);
                lemma_double_core(
                    coeff_a() as int,
                    lam as int,
                    x as int,
                    y as int,
                    j.x as int,
                    j.y as int,
                    j.z as int,
                    jac_double_m(j) as int,
                    jac_double_s(j) as int,
                    jac_double_t(j) as int,
                    d.z as int,
                    d.x as int,
                    d.y as int,
                    e->x as int,
                    e->y as int,
                );
                lemma_congruences_represent(d, e->x, e->y);
            }
        },
    }
}

/// The algebra of the chord rule. Over the shared denominator `d = Z1 Z2`
/// the points are `(u1, s1) = (x1 d^2, y1 d^3)` and
/// `(u2, s2) = (x2 d^2, y2 d^3)`. With a slope `lam` with
/// `lam * (x2 - x1) = y2 - y1`, the coordinates `(x3, y3, z3)` of the chord
/// rule stand for its point `(ex3, ey3)`.
proof fn lemma_add_core(
    lam: int,
    x1: int,
    y1: int,
    x2: int,
    y2: int,
    d: int,
    u1: int,
    u2: int,
    s1: int,
    s2: int,
    h: int,
    i: int,
    jj: int,
    r: int,
    v: int,
    x3: int,
    y3: int,
    z3: int,
    ex3: int,
    ey3: int,
)
    requires
        eqm(u1, x1 * (d * d)),
        eqm(u2, x2 * (d * d)),
        eqm(s1, y1 * ((d * d) * d)),
        eqm(s2, y2 * ((d * d) * d)),
        eqm(lam * (x2 - x1), y2 - y1),
        eqm(h, u2 - u1),
        eqm(i, 4 * (h * h)),
        eqm(jj, h * i),
        eqm(r, 2 * (s2 - s1)),
        eqm(v, u1 * i),
        eqm(x3, r * r - jj - 2 * v),
        eqm(y3, r * (v - x3) - 2 * (s1 * jj)),
        eqm(z3, 2 * (d * h)),
        eqm(ex3, lam * lam - x1 - x2),
        eqm(ey3, lam * (x1 - ex3) - y1),
    ensures
        eqm(ex3 * (z3 * z3), x3),
        eqm(ey3 * ((z3 * z3) * z3), y3),
{
    let dd = d * d;
    let ddd = dd * d;
    let dh = d * h;
    let z3sq = z3 * z3;
    let z3cu = z3sq * z3;
    let t = x2 - x1;
    // h == (x2 - x1) d^2
    lemma_eqm_sub_int(u2, x2 * dd, u1, x1 * dd);
    assert(x2 * dd - x1 * dd == t * dd) by (nonlinear_arith)
        requires
            t == x2 - x1,
    ;
    assert(eqm(h, t * dd));
    // lam * z3 == r
    lemma_eqm_mul_int(d, d, h, t * dd);
    lemma_eqm_mul_int(2, 2, dh, d * (t * dd));
    lemma_eqm_mul_int(lam, lam, z3, 2 * (d * (t * dd)));
    assert(lam * (2 * (d * (t * dd))) == (lam * t) * (2 * ddd)) by (nonlinear_arith)
        requires
            ddd == dd * d,
    ;
    lemma_eqm_mul_int(lam * t, y2 - y1, 2 * ddd, 2 * ddd);
    assert((y2 - y1) * (2 * ddd) == 2 * (y2 * ddd - y1 * ddd)) by (nonlinear_arith);
    lemma_eqm_sub_int(y2 * ddd, s2, y1 * ddd, s1);
    lemma_eqm_mul_int(2, 2, y2 * ddd - y1 * ddd, s2 - s1);
    assert(eqm(lam * z3, r));
    // z3^2 == 4 h^2 d^2
    lemma_eqm_mul_int(z3, 2 * dh, z3, 2 * dh);
    assert((2 * dh) * (2 * dh) == (4 * (h * h)) * dd) by (nonlinear_arith)
        requires
            dh == d * h,
            dd == d * d,
    ;
    lemma_eqm_mul_int(4 * (h * h), i, dd, dd);
    assert(eqm(z3sq, i * dd));
    // x1 * z3^2 == v
    lemma_eqm_mul_int(x1, x1, z3sq, i * dd);
    assert(x1 * (i * dd) == (x1 * dd) * i) by (nonlinear_arith);
    lemma_eqm_mul_int(x1 * dd, u1, i, i);
    assert(eqm(x1 * z3sq, v));
    // x2 * z3^2 == v + jj
    lemma_eqm_mul_int(x2, x2, z3sq, i * dd);
    assert(x2 * (i * dd) == (x2 * dd) * i) by (nonlinear_arith);
    lemma_eqm_mul_int(x2 * dd, u2, i, i);
    lemma_eqm_add_int(h, u2 - u1, u1, u1);
    lemma_eqm_mul_int(u2, h + u1, i, i);
    assert((h + u1) * i == h * i + u1 * i) by (nonlinear_arith);
    lemma_eqm_add_int(h * i, jj, u1 * i, v);
    assert(eqm(x2 * z3sq, jj + v));
    // ex3 * z3^2 == x3
    lemma_eqm_mul_int(ex3, lam * lam - x1 - x2, z3sq, z3sq);
    assert((lam * lam - x1 - x2) * z3sq == (lam * z3) * (lam * z3) - x1 * z3sq - x2 * z3sq)
        by (nonlinear_arith)
        requires
            z3sq == z3 * z3,
    ;
    lemma_eqm_mul_int(lam * z3, r, lam * z3, r);
    lemma_eqm_sub_int((lam * z3) * (lam * z3), r * r, x1 * z3sq, v);
    lemma_eqm_sub_int((lam * z3) * (lam * z3) - x1 * z3sq, r * r - v, x2 * z3sq, jj + v);
    assert(eqm(ex3 * z3sq, x3));
    // y1 * z3^3 == 2 s1 jj
    lemma_eqm_mul_int(z3sq, i * dd, z3, 2 * dh);
    lemma_eqm_mul_int(y1, y1, z3cu, (i * dd) * (2 * dh));
    assert(y1 * ((i * dd) * (2 * dh)) == (2 * (y1 * ddd)) * (h * i)) by (nonlinear_arith)
        requires
            dh == d * h,
            ddd == dd * d,
    ;
    lemma_eqm_mul_int(2, 2, y1 * ddd, s1);
    lemma_eqm_mul_int(2 * (y1 * ddd), 2 * s1, h * i, jj);
    assert((2 * s1) * jj == 2 * (s1 * jj)) by (nonlinear_arith);
    assert(eqm(y1 * z3cu, 2 * (s1 * jj)));
    // ey3 * z3^3 == y3
    lemma_eqm_mul_int(ey3, lam * (x1 - ex3) - y1, z3cu, z3cu);
    assert((lam * (x1 - ex3) - y1) * z3cu == (lam * z3) * (x1 * z3sq - ex3 * z3sq) - y1 * z3cu)
        by (nonlinear_arith)
        requires
            z3sq == z3 * z3,
            z3cu == z3sq * z3,
    ;
    lemma_eqm_sub_int(x1 * z3sq, v, ex3 * z3sq, x3);
    lemma_eqm_mul_int(lam * z3, r, x1 * z3sq - ex3 * z3sq, v - x3);
    lemma_eqm_sub_int((lam * z3) * (x1 * z3sq - ex3 * z3sq), r * (v - x3), y1 * z3cu, 2 * (s1 * jj));
}

/// The difference of distinct residues is nonzero.
pub proof fn lemma_sub_nonzero(a: nat, b: nat)
    requires
        a < modulus(),
        b < modulus(),
        a != b,
    ensures
        0 < fq_sub(a, b) < modulus(),
{
    if a > b {
        lemma_small_mod((a - b) as nat, modulus());
    } else {
        lemma_fundamental_div_mod_converse(
            a as int - b as int,
            modulus() as int,
            -1,
            a as int - b as int + modulus() as int,
        );
    }
}

/// The slope of the chord between points with distinct abscissas satisfies
/// `lam * (x2 - x1) == y2 - y1`.
pub proof fn lemma_chord_slope(x1: nat, y1: nat, x2: nat, y2: nat)
    requires
        is_field(),
        x1 < modulus(),
        y1 < modulus(),
        x2 < modulus(),
        y2 < modulus(),
        x1 != x2,
    ensures
        eqm(chord_slope(x1, y1, x2, y2) as int * (x2 as int - x1 as int), y2 as int - y1 as int),
{
    let t = fq_sub(x2, x1);
    let dy = fq_sub(y2, y1);
    let w = fq_inv(t);
    let lam = fq_mul(dy, w);
    let (ti, dyi, wi, lami) = (t as int, dy as int, w as int, lam as int);
    lemma_sub_nonzero(x2, x1);
    lemma_unit(t);
    lemma_eqm_sub(x2, x2 as int, x1, x1 as int);
    lemma_eqm_sub(y2, y2 as int, y1, y1 as int);
    lemma_eqm_mul(dy, dyi, w, wi);
    lemma_eqm_mul_int(lami, dyi * wi, x2 as int - x1 as int, ti);
    assert((dyi * wi) * ti == dyi * (ti * wi)) by (nonlinear_arith);
    lemma_eqm_mul_int(dyi, dyi, ti * wi, 1);
    assert(dyi * 1 == dyi);
}

/// A point brought to the denominator `d = Z Z'` that it shares with
/// another.
proof fn lemma_shared_denominator(j: Jacobian, other: Jacobian, x: nat, y: nat, d: int)
    requires
        represents(j, Point::Finite { x, y }),
        d == j.z as int * other.z as int,
    ensures
        eqm(jac_add_u(j, other) as int, x as int * (d * d)),
        eqm(jac_add_s(j, other) as int, y as int * ((d * d) * d)),
{
    let (z1, z2) = (j.z as int, other.z as int);
    let (xi, yi) = (x as int, y as int);
    let ww = fq_mul(other.z, other.z);
    lemma_represents_congruences(j, x, y);
    lemma_eqm_mul(other.z, z2, other.z, z2);
    lemma_eqm_mul(ww, z2 * z2, other.z, z2);
    lemma_eqm_mul(j.x, xi * (z1 * z1), ww, z2 * z2);
    lemma_eqm_mul(j.y, yi * ((z1 * z1) * z1), fq_mul(ww, other.z), (z2 * z2) * z2);
    assert((xi * (z1 * z1)) * (z2 * z2) == xi * (d * d)) by (nonlinear_arith)
        requires
            d == z1 * z2,
    ;
    assert((yi * ((z1 * z1) * z1)) * ((z2 * z2) * z2) == yi * ((d * d) * d)) by (nonlinear_arith)
        requires
            d == z1 * z2,
    ;
}

/// The quantities of the chord rule as polynomials in its arguments.
proof fn lemma_chord_terms(u1: nat, u2: nat, s1: nat, s2: nat, zz: nat, d: int)
    requires
        eqm(zz as int, d),
    ensures
        ({
            let h = fq_sub(u2, u1);
            let i = chord_i(h);
            let jj = fq_mul(h, i);
            let r = chord_r(s1, s2);
            let v = fq_mul(u1, i);
            let c = jac_chord(u1, u2, s1, s2, zz);
            &&& eqm(h as int, u2 as int - u1 as int)
            &&& eqm(i as int, 4 * (h as int * h as int))
            &&& eqm(jj as int, h as int * i as int)
            &&& eqm(r as int, 2 * (s2 as int - s1 as int))
            &&& eqm(v as int, u1 as int * i as int)
            &&& eqm(c.x as int, r as int * r as int - jj as int - 2 * v as int)
            &&& eqm(
                c.y as int,
                r as int * (v as int - c.x as int) - 2 * (s1 as int * jj as int),
            )
            &&& eqm(c.z as int, 2 * (d * h as int))
            &&& c.reduced()
        }),
{
    let h = fq_sub(u2, u1);
    let h2 = fq_add(h, h);
    let i = chord_i(h);
    let jj = fq_mul(h, i);
    let ds = fq_sub(s2, s1);
    let r = chord_r(s1, s2);
    let v = fq_mul(u1, i);
    let c = jac_chord(u1, u2, s1, s2, zz);
    let s1j = fq_mul(s1, jj);
    let (hi, ii, ji, ri, vi) = (h as int, i as int, jj as int, r as int, v as int);
    let (u1i, s1i, s2i) = (u1 as int, s1 as int, s2 as int);
    lemma_eqm_sub(u2, u2 as int, u1, u1i);
    lemma_eqm_add(h, hi, h, hi);
    lemma_eqm_mul(h2, 2 * hi, h2, 2 * hi);
    assert((2 * hi) * (2 * hi) == 4 * (hi * hi)) by (nonlinear_arith);
    lemma_eqm_mul(h, hi, i, ii);
    lemma_eqm_sub(s2, s2i, s1, s1i);
    lemma_eqm_add(ds, s2i - s1i, ds, s2i - s1i);
    lemma_eqm_mul(u1, u1i, i, ii);
    lemma_eqm_mul(r, ri, r, ri);
    lemma_eqm_sub(fq_mul(r, r), ri * ri, jj, ji);
    lemma_eqm_add(v, vi, v, vi);
    lemma_eqm_sub(fq_sub(fq_mul(r, r), jj), ri * ri - ji, fq_add(v, v), 2 * vi);
    lemma_eqm_sub(v, vi, c.x, c.x as int);
    lemma_eqm_mul(r, ri, fq_sub(v, c.x), vi - c.x as int);
    lemma_eqm_mul(s1, s1i, jj, ji);
    lemma_eqm_add(s1j, s1i * ji, s1j, s1i * ji);
    lemma_eqm_sub(
        fq_mul(r, fq_sub(v, c.x)),
        ri * (vi - c.x as int),
        fq_add(s1j, s1j),
        2 * (s1i * ji),
    );
    lemma_eqm_add(zz, d, zz, d);
    lemma_eqm_mul(fq_add(zz, zz), 2 * d, h, hi);
    assert((2 * d) * hi == 2 * (d * hi)) by (nonlinear_arith);
}

/// In a field, residues scaled by one nonzero factor are equal exactly
/// when they are equal before scaling.
proof fn lemma_scaled_equal(a: nat, b: nat, x1: nat, x2: nat, k: nat, ki: int)
    requires
        is_field(),
        0 < k < modulus(),
        eqm(k as int, ki),
        a < modulus(),
        b < modulus(),
        x1 < modulus(),
        x2 < modulus(),
        eqm(a as int, x1 as int * ki),
        eqm(b as int, x2 as int * ki),
    ensures
        a == b <==> x1 == x2,
{
    if x1 == x2 {
        lemma_eqm_reduced(a, b);
    }
    if a == b {
        lemma_eqm_mul_int(x1 as int, x1 as int, ki, k as int);
        lemma_eqm_mul_int(x2 as int, x2 as int, ki, k as int);
        assert(k * x1 == x1 * k && k * x2 == x2 * k) by (nonlinear_arith);
        lemma_cancel(k, x1 as int, x2 as int);
        lemma_eqm_reduced(x1, x2);
    }
}

/// In a field, two finite points have equal abscissas, or ordinates,
/// exactly when their coordinates over the shared denominator are equal.
proof fn lemma_shared_equal(j1: Jacobian, j2: Jacobian, x1: nat, y1: nat, x2: nat, y2: nat)
    requires
        is_field(),
        j1.reduced(),
        j2.reduced(),
        x1 < modulus(),
        y1 < modulus(),
        x2 < modulus(),
        y2 < modulus(),
        represents(j1, Point::Finite { x: x1, y: y1 }),
        represents(j2, Point::Finite { x: x2, y: y2 }),
    ensures
        jac_add_u(j1, j2) == jac_add_u(j2, j1) <==> x1 == x2,
        jac_add_s(j1, j2) == jac_add_s(j2, j1) <==> y1 == y2,
        0 < fq_mul(j1.z, j2.z) < modulus(),
        eqm(jac_add_u(j1, j2) as int, x1 as int * ((j1.z as int * j2.z as int) * (j1.z as int * j2.z as int))),
        eqm(jac_add_u(j2, j1) as int, x2 as int * ((j1.z as int * j2.z as int) * (j1.z as int * j2.z as int))),
        eqm(
            jac_add_s(j1, j2) as int,
            y1 as int * (((j1.z as int * j2.z as int) * (j1.z as int * j2.z as int)) * (j1.z as int
                * j2.z as int)),
        ),
        eqm(
            jac_add_s(j2, j1) as int,
            y2 as int * (((j1.z as int * j2.z as int) * (j1.z as int * j2.z as int)) * (j1.z as int
                * j2.z as int)),
        ),
        eqm(fq_mul(j1.z, j2.z) as int, j1.z as int * j2.z as int),
{
    let d = j1.z as int * j2.z as int;
    let zz = fq_mul(j1.z, j2.z);
    let dd = fq_mul(zz, zz);
    let ddd = fq_mul(dd, zz);
    assert(j2.z as int * j1.z as int == d) by (nonlinear_arith)
        requires
            d == j1.z as int * j2.z as int,
    ;
    lemma_shared_denominator(j1, j2, x1, y1, d);
    lemma_shared_denominator(j2, j1, x2, y2, d);
    lemma_no_zero_divisors(j1.z, j2.z);
    lemma_powers_nonzero(zz);
    lemma_eqm_mul(j1.z, j1.z as int, j2.z, j2.z as int);
    lemma_eqm_mul(zz, d, zz, d);
    lemma_eqm_mul(dd, d * d, zz, d);
    lemma_scaled_equal(jac_add_u(j1, j2), jac_add_u(j2, j1), x1, x2, dd, d * d);
    lemma_scaled_equal(jac_add_s(j1, j2), jac_add_s(j2, j1), y1, y2, ddd, (d * d) * d);
}

/// In a field, the chord rule on coordinates gives the chord rule on the
/// points they stand for.
proof fn lemma_chord_represents(j1: Jacobian, j2: Jacobian, x1: nat, y1: nat, x2: nat, y2: nat)
    requires
        is_field(),
        j1.reduced(),
        j2.reduced(),
        x1 < modulus(),
        y1 < modulus(),
        x2 < modulus(),
        y2 < modulus(),
        x1 != x2,
        represents(j1, Point::Finite { x: x1, y: y1 }),
        represents(j2, Point::Finite { x: x2, y: y2 }),
    ensures
        represents(
            jac_chord(
                jac_add_u(j1, j2),
                jac_add_u(j2, j1),
                jac_add_s(j1, j2),
                jac_add_s(j2, j1),
                fq_mul(j1.z, j2.z),
            ),
            ec_third(chord_slope(x1, y1, x2, y2), x1, y1, x2),
        ),
{
    let d = j1.z as int * j2.z as int;
    let zz = fq_mul(j1.z, j2.z);
    let (u1, u2) = (jac_add_u(j1, j2), jac_add_u(j2, j1));
    let (s1, s2) = (jac_add_s(j1, j2), jac_add_s(j2, j1));
    let h = fq_sub(u2, u1);
    let i = chord_i(h);
    let jj = fq_mul(h, i);
    let r = chord_r(s1, s2);
    let v = fq_mul(u1, i);
    let c = jac_chord(u1, u2, s1, s2, zz);
    let lam = chord_slope(x1, y1, x2, y2);
    let e = ec_third(lam, x1, y1, x2);
    lemma_shared_equal(j1, j2, x1, y1, x2, y2);
    assert(c.z != 0) by {
        lemma_sub_nonzero(u2, u1);
        lemma_twice_nonzero(zz);
        lemma_no_zero_divisors(fq_add(zz, zz), h);
    }
    lemma_chord_slope(x1, y1, x2, y2);
    lemma_chord_terms(u1, u2, s1, s2, zz, d);
    lemma_third(lam, x1, y1, x2);
    lemma_add_core(
        lam as int,
        x1 as int,
        y1 as int,
        x2 as int,
        y2 as int,
        d,
        u1 as int,
        u2 as int,
        s1 as int,
        s2 as int,
        h as int,
        i as int,
        jj as int,
        r as int,
        v as int,
        c.x as int,
        c.y as int,
        c.z as int,
        e->x as int,
        e->y as int,
    );
    lemma_congruences_represent(c, e->x, e->y);
}

/// In a field, adding coordinates adds the points they stand for.
pub proof fn lemma_add_represents(j1: Jacobian, j2: Jacobian, pa: Point, pb: Point)
    requires
        is_field(),
        j1.reduced(),
        j2.reduced(),
        pa.reduced(),
        pb.reduced(),
        represents(j1, pa),
        represents(j2, pb),
    ensures
        represents(jac_add(j1, j2), ec_add(pa, pb)),
        jac_add(j1, j2).reduced(),
        ec_add(pa, pb).reduced(),
{
    reveal(jac_add);
    match (pa, pb) {
        (Point::Finite { x: x1, y: y1 }, Point::Finite { x: x2, y: y2 }) => {
            lemma_shared_equal(j1, j2, x1, y1, x2, y2);
            lemma_double_represents(j1, pa);
            if x1 != x2 {
                lemma_chord_represents(j1, j2, x1, y1, x2, y2);
            }
        },
        _ => {},
    }
}

/// In a field, double-and-add on coordinates multiplies the point they
/// stand for.
pub proof fn lemma_mul_represents(k: nat, j: Jacobian, p: Point)
    requires
        is_field(),
        j.reduced(),
        p.reduced(),
        represents(j, p),
    ensures
        represents(jac_mul(k, j), ec_mul(k, p)),
        jac_mul(k, j).reduced(),
        ec_mul(k, p).reduced(),
    decreases k,
{
    if k > 0 {
        let m = k / 2;
        let b = k % 2 == 1;
        lemma_mul_represents(m, j, p);
        lemma_jac_mul_step(m, b, j);
        lemma_ec_mul_step(m, b, p);
        lemma_double_represents(jac_mul(m, j), ec_mul(m, p));
        lemma_add_represents(jac_double(jac_mul(m, j)), j, ec_double(ec_mul(m, p)), p);
    }
}

/// Negating coordinates negates the point they stand for.
pub proof fn lemma_neg_represents(j: Jacobian, p: Point)
    requires
        j.reduced(),
        p.reduced(),
        represents(j, p),
    ensures
        represents(jac_neg(j), ec_neg(p)),
        jac_neg(j).reduced(),
        ec_neg(p).reduced(),
{
    match p {
        Point::Infinity => {},
        Point::Finite { x, y } => {
            let zzz = fq_mul(fq_mul(j.z, j.z), j.z);
            let (yi, zi) = (y as int, zzz as int);
            lemma_eqm_mul(y, yi, zzz, zi);
            lemma_eqm_sub(0, 0, j.y, yi * zi);
            lemma_eqm_sub(0, 0, y, yi);
            lemma_eqm_mul(fq_neg(y), 0 - yi, zzz, zi);
            assert((0 - yi) * zi == 0 - yi * zi) by (nonlinear_arith);
            lemma_eqm_reduced(fq_neg(j.y), scale3(fq_neg(y), j.z));
        },
    }
}

/// In a field, cross-multiplication decides whether coordinates stand for
/// the same point.
pub proof fn lemma_same_represents(j1: Jacobian, j2: Jacobian, pa: Point, pb: Point)
    requires
        is_field(),
        j1.reduced(),
        j2.reduced(),
        pa.reduced(),
        pb.reduced(),
        represents(j1, pa),
        represents(j2, pb),
    ensures
        jac_same(j1, j2) <==> pa == pb,
{
    match (pa, pb) {
        (Point::Finite { x: x1, y: y1 }, Point::Finite { x: x2, y: y2 }) => {
            lemma_shared_equal(j1, j2, x1, y1, x2, y2);
        },
        _ => {},
    }
}

/// In a field, doubling coordinates doubles the point they denote.
pub proof fn lemma_double_point(j: Jacobian)
    requires
        is_field(),
        j.reduced(),
    ensures
        jac_point(jac_double(j)) == ec_double(jac_point(j)),
{
    lemma_point_represents(j);
    lemma_double_represents(j, jac_point(j));
    lemma_point_represents(jac_double(j));
    lemma_represents_unique(jac_double(j), jac_point(jac_double(j)), ec_double(jac_point(j)));
}

/// In a field, adding coordinates adds the points they denote.
pub proof fn lemma_add_point(j1: Jacobian, j2: Jacobian)
    requires
        is_field(),
        j1.reduced(),
        j2.reduced(),
    ensures
        jac_point(jac_add(j1, j2)) == ec_add(jac_point(j1), jac_point(j2)),
{
    lemma_point_represents(j1);
    lemma_point_represents(j2);
    lemma_add_represents(j1, j2, jac_point(j1), jac_point(j2));
    lemma_point_represents(jac_add(j1, j2));
    lemma_represents_unique(
        jac_add(j1, j2),
        jac_point(jac_add(j1, j2)),
        ec_add(jac_point(j1), jac_point(j2)),
    );
}

/// In a field, double-and-add on coordinates multiplies the point they
/// denote.
pub proof fn lemma_mul_point(k: nat, j: Jacobian)
    requires
        is_field(),
        j.reduced(),
    ensures
        jac_point(jac_mul(k, j)) == ec_mul(k, jac_point(j)),
{
    lemma_point_represents(j);
    lemma_mul_represents(k, j, jac_point(j));
    lemma_point_represents(jac_mul(k, j));
    lemma_represents_unique(jac_mul(k, j), jac_point(jac_mul(k, j)), ec_mul(k, jac_point(j)));
}

/// In a field, negating coordinates negates the point they denote.
pub proof fn lemma_neg_point(j: Jacobian)
    requires
        is_field(),
        j.reduced(),
    ensures
        jac_point(jac_neg(j)) == ec_neg(jac_point(j)),
{
    lemma_point_represents(j);
    lemma_neg_represents(j, jac_point(j));
    lemma_point_represents(jac_neg(j));
    lemma_represents_unique(jac_neg(j), jac_point(jac_neg(j)), ec_neg(jac_point(j)));
}

/// In a field, cross-multiplication decides whether coordinates denote
/// the same point.
pub proof fn lemma_same_point(j1: Jacobian, j2: Jacobian)
    requires
        is_field(),
        j1.reduced(),
        j2.reduced(),
    ensures
        jac_same(j1, j2) <==> jac_point(j1) == jac_point(j2),
{
    lemma_point_represents(j1);
    lemma_point_represents(j2);
    lemma_same_represents(j1, j2, jac_point(j1), jac_point(j2));
}

/// Passing to Jacobian coordinates and back gives the point again.
pub proof fn lemma_from_point(p: Point)
    requires
        p.reduced(),
    ensures
        jac_point(jac_from(p)) == p,
{
    match p {
        Point::Infinity => {},
        Point::Finite { x, y } => {
            lemma1_pow((modulus() - 2) as nat);
            lemma_small_mod(1, modulus());
            assert(fq_inv(1) == 1);
            assert(1nat * 1nat == 1) by (nonlinear_arith);
            assert(x * 1 == x && y * 1 == y) by (nonlinear_arith);
            lemma_small_mod(x, modulus());
            lemma_small_mod(y, modulus());
        },
    }
}

} // verus!
