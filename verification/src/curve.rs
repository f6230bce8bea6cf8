//! The mathematical model of the curve `y^2 = x^3 + 5x + b` over `Fq`:
//! affine points, the chord-and-tangent group law, and the Jacobian
//! formulas that compute it without division.
use crate::fq::{fq_add, fq_inv, fq_mul, fq_neg, fq_sub, modulus};
use vstd::prelude::*;

verus! {

/// The curve coefficient `a`.
pub open spec fn coeff_a() -> nat {
    5
}

/// The curve coefficient `b`.
pub open spec fn coeff_b() -> nat {
    17764315118651679038286329069295091506801468118146712649886336045535808055361274148466772191243305528312843236347777260247138934336850548243151534538734724191505953341403463040067571652261229308333392040104884438208594329793895206056414nat
}

/// The order `r` of the subgroup G1, which is the characteristic of the
/// scalar field.
pub open spec fn scalar_modulus() -> nat {
    258664426012969094010652733694893533536393512754914660539884262666720468348340822774968888139573360124440321458177nat
}

/// The cofactor `h`: the curve has `h * r` points.
pub open spec fn cofactor() -> nat {
    86482221941698704497288378992285180119495364068003923046442785886272123124361700722982503222189455144364945735564951561028nat
}

/// The inverse of the cofactor modulo `r`.
pub open spec fn cofactor_inv() -> nat {
    163276846538158998893990986356139314746223949404500031940624325017036397274793417940375498603127780919653358641788nat
}

/// The x-coordinate of the generator of G1.
pub open spec fn generator_x() -> nat {
    5511163824921585887915590525772884263960974614921003940645351443740084257508990841338974915037175497689287870585840954231884082785026301437744745393958283053278991955159266640440849940136976927372133743626748847559939620888818486853646nat
}

/// The y-coordinate of the generator of G1.
pub open spec fn generator_y() -> nat {
    7913123550914612057135582061699117755797758113868200992327595317370485234417808273674357776714522052694559358668442301647906991623400754234679697332299689255516547752391831738454121261248793568285885897998257357202903170202349380518443nat
}

/// `x^3 + a * x + b`, the right-hand side of the curve equation.
pub open spec fn curve_rhs(x: nat) -> nat {
    fq_add(fq_add(fq_mul(fq_mul(x, x), x), fq_mul(coeff_a(), x)), coeff_b())
}

/// Whether `(x, y)` satisfies the curve equation.
pub open spec fn on_curve(x: nat, y: nat) -> bool {
    fq_mul(y, y) == curve_rhs(x)
}

/// A point of the affine plane over `Fq`, or the point at infinity.
pub enum Point {
    Infinity,
    Finite { x: nat, y: nat },
}

impl Point {
    /// Both coordinates are canonical field elements.
    pub open spec fn reduced(self) -> bool {
        match self {
            Point::Infinity => true,
            Point::Finite { x, y } => x < modulus() && y < modulus(),
        }
    }

    /// The point is the point at infinity or satisfies the curve equation.
    pub open spec fn on_curve(self) -> bool {
        match self {
            Point::Infinity => true,
            Point::Finite { x, y } => on_curve(x, y),
        }
    }
}

/// The generator of G1.
pub open spec fn generator() -> Point {
    Point::Finite { x: generator_x(), y: generator_y() }
}

/// The inverse of a point: its reflection in the x-axis.
pub open spec fn ec_neg(p: Point) -> Point {
    match p {
        Point::Infinity => Point::Infinity,
        Point::Finite { x, y } => Point::Finite { x, y: fq_neg(y) },
    }
}

/// The third point on the line of slope `lambda` through `(x1, y1)` and a
/// point with abscissa `x2`, reflected in the x-axis.
pub open spec fn ec_third(lambda: nat, x1: nat, y1: nat, x2: nat) -> Point {
    let x3 = fq_sub(fq_sub(fq_mul(lambda, lambda), x1), x2);
    let y3 = fq_sub(fq_mul(lambda, fq_sub(x1, x3)), y1);
    Point::Finite { x: x3, y: y3 }
}

/// The slope of the tangent at `(x, y)`: `(3 x^2 + a) / (2 y)`.
pub open spec fn tangent_slope(x: nat, y: nat) -> nat {
    let xx = fq_mul(x, x);
    fq_mul(fq_add(fq_add(fq_add(xx, xx), xx), coeff_a()), fq_inv(fq_add(y, y)))
}

/// The slope of the chord from `(x1, y1)` to `(x2, y2)`:
/// `(y2 - y1) / (x2 - x1)`.
pub open spec fn chord_slope(x1: nat, y1: nat, x2: nat, y2: nat) -> nat {
    fq_mul(fq_sub(y2, y1), fq_inv(fq_sub(x2, x1)))
}

/// The tangent rule: `2 * p`.
pub open spec fn ec_double(p: Point) -> Point {
    match p {
        Point::Infinity => Point::Infinity,
        Point::Finite { x, y } => if y == 0 {
            Point::Infinity
        } else {
            ec_third(tangent_slope(x, y), x, y, x)
        },
    }
}

/// The chord-and-tangent rule: `p + q`.
pub open spec fn ec_add(p: Point, q: Point) -> Point {
    match (p, q) {
        (Point::Infinity, _) => q,
        (_, Point::Infinity) => p,
        (Point::Finite { x: x1, y: y1 }, Point::Finite { x: x2, y: y2 }) => if x1 == x2 {
            if y1 == y2 {
                ec_double(p)
            } else {
                Point::Infinity
            }
        } else {
            ec_third(chord_slope(x1, y1, x2, y2), x1, y1, x2)
        },
    }
}

/// Scalar multiplication `k * p` by double-and-add over the binary
/// expansion of `k`, most significant bit first.
pub open spec fn ec_mul(k: nat, p: Point) -> Point
    decreases k,
{
    if k == 0 {
        Point::Infinity
    } else {
        let h = ec_double(ec_mul(k / 2, p));
        if k % 2 == 1 {
            ec_add(h, p)
        } else {
            h
        }
    }
}

/// Jacobian coordinates `(X, Y, Z)`. With `Z != 0` they denote the affine
/// point `(X / Z^2, Y / Z^3)`; with `Z == 0`, the point at infinity.
pub struct Jacobian {
    pub x: nat,
    pub y: nat,
    pub z: nat,
}

impl Jacobian {
    /// All three coordinates are canonical field elements.
    pub open spec fn reduced(self) -> bool {
        self.x < modulus() && self.y < modulus() && self.z < modulus()
    }
}

/// The representation of the point at infinity that the arithmetic
/// produces.
pub open spec fn jac_zero() -> Jacobian {
    Jacobian { x: 1, y: 1, z: 0 }
}

/// The Jacobian coordinates of an affine point, with `Z = 1`.
pub open spec fn jac_from(p: Point) -> Jacobian {
    match p {
        Point::Infinity => jac_zero(),
        Point::Finite { x, y } => Jacobian { x, y, z: 1 },
    }
}

/// The affine point that Jacobian coordinates denote.
pub open spec fn jac_point(j: Jacobian) -> Point {
    if j.z == 0 {
        Point::Infinity
    } else {
        let zi = fq_inv(j.z);
        let zi2 = fq_mul(zi, zi);
        Point::Finite { x: fq_mul(j.x, zi2), y: fq_mul(j.y, fq_mul(zi2, zi)) }
    }
}

/// Whether two coordinate triples denote the same point, decided without
/// division: `X1 * Z2^2 == X2 * Z1^2` and `Y1 * Z2^3 == Y2 * Z1^3`.
pub open spec fn jac_same(p: Jacobian, q: Jacobian) -> bool {
    if p.z == 0 {
        q.z == 0
    } else if q.z == 0 {
        false
    } else {
        let z1z1 = fq_mul(p.z, p.z);
        let z2z2 = fq_mul(q.z, q.z);
        fq_mul(p.x, z2z2) == fq_mul(q.x, z1z1) && fq_mul(p.y, fq_mul(z2z2, q.z)) == fq_mul(
            q.y,
            fq_mul(z1z1, p.z),
        )
    }
}

pub open spec fn jac_neg(p: Jacobian) -> Jacobian {
    Jacobian { x: p.x, y: fq_neg(p.y), z: p.z }
}

/// `M = 3 X^2 + a Z^4`, the numerator of the tangent slope.
pub open spec fn jac_double_m(p: Jacobian) -> nat {
    let xx = fq_mul(p.x, p.x);
    let zz = fq_mul(p.z, p.z);
    fq_add(fq_add(fq_add(xx, xx), xx), fq_mul(coeff_a(), fq_mul(zz, zz)))
}

/// `S = 4 X Y^2`.
pub open spec fn jac_double_s(p: Jacobian) -> nat {
    let xyy = fq_mul(p.x, fq_mul(p.y, p.y));
    let s2 = fq_add(xyy, xyy);
    fq_add(s2, s2)
}

/// `8 Y^4`.
pub open spec fn jac_double_t(p: Jacobian) -> nat {
    let yy = fq_mul(p.y, p.y);
    let yyyy = fq_mul(yy, yy);
    let y2 = fq_add(yyyy, yyyy);
    let y4 = fq_add(y2, y2);
    fq_add(y4, y4)
}

/// Doubling in Jacobian coordinates: with `S = 4 X Y^2`,
/// `M = 3 X^2 + a Z^4` and `T = 8 Y^4`,
/// `X3 = M^2 - 2 S`, `Y3 = M (S - X3) - T`, `Z3 = 2 Y Z`.
#[verifier::opaque]
pub open spec fn jac_double(p: Jacobian) -> Jacobian {
    if p.z == 0 {
        p
    } else {
        let s = jac_double_s(p);
        let m = jac_double_m(p);
        let x3 = fq_sub(fq_mul(m, m), fq_add(s, s));
        let y3 = fq_sub(fq_mul(m, fq_sub(s, x3)), jac_double_t(p));
        let yz = fq_mul(p.y, p.z);
        Jacobian { x: x3, y: y3, z: fq_add(yz, yz) }
    }
}

/// `X1 Z2^2`: the abscissa of `p` brought to the denominator that `p` and
/// `q` share.
pub open spec fn jac_add_u(p: Jacobian, q: Jacobian) -> nat {
    fq_mul(p.x, fq_mul(q.z, q.z))
}

/// `Y1 Z2^3`: the ordinate of `p` brought to the denominator that `p` and
/// `q` share.
pub open spec fn jac_add_s(p: Jacobian, q: Jacobian) -> nat {
    fq_mul(p.y, fq_mul(fq_mul(q.z, q.z), q.z))
}

/// `I = (2 H)^2`.
pub open spec fn chord_i(h: nat) -> nat {
    let h2 = fq_add(h, h);
    fq_mul(h2, h2)
}

/// `R = 2 (S2 - S1)`.
pub open spec fn chord_r(s1: nat, s2: nat) -> nat {
    let d = fq_sub(s2, s1);
    fq_add(d, d)
}

/// The chord rule in Jacobian coordinates, for points with distinct
/// abscissas `u1` and `u2` over the shared denominator, ordinates `s1` and
/// `s2`, and `zz = Z1 Z2`. With `H = U2 - U1`, `I = (2 H)^2`, `J = H I`,
/// `R = 2 (S2 - S1)` and `V = U1 I`:
/// `X3 = R^2 - J - 2 V`, `Y3 = R (V - X3) - 2 S1 J`, `Z3 = 2 Z1 Z2 H`.
pub open spec fn jac_chord(u1: nat, u2: nat, s1: nat, s2: nat, zz: nat) -> Jacobian {
    let h = fq_sub(u2, u1);
    let i = chord_i(h);
    let j = fq_mul(h, i);
    let r = chord_r(s1, s2);
    let v = fq_mul(u1, i);
    let x3 = fq_sub(fq_sub(fq_mul(r, r), j), fq_add(v, v));
    let s1j = fq_mul(s1, j);
    let y3 = fq_sub(fq_mul(r, fq_sub(v, x3)), fq_add(s1j, s1j));
    Jacobian { x: x3, y: y3, z: fq_mul(fq_add(zz, zz), h) }
}

/// Addition in Jacobian coordinates. With `U1 = X1 Z2^2`, `U2 = X2 Z1^2`,
/// `S1 = Y1 Z2^3`, `S2 = Y2 Z1^3`: equal `U` and `S` mean equal points, which
/// are doubled; equal `U` alone means opposite points, whose sum is the
/// point at infinity; otherwise the chord rule applies.
#[verifier::opaque]
pub open spec fn jac_add(p: Jacobian, q: Jacobian) -> Jacobian {
    if p.z == 0 {
        q
    } else if q.z == 0 {
        p
    } else {
        let u1 = jac_add_u(p, q);
        let u2 = jac_add_u(q, p);
        let s1 = jac_add_s(p, q);
        let s2 = jac_add_s(q, p);
        if u1 == u2 {
            if s1 == s2 {
                jac_double(p)
            } else {
                jac_zero()
            }
        } else {
            jac_chord(u1, u2, s1, s2, fq_mul(p.z, q.z))
        }
    }
}

/// Double-and-add in Jacobian coordinates, over the binary expansion of
/// `k`, most significant bit first.
pub open spec fn jac_mul(k: nat, p: Jacobian) -> Jacobian
    decreases k,
{
    if k == 0 {
        jac_zero()
    } else {
        let h = jac_double(jac_mul(k / 2, p));
        if k % 2 == 1 {
            jac_add(h, p)
        } else {
            h
        }
    }
}

/// One step of double-and-add: appending the bit `b` to the scalar `m`
/// doubles the running point and, when `b` is set, adds `p`.
pub proof fn lemma_jac_mul_step(m: nat, b: bool, p: Jacobian)
    ensures
        jac_mul(2 * m + (if b { 1nat } else { 0nat }), p) == if b {
            jac_add(jac_double(jac_mul(m, p)), p)
        } else {
            jac_double(jac_mul(m, p))
        },
{
    let k = 2 * m + (if b { 1nat } else { 0nat });
    if k == 0 {
        reveal(jac_double);
        assert(jac_mul(m, p) == jac_zero());
    } else {
        assert(k / 2 == m);
        assert(k % 2 == 1 <==> b);
    }
}

/// One step of double-and-add in the affine model.
pub proof fn lemma_ec_mul_step(m: nat, b: bool, p: Point)
    ensures
        ec_mul(2 * m + (if b { 1nat } else { 0nat }), p) == if b {
            ec_add(ec_double(ec_mul(m, p)), p)
        } else {
            ec_double(ec_mul(m, p))
        },
{
    let k = 2 * m + (if b { 1nat } else { 0nat });
    if k == 0 {
        assert(ec_mul(m, p) == Point::Infinity);
    } else {
        assert(k / 2 == m);
        assert(k % 2 == 1 <==> b);
    }
}

} // verus!
