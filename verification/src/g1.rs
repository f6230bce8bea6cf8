//! Points of G1 in affine and in Jacobian coordinates, and the prepared
//! form that a pairing consumes.
use crate::closure::{law_add_on_curve, law_double_on_curve, law_mul_on_curve, law_neg_on_curve};
use crate::config::Config;
use crate::curve::{
    cofactor, cofactor_inv, ec_add, ec_double, ec_mul, ec_neg, jac_add, jac_double, jac_from,
    jac_mul, jac_neg, jac_point, jac_same, jac_zero, lemma_jac_mul_step, on_curve, scalar_modulus,
    Jacobian, Point,
};
use crate::fq::{is_field, Fq};
use crate::group_law::{
    lemma_add_point, lemma_double_point, lemma_from_point, lemma_mul_point, lemma_neg_point,
    lemma_point_represents, lemma_same_point,
};
use crate::limbs::{bits_le, bits_value, lemma_bits_skip_step, limbs_value};
use vstd::prelude::*;
use vstd::std_specs::cmp::PartialEqSpecImpl;
use vstd::std_specs::convert::FromSpecImpl;

verus! {

/// The coordinates handed to [`G1Affine::new`] do not satisfy the curve
/// equation.
#[derive(Clone, Copy, Debug, PartialEq, Eq)]
pub struct PointNotOnCurve;

/// A point in affine coordinates. When `infinity` is set the point is the
/// point at infinity and the coordinates carry no meaning.
///
/// The arithmetic is defined on every pair of coordinates, whether or not
/// it satisfies the curve equation. [`G1Affine::new`] and the decoders hand
/// out points of the curve only, and the arithmetic keeps points of the
/// curve on the curve.
#[derive(Clone, Copy, Debug)]
pub struct G1Affine {
    pub x: Fq,
    pub y: Fq,
    pub infinity: bool,
}

/// A point in Jacobian coordinates: `(X, Y, Z)` with `Z != 0` is the affine
/// point `(X / Z^2, Y / Z^3)`, and `Z == 0` is the point at infinity. The
/// coordinates of a point are not unique, so points are compared with
/// [`G1Projective::equals`], never coordinate by coordinate.
#[derive(Clone, Copy, Debug)]
pub struct G1Projective {
    pub x: Fq,
    pub y: Fq,
    pub z: Fq,
}

/// An affine point fixed as the G1 argument of a pairing: a point in
/// Jacobian coordinates is normalized once, when it is prepared.
#[derive(Clone, Copy, Debug)]
pub struct G1Prepared(pub G1Affine);

impl View for G1Affine {
    type V = Point;

    open spec fn view(&self) -> Point {
        if self.infinity {
            Point::Infinity
        } else {
            Point::Finite { x: self.x@, y: self.y@ }
        }
    }
}

impl View for G1Projective {
    type V = Point;

    /// The affine point that the coordinates denote.
    open spec fn view(&self) -> Point {
        jac_point(self.coords())
    }
}

impl View for G1Prepared {
    type V = Point;

    open spec fn view(&self) -> Point {
        self.0@
    }
}

impl G1Affine {
    /// The point at infinity, with both coordinates zero.
    pub fn identity() -> (r: G1Affine)
        ensures
            r@ == Point::Infinity,
            r.x@ == 0,
            r.y@ == 0,
    {
        G1Affine { x: Fq::zero(), y: Fq::zero(), infinity: true }
    }

    /// The point `(x, y)`, provided that it satisfies the curve equation.
    pub fn new(x: Fq, y: Fq) -> (r: Result<G1Affine, PointNotOnCurve>)
        ensures
            r is Ok <==> on_curve(x@, y@),
            r matches Ok(p) ==> p@ == (Point::Finite { x: x@, y: y@ }),
    {
        let p = G1Affine { x, y, infinity: false };
        if p.is_on_curve() {
            Ok(p)
        } else {
            Err(PointNotOnCurve)
        }
    }

    /// The point `(x, y)`, for coordinates already known to satisfy the
    /// curve equation.
    pub fn new_unchecked(x: Fq, y: Fq) -> (r: G1Affine)
        requires
            on_curve(x@, y@),
        ensures
            r@ == (Point::Finite { x: x@, y: y@ }),
            r@.on_curve(),
    {
        G1Affine { x, y, infinity: false }
    }

    /// The generator of G1.
    pub fn generator() -> (r: G1Affine)
        ensures
            r@ == crate::curve::generator(),
            r@.on_curve(),
    {
        Config::generator()
    }

    /// Whether `self` is the point at infinity.
    pub fn is_zero(&self) -> (r: bool)
        ensures
            r <==> self@ == Point::Infinity,
    {
        self.infinity
    }

    /// The coordinates of a point other than the point at infinity.
    pub fn xy(&self) -> (r: Option<(Fq, Fq)>)
        ensures
            match r {
                Some((x, y)) => self@ == (Point::Finite { x: x@, y: y@ }),
                None => self@ == Point::Infinity,
            },
    {
        if self.infinity {
            None
        } else {
            Some((self.x, self.y))
        }
    }

    /// The x-coordinate of a point other than the point at infinity.
    pub fn x(&self) -> (r: Option<Fq>)
        ensures
            match r {
                Some(x) => self@ matches Point::Finite { x: px, .. } && px == x@,
                None => self@ == Point::Infinity,
            },
    {
        if self.infinity {
            None
        } else {
            Some(self.x)
        }
    }

    /// The y-coordinate of a point other than the point at infinity.
    pub fn y(&self) -> (r: Option<Fq>)
        ensures
            match r {
                Some(y) => self@ matches Point::Finite { y: py, .. } && py == y@,
                None => self@ == Point::Infinity,
            },
    {
        if self.infinity {
            None
        } else {
            Some(self.y)
        }
    }

    /// Whether `self` is the point at infinity or satisfies the curve
    /// equation `y^2 = x^3 + a x + b`.
    pub fn is_on_curve(&self) -> (r: bool)
        ensures
            r <==> self@.on_curve(),
    {
        if self.infinity {
            true
        } else {
            let x3 = self.x.square().mul(&self.x);
            let ax = Config::coeff_a().mul(&self.x);
            let rhs = x3.add(&ax).add(&Config::coeff_b());
            self.y.square().equals(&rhs)
        }
    }

    /// Whether two points are the same. Two points at infinity are equal
    /// whatever their coordinates hold.
    pub fn equals(&self, other: &G1Affine) -> (r: bool)
        ensures
            r <==> self@ == other@,
    {
        if self.infinity || other.infinity {
            self.infinity && other.infinity
        } else {
            self.x.equals(&other.x) && self.y.equals(&other.y)
        }
    }

    /// The inverse `-self`: the y-coordinate changes sign, and the point at
    /// infinity is its own inverse.
    pub fn neg(&self) -> (r: G1Affine)
        ensures
            r@ == ec_neg(self@),
            self@.on_curve() ==> r@.on_curve(),
    {
        proof {
            if self@.on_curve() {
                law_neg_on_curve(self@);
            }
        }
        G1Affine { x: self.x, y: self.y.neg(), infinity: self.infinity }
    }

    /// The same point in Jacobian coordinates, with `Z = 1`.
    pub fn into_group(&self) -> (r: G1Projective)
        ensures
            r.coords() == jac_from(self@),
            r@ == self@,
    {
        proof {
            use_type_invariant(&self.x);
            use_type_invariant(&self.y);
            lemma_from_point(self@);
        }
        if self.infinity {
            G1Projective::zero()
        } else {
            G1Projective { x: self.x, y: self.y, z: Fq::one() }
        }
    }

    /// `self + other`.
    pub fn add(&self, other: &G1Affine) -> (r: G1Projective)
        ensures
            r.coords() == jac_add(jac_from(self@), jac_from(other@)),
            is_field() ==> r@ == ec_add(self@, other@),
            is_field() && self@.on_curve() && other@.on_curve() ==> r@.on_curve(),
    {
        self.into_group().add(&other.into_group())
    }

    /// `k * self`, for the scalar `k` with the given little-endian limbs.
    pub fn mul_bigint(&self, scalar: &[u64]) -> (r: G1Projective)
        requires
            scalar@.len() * 64 <= usize::MAX,
        ensures
            r.coords() == jac_mul(limbs_value(scalar@), jac_from(self@)),
            is_field() ==> r@ == ec_mul(limbs_value(scalar@), self@),
            is_field() && self@.on_curve() ==> r@.on_curve(),
    {
        self.into_group().mul_bigint(scalar)
    }

    /// `h * self` in Jacobian coordinates, where `h` is the cofactor.
    pub fn mul_by_cofactor_to_group(&self) -> (r: G1Projective)
        ensures
            r.coords() == jac_mul(cofactor(), jac_from(self@)),
            is_field() ==> r@ == ec_mul(cofactor(), self@),
            is_field() && self@.on_curve() ==> r@.on_curve(),
    {
        let h = Config::cofactor();
        self.mul_bigint(h.as_slice())
    }

    /// `h * self`, where `h` is the cofactor.
    pub fn mul_by_cofactor(&self) -> (r: G1Affine)
        ensures
            r@ == jac_point(jac_mul(cofactor(), jac_from(self@))),
            is_field() ==> r@ == ec_mul(cofactor(), self@),
            is_field() && self@.on_curve() ==> r@.on_curve(),
    {
        self.mul_by_cofactor_to_group().into_affine()
    }

    /// Maps a point of the curve into the subgroup G1 by multiplying it by
    /// the cofactor.
    pub fn clear_cofactor(&self) -> (r: G1Affine)
        ensures
            r@ == jac_point(jac_mul(cofactor(), jac_from(self@))),
            is_field() ==> r@ == ec_mul(cofactor(), self@),
            is_field() && self@.on_curve() ==> r@.on_curve(),
    {
        self.mul_by_cofactor()
    }

    /// `h^{-1} * self`, where `h^{-1}` is the inverse of the cofactor modulo
    /// the order of G1.
    pub fn mul_by_cofactor_inv(&self) -> (r: G1Affine)
        ensures
            r@ == jac_point(jac_mul(cofactor_inv(), jac_from(self@))),
            is_field() ==> r@ == ec_mul(cofactor_inv(), self@),
            is_field() && self@.on_curve() ==> r@.on_curve(),
    {
        let k = Config::cofactor_inv();
        self.mul_bigint(k.as_slice()).into_affine()
    }

    /// Whether `r * self` is the point at infinity, where `r` is the order
    /// of G1. For a point of the curve this decides membership in G1.
    pub fn is_in_correct_subgroup_assuming_on_curve(&self) -> (r: bool)
        ensures
            r <==> jac_mul(scalar_modulus(), jac_from(self@)).z == 0,
            is_field() ==> (r <==> ec_mul(scalar_modulus(), self@) == Point::Infinity),
    {
        let k = Config::scalar_modulus();
        self.mul_bigint(k.as_slice()).is_zero()
    }
}

impl G1Projective {
    /// The three coordinates as field values.
    pub open spec fn coords(&self) -> Jacobian {
        Jacobian { x: self.x@, y: self.y@, z: self.z@ }
    }

    /// The point with the given Jacobian coordinates.
    pub fn new_unchecked(x: Fq, y: Fq, z: Fq) -> (r: G1Projective)
        ensures
            r.coords() == (Jacobian { x: x@, y: y@, z: z@ }),
    {
        G1Projective { x, y, z }
    }

    /// The point at infinity, as `(1, 1, 0)`.
    pub fn zero() -> (r: G1Projective)
        ensures
            r.coords() == jac_zero(),
            r@ == Point::Infinity,
    {
        G1Projective { x: Fq::one(), y: Fq::one(), z: Fq::zero() }
    }

    /// The generator of G1.
    pub fn generator() -> (r: G1Projective)
        ensures
            r.coords() == jac_from(crate::curve::generator()),
            r@ == crate::curve::generator(),
    {
        G1Affine::generator().into_group()
    }

    /// Whether `self` is the point at infinity, that is, whether `Z == 0`.
    pub fn is_zero(&self) -> (r: bool)
        ensures
            r <==> self.coords().z == 0,
            r <==> self@ == Point::Infinity,
    {
        self.z.is_zero()
    }

    /// The inverse `-self`.
    pub fn neg(&self) -> (r: G1Projective)
        ensures
            r.coords() == jac_neg(self.coords()),
            is_field() ==> r@ == ec_neg(self@),
            is_field() && self@.on_curve() ==> r@.on_curve(),
    {
        proof {
            use_type_invariant(&self.x);
            use_type_invariant(&self.y);
            use_type_invariant(&self.z);
            if is_field() {
                lemma_neg_point(self.coords());
                if self@.on_curve() {
                    law_neg_on_curve(self@);
                }
            }
        }
        G1Projective { x: self.x, y: self.y.neg(), z: self.z }
    }

    /// `2 * self`, by the tangent rule in Jacobian coordinates.
    pub fn double(&self) -> (r: G1Projective)
        ensures
            r.coords() == jac_double(self.coords()),
            is_field() ==> r@ == ec_double(self@),
            is_field() && self@.on_curve() ==> r@.on_curve(),
    {
        proof {
            use_type_invariant(&self.x);
            use_type_invariant(&self.y);
            use_type_invariant(&self.z);
            if is_field() {
                lemma_double_point(self.coords());
                lemma_point_represents(self.coords());
                if self@.on_curve() {
                    law_double_on_curve(self@);
                }
            }
        }
        self.double_coords()
    }

    /// The doubling formulas.
    fn double_coords(&self) -> (r: G1Projective)
        ensures
            r.coords() == jac_double(self.coords()),
    {
        proof {
            reveal(jac_double);
        }
        if self.z.is_zero() {
            return *self;
        }
        let s = self.x.mul(&self.y.square()).double().double();
        let xx = self.x.square();
        let m = xx.double().add(&xx).add(&Config::coeff_a().mul(&self.z.square().square()));
        let x3 = m.square().sub(&s.double());
        let y8 = self.y.square().square().double().double().double();
        let y3 = m.mul(&s.sub(&x3)).sub(&y8);
        let z3 = self.y.mul(&self.z).double();
        G1Projective { x: x3, y: y3, z: z3 }
    }

    /// `self + other`, by the chord rule in Jacobian coordinates, without a
    /// field inversion.
    pub fn add(&self, other: &G1Projective) -> (r: G1Projective)
        ensures
            r.coords() == jac_add(self.coords(), other.coords()),
            is_field() ==> r@ == ec_add(self@, other@),
            is_field() && self@.on_curve() && other@.on_curve() ==> r@.on_curve(),
    {
        proof {
            use_type_invariant(&self.x);
            use_type_invariant(&self.y);
            use_type_invariant(&self.z);
            use_type_invariant(&other.x);
            use_type_invariant(&other.y);
            use_type_invariant(&other.z);
            if is_field() {
                lemma_add_point(self.coords(), other.coords());
                lemma_point_represents(self.coords());
                lemma_point_represents(other.coords());
                if self@.on_curve() && other@.on_curve() {
                    law_add_on_curve(self@, other@);
                }
            }
        }
        self.add_coords(other)
    }

    /// The addition formulas.
    fn add_coords(&self, other: &G1Projective) -> (r: G1Projective)
        ensures
            r.coords() == jac_add(self.coords(), other.coords()),
    {
        proof {
            reveal(jac_add);
        }
        if self.z.is_zero() {
            return *other;
        }
        if other.z.is_zero() {
            return *self;
        }
        let z1z1 = self.z.square();
        let z2z2 = other.z.square();
        let u1 = self.x.mul(&z2z2);
        let u2 = other.x.mul(&z1z1);
        let s1 = self.y.mul(&z2z2.mul(&other.z));
        let s2 = other.y.mul(&z1z1.mul(&self.z));
        if u1.equals(&u2) {
            if s1.equals(&s2) {
                self.double_coords()
            } else {
                G1Projective::zero()
            }
        } else {
            let h = u2.sub(&u1);
            let i = h.double().square();
            let j = h.mul(&i);
            let r = s2.sub(&s1).double();
            let v = u1.mul(&i);
            let x3 = r.square().sub(&j).sub(&v.double());
            let y3 = r.mul(&v.sub(&x3)).sub(&s1.mul(&j).double());
            let z3 = self.z.mul(&other.z).double().mul(&h);
            G1Projective { x: x3, y: y3, z: z3 }
        }
    }

    /// `self - other`.
    pub fn sub(&self, other: &G1Projective) -> (r: G1Projective)
        ensures
            r.coords() == jac_add(self.coords(), jac_neg(other.coords())),
            is_field() ==> r@ == ec_add(self@, ec_neg(other@)),
            is_field() && self@.on_curve() && other@.on_curve() ==> r@.on_curve(),
    {
        self.add(&other.neg())
    }

    /// `k * self`, for the scalar `k` with the given little-endian limbs, by
    /// double-and-add from the most significant bit down. Every step doubles
    /// and adds, whatever the bit, and the bit selects which result is kept.
    pub fn mul_bigint(&self, scalar: &[u64]) -> (r: G1Projective)
        requires
            scalar@.len() * 64 <= usize::MAX,
        ensures
            r.coords() == jac_mul(limbs_value(scalar@), self.coords()),
            is_field() ==> r@ == ec_mul(limbs_value(scalar@), self@),
            is_field() && self@.on_curve() ==> r@.on_curve(),
    {
        proof {
            use_type_invariant(&self.x);
            use_type_invariant(&self.y);
            use_type_invariant(&self.z);
            if is_field() {
                lemma_mul_point(limbs_value(scalar@), self.coords());
                lemma_point_represents(self.coords());
                if self@.on_curve() {
                    law_mul_on_curve(limbs_value(scalar@), self@);
                }
            }
        }
        let bits = bits_le(scalar);
        let mut acc = G1Projective::zero();
        let mut j: usize = bits.len();
        proof {
            assert(bits@.skip(j as int) =~= Seq::<bool>::empty());
        }
        while j > 0
            invariant
                0 <= j <= bits@.len(),
                acc.coords() == jac_mul(bits_value(bits@.skip(j as int)), self.coords()),
            decreases j,
        {
            j -= 1;
            proof {
                lemma_bits_skip_step(bits@, j as int);
                lemma_jac_mul_step(bits_value(bits@.skip(j + 1)), bits@[j as int], self.coords());
            }
            let doubled = acc.double();
            let sum = doubled.add(self);
            acc = if bits[j] {
                sum
            } else {
                doubled
            };
        }
        proof {
            assert(bits@.skip(0) =~= bits@);
        }
        acc
    }

    /// Whether two coordinate triples denote the same point, decided by
    /// cross-multiplication: `X1 Z2^2 == X2 Z1^2` and `Y1 Z2^3 == Y2 Z1^3`.
    pub fn equals(&self, other: &G1Projective) -> (r: bool)
        ensures
            r <==> jac_same(self.coords(), other.coords()),
            is_field() ==> (r <==> self@ == other@),
    {
        proof {
            use_type_invariant(&self.x);
            use_type_invariant(&self.y);
            use_type_invariant(&self.z);
            use_type_invariant(&other.x);
            use_type_invariant(&other.y);
            use_type_invariant(&other.z);
            if is_field() {
                lemma_same_point(self.coords(), other.coords());
            }
        }
        if self.z.is_zero() {
            return other.z.is_zero();
        }
        if other.z.is_zero() {
            return false;
        }
        let z1z1 = self.z.square();
        let z2z2 = other.z.square();
        if !self.x.mul(&z2z2).equals(&other.x.mul(&z1z1)) {
            false
        } else {
            self.y.mul(&z2z2.mul(&other.z)).equals(&other.y.mul(&z1z1.mul(&self.z)))
        }
    }

    /// The same point in affine coordinates: `(X / Z^2, Y / Z^3)`, at the
    /// cost of one field inversion, or the point at infinity when `Z == 0`.
    pub fn into_affine(&self) -> (r: G1Affine)
        ensures
            r@ == self@,
    {
        if self.z.is_zero() {
            G1Affine::identity()
        } else {
            let zi = self.z.fermat_inverse();
            let zi2 = zi.square();
            G1Affine { x: self.x.mul(&zi2), y: self.y.mul(&zi2.mul(&zi)), infinity: false }
        }
    }
}

impl G1Prepared {
    /// Whether the prepared point is the point at infinity.
    pub fn is_zero(&self) -> (r: bool)
        ensures
            r <==> self@ == Point::Infinity,
    {
        self.0.is_zero()
    }
}

impl From<G1Affine> for G1Prepared {
    fn from(other: G1Affine) -> (r: G1Prepared)
        ensures
            r.0 == other,
    {
        G1Prepared(other)
    }
}

impl FromSpecImpl<G1Affine> for G1Prepared {
    open spec fn obeys_from_spec() -> bool {
        true
    }

    open spec fn from_spec(other: G1Affine) -> G1Prepared {
        G1Prepared(other)
    }
}

impl From<G1Projective> for G1Prepared {
    /// Normalizes the point to affine coordinates and wraps it.
    fn from(q: G1Projective) -> (r: G1Prepared)
        ensures
            r@ == q@,
    {
        G1Prepared(q.into_affine())
    }
}

impl FromSpecImpl<G1Projective> for G1Prepared {
    open spec fn obeys_from_spec() -> bool {
        false
    }

    open spec fn from_spec(q: G1Projective) -> G1Prepared {
        arbitrary()
    }
}

impl<'a> From<&'a G1Affine> for G1Prepared {
    fn from(other: &'a G1Affine) -> (r: G1Prepared)
        ensures
            r.0 == *other,
    {
        G1Prepared(*other)
    }
}

impl<'a> FromSpecImpl<&'a G1Affine> for G1Prepared {
    open spec fn obeys_from_spec() -> bool {
        true
    }

    open spec fn from_spec(other: &'a G1Affine) -> G1Prepared {
        G1Prepared(*other)
    }
}

impl<'a> From<&'a G1Projective> for G1Prepared {
    /// Normalizes the point to affine coordinates and wraps it.
    fn from(q: &'a G1Projective) -> (r: G1Prepared)
        ensures
            r@ == q@,
    {
        G1Prepared(q.into_affine())
    }
}

impl<'a> FromSpecImpl<&'a G1Projective> for G1Prepared {
    open spec fn obeys_from_spec() -> bool {
        false
    }

    open spec fn from_spec(q: &'a G1Projective) -> G1Prepared {
        arbitrary()
    }
}

impl Default for G1Prepared {
    /// The generator of G1, prepared.
    fn default() -> (r: G1Prepared)
        ensures
            r@ == crate::curve::generator(),
    {
        G1Prepared(G1Affine::generator())
    }
}

impl PartialEq for G1Affine {
    fn eq(&self, other: &G1Affine) -> (r: bool) {
        self.equals(other)
    }
}

impl PartialEqSpecImpl for G1Affine {
    open spec fn obeys_eq_spec() -> bool {
        true
    }

    open spec fn eq_spec(&self, other: &G1Affine) -> bool {
        self@ == other@
    }
}

impl Eq for G1Affine {

}

impl PartialEq for G1Projective {
    fn eq(&self, other: &G1Projective) -> (r: bool) {
        self.equals(other)
    }
}

impl PartialEqSpecImpl for G1Projective {
    open spec fn obeys_eq_spec() -> bool {
        true
    }

    open spec fn eq_spec(&self, other: &G1Projective) -> bool {
        jac_same(self.coords(), other.coords())
    }
}

impl Eq for G1Projective {

}

impl PartialEq for G1Prepared {
    fn eq(&self, other: &G1Prepared) -> (r: bool) {
        self.0.equals(&other.0)
    }
}

impl PartialEqSpecImpl for G1Prepared {
    open spec fn obeys_eq_spec() -> bool {
        true
    }

    open spec fn eq_spec(&self, other: &G1Prepared) -> bool {
        self@ == other@
    }
}

impl Eq for G1Prepared {

}

} // verus!
