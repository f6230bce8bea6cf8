use cp6_782::fq::Fq;
use cp6_782::{Config, G1Affine, G1Prepared, G1Projective, PointNotOnCurve};

fn g() -> G1Projective {
    G1Projective::generator()
}

fn repeated_sum(p: &G1Projective, k: u64) -> G1Projective {
    let mut acc = G1Projective::zero();
    for _ in 0..k {
        acc = acc.add(p);
    }
    acc
}

/// A point of the curve that need not lie in G1: the first abscissa from
/// `start` on for which the curve equation has a solution.
fn curve_point_from(start: u64) -> G1Affine {
    let mut x = start;
    loop {
        let fx = Fq::from_u64(x);
        let rhs = fx
            .square()
            .mul(&fx)
            .add(&Config::coeff_a().mul(&fx))
            .add(&Config::coeff_b());
        if let Some(y) = rhs.sqrt() {
            return G1Affine::new(fx, y).unwrap();
        }
        x += 1;
    }
}

#[test]
fn generator_satisfies_curve_equation() {
    let gen = G1Affine::generator();
    assert!(gen.is_on_curve());
    assert!(!gen.is_zero());
    let (x, y) = gen.xy().unwrap();
    let rhs = x
        .square()
        .mul(&x)
        .add(&Fq::from_u64(5).mul(&x))
        .add(&Config::coeff_b());
    assert!(y.square().equals(&rhs));
    assert!(!gen.equals(&G1Affine::identity()));
}

#[test]
fn doubling_agrees_with_adding_to_itself() {
    let doubled = g().double();
    let added = g().add(&g());
    assert!(doubled.equals(&added));
    assert!(doubled.into_affine().equals(&added.into_affine()));
    assert!(doubled.into_affine().is_on_curve());
}

#[test]
fn identity_is_neutral() {
    let p = g().double();
    let zero = G1Projective::zero();
    assert!(p.add(&zero).equals(&p));
    assert!(zero.add(&p).equals(&p));
    assert!(zero.add(&zero).is_zero());
}

#[test]
fn point_plus_inverse_is_identity() {
    let p = g().double().add(&g());
    assert!(p.add(&p.neg()).is_zero());
    assert!(p.sub(&p).is_zero());
    let a = G1Affine::generator();
    assert!(a.add(&a.neg()).is_zero());
}

#[test]
fn addition_is_commutative() {
    let p = g();
    let q = g().double().double();
    assert!(p.add(&q).equals(&q.add(&p)));
}

#[test]
fn addition_is_associative() {
    let p = g();
    let q = g().double();
    let r = q.double().add(&p);
    let left = p.add(&q).add(&r);
    let right = p.add(&q.add(&r));
    assert!(left.equals(&right));
}

#[test]
fn small_multiples_match_repeated_addition() {
    for k in [0u64, 1, 2, 3, 5, 100] {
        let by_bits = g().mul_bigint(&[k]);
        let by_sum = repeated_sum(&g(), k);
        assert!(by_bits.equals(&by_sum), "k = {}", k);
    }
    assert!(g().mul_bigint(&[0]).is_zero());
    assert!(g().mul_bigint(&[]).is_zero());
    assert!(g().mul_bigint(&[1]).equals(&g()));
}

#[test]
fn multiplication_accepts_leading_zero_limbs() {
    let a = g().mul_bigint(&[77]);
    let b = g().mul_bigint(&[77, 0, 0]);
    assert!(a.equals(&b));
    let c = G1Affine::generator().mul_bigint(&[77]);
    assert!(a.equals(&c));
}

#[test]
fn generator_has_order_r() {
    let r = Config::scalar_modulus();
    assert!(g().mul_bigint(&r).is_zero());
    assert!(G1Affine::generator().is_in_correct_subgroup_assuming_on_curve());
}

#[test]
fn cofactor_clearing_lands_in_subgroup() {
    let q = curve_point_from(1);
    assert!(q.is_on_curve());
    let cleared = q.clear_cofactor();
    assert!(cleared.is_on_curve());
    assert!(cleared.is_in_correct_subgroup_assuming_on_curve());
    assert!(cleared.equals(&q.mul_by_cofactor()));
    assert!(q
        .mul_by_cofactor_to_group()
        .equals(&cleared.into_group()));
}

#[test]
fn cofactor_inverse_undoes_cofactor_on_subgroup() {
    let gen = G1Affine::generator();
    let back = gen.mul_by_cofactor().mul_by_cofactor_inv();
    assert!(back.equals(&gen));
}

#[test]
fn affine_projective_round_trip() {
    let gen = G1Affine::generator();
    assert!(gen.into_group().into_affine().equals(&gen));
    let id = G1Affine::identity();
    assert!(id.into_group().is_zero());
    assert!(id.into_group().into_affine().equals(&id));
    let p = g().double().add(&g()).into_affine();
    assert!(p.into_group().into_affine().equals(&p));
}

#[test]
fn infinity_points_are_equal_whatever_their_coordinates() {
    let a = G1Affine {
        x: Fq::from_u64(3),
        y: Fq::from_u64(4),
        infinity: true,
    };
    assert!(a.equals(&G1Affine::identity()));
    assert!(a == G1Affine::identity());
    assert!(a.is_zero());
    assert!(a.is_on_curve());
    assert!(a.neg().is_zero());
}

#[test]
fn projective_equality_ignores_scaling() {
    let p = g().double();
    let lambda = Fq::from_u64(12345);
    let l2 = lambda.square();
    let l3 = l2.mul(&lambda);
    let scaled = G1Projective::new_unchecked(p.x.mul(&l2), p.y.mul(&l3), p.z.mul(&lambda));
    assert!(scaled.equals(&p));
    assert!(!scaled.x.equals(&p.x));
    assert!(scaled.into_affine().equals(&p.into_affine()));
    assert!(!p.equals(&g()));
    assert!(!p.equals(&G1Projective::zero()));
    assert!(!G1Projective::zero().equals(&p));
}

#[test]
fn validating_constructor_rejects_points_off_the_curve() {
    let gen = G1Affine::generator();
    let (x, y) = gen.xy().unwrap();
    assert!(G1Affine::new(x, y).unwrap().equals(&gen));
    let bad = G1Affine::new(x, y.add(&Fq::one()));
    assert_eq!(bad.unwrap_err(), PointNotOnCurve);
    assert!(G1Affine::new(Fq::zero(), Fq::zero()).is_err());
}

#[test]
fn negation_flips_y() {
    let gen = G1Affine::generator();
    let (x, y) = gen.xy().unwrap();
    let (nx, ny) = gen.neg().xy().unwrap();
    assert!(nx.equals(&x));
    assert!(ny.equals(&y.neg()));
    assert!(ny.add(&y).is_zero());
    assert!(gen.neg().is_on_curve());
    assert!(g().neg().into_affine().equals(&gen.neg()));
}

#[test]
fn prepared_from_affine_wraps() {
    let gen = G1Affine::generator();
    let a = G1Prepared::from(gen);
    let b = G1Prepared::from(&gen);
    assert!(a.0.equals(&gen));
    assert!(b.0.equals(&gen));
    assert!(!a.is_zero());
}

#[test]
fn prepared_from_projective_normalizes() {
    let p = g().double();
    let a = G1Prepared::from(p);
    let b = G1Prepared::from(&p);
    assert!(a.0.equals(&p.into_affine()));
    assert!(b.0.equals(&p.into_affine()));
    assert!(a.0.is_on_curve());
    assert!(G1Prepared::from(G1Projective::zero()).is_zero());
}

#[test]
fn prepared_default_is_generator() {
    let d = G1Prepared::default();
    assert!(d.0.equals(&G1Affine::generator()));
    assert!(!d.is_zero());
}

#[test]
fn prepared_of_identity_is_zero() {
    assert!(G1Prepared::from(G1Affine::identity()).is_zero());
}

#[test]
fn arithmetic_stays_on_the_curve() {
    let q = curve_point_from(1);
    let p = G1Affine::generator();
    assert!(q.add(&p).into_affine().is_on_curve());
    assert!(q.into_group().double().into_affine().is_on_curve());
    assert!(q.neg().is_on_curve());
    assert!(q.mul_bigint(&[0x1234_5678_9abc]).into_affine().is_on_curve());
    assert!(q.into_group().sub(&p.into_group()).into_affine().is_on_curve());
    assert!(q.mul_by_cofactor_inv().is_on_curve());
}

#[test]
fn subgroup_test_separates_the_curve_from_g1() {
    let q = curve_point_from(1);
    assert!(q.is_on_curve());
    assert!(!q.is_in_correct_subgroup_assuming_on_curve());
    assert!(G1Affine::identity().is_in_correct_subgroup_assuming_on_curve());
    assert!(G1Affine::generator()
        .neg()
        .is_in_correct_subgroup_assuming_on_curve());
}

#[test]
fn configuration_is_valid() {
    assert_eq!(Config::validate(), Ok(()));
}
