use cp6_782::fq::Fq;

fn limbs_of(v: u64) -> [u64; 13] {
    let mut l = [0u64; 13];
    l[0] = v;
    l
}

#[test]
fn small_products_are_exact() {
    let a = Fq::from_u64(123_456_789);
    let b = Fq::from_u64(987_654_321);
    let c = a.mul(&b);
    assert_eq!(c.to_limbs(), limbs_of(123_456_789u64 * 987_654_321u64));
}

#[test]
fn inverse_of_two_times_two_is_one() {
    let two = Fq::from_u64(2);
    let inv = two.inverse().unwrap();
    assert!(two.mul(&inv).equals(&Fq::one()));
}

#[test]
fn zero_has_no_inverse() {
    assert!(Fq::zero().inverse().is_none());
}

#[test]
fn sqrt_of_a_square_squares_back() {
    let a = Fq::from_u64(7);
    let sq = a.square();
    let root = sq.sqrt().unwrap();
    assert!(root.square().equals(&sq));
    assert!(root.equals(&a) || root.equals(&a.neg()));
}

#[test]
fn five_is_not_a_square() {
    assert!(Fq::from_u64(5).sqrt().is_none());
}
