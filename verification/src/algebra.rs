//! Congruences modulo the characteristic, and what follows once the base
//! field is known to be a field.
//!
//! Arithmetic in the field is arithmetic on integers up to congruence
//! modulo `q`. The lemmas here carry a congruence through sums, differences
//! and products, and derive cancellation from [`is_field`].
use crate::fq::{fq_add, fq_inv, fq_is_unit, fq_mul, fq_neg, fq_sub, is_field, modulus};
use vstd::arithmetic::div_mod::{
    lemma_add_mod_noop, lemma_mod_twice, lemma_mul_mod_noop_general, lemma_small_mod,
    lemma_sub_mod_noop,
};
use vstd::prelude::*;

verus! {

/// `a` and `b` are congruent modulo the characteristic.
pub open spec fn eqm(a: int, b: int) -> bool {
    a % (modulus() as int) == b % (modulus() as int)
}

/// Products of congruent numbers are congruent.
pub proof fn lemma_eqm_mul_int(a: int, a2: int, b: int, b2: int)
    requires
        eqm(a, a2),
        eqm(b, b2),
    ensures
        eqm(a * b, a2 * b2),
{
    let q = modulus() as int;
    lemma_mul_mod_noop_general(a, b, q);
    lemma_mul_mod_noop_general(a2, b2, q);
}

/// Sums of congruent numbers are congruent.
pub proof fn lemma_eqm_add_int(a: int, a2: int, b: int, b2: int)
    requires
        eqm(a, a2),
        eqm(b, b2),
    ensures
        eqm(a + b, a2 + b2),
{
    let q = modulus() as int;
    lemma_add_mod_noop(a, b, q);
    lemma_add_mod_noop(a2, b2, q);
}

/// Differences of congruent numbers are congruent.
pub proof fn lemma_eqm_sub_int(a: int, a2: int, b: int, b2: int)
    requires
        eqm(a, a2),
        eqm(b, b2),
    ensures
        eqm(a - b, a2 - b2),
{
    let q = modulus() as int;
    lemma_sub_mod_noop(a, b, q);
    lemma_sub_mod_noop(a2, b2, q);
}

/// A field product is congruent to the product of any representatives.
pub proof fn lemma_eqm_mul(s: nat, a: int, t: nat, b: int)
    requires
        eqm(s as int, a),
        eqm(t as int, b),
    ensures
        eqm(fq_mul(s, t) as int, a * b),
{
    lemma_mod_twice((s * t) as int, modulus() as int);
    lemma_eqm_mul_int(s as int, a, t as int, b);
}

/// A field sum is congruent to the sum of any representatives.
pub proof fn lemma_eqm_add(s: nat, a: int, t: nat, b: int)
    requires
        eqm(s as int, a),
        eqm(t as int, b),
    ensures
        eqm(fq_add(s, t) as int, a + b),
{
    lemma_mod_twice((s + t) as int, modulus() as int);
    lemma_eqm_add_int(s as int, a, t as int, b);
}

/// A field difference is congruent to the difference of any
/// representatives.
pub proof fn lemma_eqm_sub(s: nat, a: int, t: nat, b: int)
    requires
        eqm(s as int, a),
        eqm(t as int, b),
    ensures
        eqm(fq_sub(s, t) as int, a - b),
{
    lemma_mod_twice(s as int - t as int, modulus() as int);
    lemma_eqm_sub_int(s as int, a, t as int, b);
}

/// Congruent canonical residues are equal.
pub proof fn lemma_eqm_reduced(a: nat, b: nat)
    requires
        a < modulus(),
        b < modulus(),
        eqm(a as int, b as int),
    ensures
        a == b,
{
    lemma_small_mod(a, modulus());
    lemma_small_mod(b, modulus());
}

/// In a field every nonzero residue times its Fermat inverse is one.
pub proof fn lemma_unit(a: nat)
    requires
        is_field(),
        0 < a < modulus(),
    ensures
        fq_mul(a, fq_inv(a)) == 1,
        fq_inv(a) < modulus(),
        eqm((a * fq_inv(a)) as int, 1),
{
    assert(fq_is_unit(a));
    lemma_small_mod(1, modulus());
}

/// In a field a nonzero factor cancels from a congruence.
pub proof fn lemma_cancel(a: nat, b: int, c: int)
    requires
        is_field(),
        0 < a < modulus(),
        eqm(a * b, a * c),
    ensures
        eqm(b, c),
{
    lemma_unit(a);
    let i = fq_inv(a) as int;
    let a = a as int;
    lemma_eqm_mul_int(i, i, a * b, a * c);
    assert(i * (a * b) == (a * i) * b) by (nonlinear_arith);
    assert(i * (a * c) == (a * i) * c) by (nonlinear_arith);
    lemma_eqm_mul_int(a * i, 1, b, b);
    lemma_eqm_mul_int(a * i, 1, c, c);
    assert(1 * b == b && 1 * c == c) by (nonlinear_arith);
}

/// A field has no zero divisors.
pub proof fn lemma_no_zero_divisors(a: nat, b: nat)
    requires
        is_field(),
        0 < a < modulus(),
        0 < b < modulus(),
    ensures
        fq_mul(a, b) != 0,
{
    if fq_mul(a, b) == 0 {
        lemma_mod_twice((a * b) as int, modulus() as int);
        assert(a * 0 == 0) by (nonlinear_arith);
        assert(eqm((a * b) as int, (a * 0) as int));
        lemma_cancel(a, b as int, 0);
        lemma_eqm_reduced(b, 0);
    }
}

/// A residue and its negative have the same square.
pub proof fn lemma_neg_square(y: nat)
    ensures
        fq_mul(fq_neg(y), fq_neg(y)) == fq_mul(y, y),
{
    let yi = y as int;
    lemma_eqm_sub(0, 0, y, yi);
    lemma_eqm_mul(fq_neg(y), 0 - yi, fq_neg(y), 0 - yi);
    lemma_eqm_mul(y, yi, y, yi);
    assert((0 - yi) * (0 - yi) == yi * yi) by (nonlinear_arith);
    lemma_eqm_reduced(fq_mul(fq_neg(y), fq_neg(y)), fq_mul(y, y));
}

} // verus!
