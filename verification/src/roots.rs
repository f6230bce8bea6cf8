//! Square roots in the base field.
//!
//! The characteristic is `q = 8 t + 1` with `t` odd. In a field, the power
//! `u = y^t` of a nonzero `y` is an eighth root of unity, so that
//! `(y^2)^t = u^2` is one of the four fourth roots of unity `1`, `-1`, `i`
//! and `-i`, where `i` is the square of the primitive eighth root
//! [`root_of_unity`]. One of the four candidates `c^((t + 1) / 2) * zeta^k`
//! therefore squares to `c = y^2`.
use crate::algebra::{
    eqm, lemma_eqm_add_int, lemma_eqm_mul, lemma_eqm_mul_int, lemma_eqm_reduced,
    lemma_eqm_sub, lemma_eqm_sub_int, lemma_no_zero_divisors, lemma_unit,
};
use crate::fq::{
    fq_mul, fq_neg, fq_pow, fq_sqrt, is_field, modulus, root_of_unity,
    sqrt_candidate, sqrt_exponent, sqrt_from,
};
use vstd::arithmetic::div_mod::{
    lemma_fundamental_div_mod_converse, lemma_mod_bound, lemma_mod_twice,
    lemma_mul_mod_noop_general, lemma_small_mod,
};
use vstd::arithmetic::power::{
    lemma_pow1, lemma_pow_adds, lemma_pow_mod_noop, lemma_pow_multiplies, pow,
};
use vstd::prelude::*;

verus! {

/// The odd part `t` of `q - 1 = 8 t`.
pub open spec fn odd_part() -> nat {
    2796234287359462116293342775812631866846949933162148072772937078455846756557253067529059877268485152522256821925480238069737214402829166671516844553287632810960290821869823500141573291432819154425935511163079134531347828686569665103197nat
}

/// The square of [`root_of_unity`], a square root of `-1`.
pub open spec fn root_of_minus_one() -> nat {
    10880002438842680492866359656121134008607640237760880614494119135372345476667854049167186417742994086192073377127839634736724231339815871405176347884534539985864539334622180968143284656199740768126810202143379650759447225856572106543468nat
}

/// `q - 1 = 8 t`, and the exponent of the square-root candidates is
/// `(t + 1) / 2`.
pub proof fn lemma_exponents()
    ensures
        modulus() == 8 * odd_part() + 1,
        2 * sqrt_exponent() == odd_part() + 1,
{
}

/// The square of the eighth root of unity is a square root of `-1`.
pub proof fn lemma_root_of_unity()
    ensures
        root_of_unity() < modulus(),
        root_of_minus_one() < modulus(),
        fq_mul(root_of_unity(), root_of_unity()) == root_of_minus_one(),
        fq_mul(root_of_minus_one(), root_of_minus_one()) == modulus() - 1,
        eqm(root_of_minus_one() as int * root_of_minus_one() as int, -1),
{
    let z = root_of_unity();
    let i = root_of_minus_one();
    let q = modulus() as int;
    assert(z * z == 192318884677215257302024942155050494993682006205143343861004652997866378067582517806986115707459311075713133950937057751716496008206372705459512125310947633314483849921089706823306310026983206975556470922928728578224167889308085946116nat * modulus() + i);
    lemma_fundamental_div_mod_converse((z * z) as int, q, 192318884677215257302024942155050494993682006205143343861004652997866378067582517806986115707459311075713133950937057751716496008206372705459512125310947633314483849921089706823306310026983206975556470922928728578224167889308085946116int, i as int);
    assert(i * i == 5291690578483587609584221077781751697297331577101514018653616370746369223847209696024798888548783796505200386542190937392397768339592174169622612263952201448951459819471727769552252302387964068950693429642460221321392790315939865758824nat * modulus() + (modulus() - 1));
    lemma_fundamental_div_mod_converse((i * i) as int, q, 5291690578483587609584221077781751697297331577101514018653616370746369223847209696024798888548783796505200386542190937392397768339592174169622612263952201448951459819471727769552252302387964068950693429642460221321392790315939865758824int, q - 1);
    lemma_fundamental_div_mod_converse(-1, q, -1, q - 1);
    lemma_small_mod((modulus() - 1) as nat, modulus());
    lemma_mod_twice((i * i) as int, q);
}

/// `a^(m + n) = a^m a^n`.
pub proof fn lemma_fq_pow_add(a: nat, m: nat, n: nat)
    ensures
        fq_pow(a, m + n) == fq_mul(fq_pow(a, m), fq_pow(a, n)),
{
    let q = modulus() as int;
    lemma_pow_adds(a as int, m, n);
    lemma_mul_mod_noop_general(pow(a as int, m), pow(a as int, n), q);
}

/// `(a^m)^n = a^(m n)`.
pub proof fn lemma_fq_pow_mul(a: nat, m: nat, n: nat)
    ensures
        fq_pow(fq_pow(a, m), n) == fq_pow(a, m * n),
{
    let q = modulus() as int;
    lemma_pow_mod_noop(pow(a as int, m), n, q);
    lemma_pow_multiplies(a as int, m, n);
}

/// `a^1 = a` and `a^2 = a a`.
pub proof fn lemma_fq_pow_small(a: nat)
    requires
        a < modulus(),
    ensures
        fq_pow(a, 1) == a,
        fq_pow(a, 2) == fq_mul(a, a),
{
    lemma_pow1(a as int);
    lemma_small_mod(a, modulus());
    lemma_fq_pow_add(a, 1, 1);
}

/// In a field, a product is zero only if a factor is.
pub proof fn lemma_product_zero(a: int, b: int)
    requires
        is_field(),
        eqm(a * b, 0),
    ensures
        eqm(a, 0) || eqm(b, 0),
{
    let q = modulus() as int;
    let ar = (a % q) as nat;
    let br = (b % q) as nat;
    lemma_mod_bound(a, q);
    lemma_mod_bound(b, q);
    lemma_mod_twice(a, q);
    lemma_mod_twice(b, q);
    lemma_small_mod(0, modulus());
    lemma_eqm_mul(ar, a, br, b);
    if ar != 0 && br != 0 {
        lemma_no_zero_divisors(ar, br);
        lemma_eqm_reduced(fq_mul(ar, br), 0);
    }
}

/// In a field, residues with one square are equal or opposite.
pub proof fn lemma_equal_squares(s: nat, y: nat)
    requires
        is_field(),
        s < modulus(),
        y < modulus(),
        fq_mul(s, s) == fq_mul(y, y),
    ensures
        s == y || s == fq_neg(y),
{
    let (si, yi) = (s as int, y as int);
    lemma_eqm_mul(s, si, s, si);
    lemma_eqm_mul(y, yi, y, yi);
    lemma_eqm_sub_int(si * si, yi * yi, yi * yi, yi * yi);
    assert((si - yi) * (si + yi) == si * si - yi * yi) by (nonlinear_arith);
    lemma_product_zero(si - yi, si + yi);
    if eqm(si - yi, 0) {
        lemma_eqm_add_int(si - yi, 0, yi, yi);
        lemma_eqm_reduced(s, y);
    } else {
        lemma_eqm_sub_int(si + yi, 0, yi, yi);
        lemma_eqm_sub(0, 0, y, yi);
        lemma_eqm_reduced(s, fq_neg(y));
    }
}

/// In a field, a fourth root of unity is `1`, `-1`, `i` or `-i`.
proof fn lemma_fourth_roots(w: int, i: int)
    requires
        is_field(),
        eqm((w * w) * (w * w), 1),
        eqm(i * i, -1),
    ensures
        eqm(w, 1) || eqm(w, -1) || eqm(w, i) || eqm(w, -i),
{
    let v = w * w;
    lemma_eqm_sub_int(v * v, 1, 1, 1);
    assert((v - 1) * (v + 1) == v * v - 1) by (nonlinear_arith);
    lemma_product_zero(v - 1, v + 1);
    if eqm(v - 1, 0) {
        assert((w - 1) * (w + 1) == v - 1) by (nonlinear_arith)
            requires
                v == w * w,
        ;
        lemma_product_zero(w - 1, w + 1);
        if eqm(w - 1, 0) {
            lemma_eqm_add_int(w - 1, 0, 1, 1);
        } else {
            lemma_eqm_sub_int(w + 1, 0, 1, 1);
        }
    } else {
        lemma_eqm_add_int(1, 1, i * i, -1);
        lemma_eqm_sub_int(v + 1, 0, 1 + i * i, 0);
        assert((w - i) * (w + i) == (v + 1) - (1 + i * i)) by (nonlinear_arith)
            requires
                v == w * w,
        ;
        lemma_product_zero(w - i, w + i);
        if eqm(w - i, 0) {
            lemma_eqm_add_int(w - i, 0, i, i);
        } else {
            lemma_eqm_sub_int(w + i, 0, i, i);
        }
    }
}

/// In a field, `w = (y^2)^t` is a fourth root of unity, and the first
/// square-root candidate of `c = y^2` squares to `w c`.
proof fn lemma_first_candidate(y: nat)
    requires
        is_field(),
        0 < y < modulus(),
    ensures
        ({
            let c = fq_mul(y, y);
            let w = fq_pow(c, odd_part());
            let k = sqrt_candidate(c, 0);
            &&& fq_mul(fq_mul(w, w), fq_mul(w, w)) == 1
            &&& fq_mul(k, k) == fq_mul(w, c)
        }),
{
    let c = fq_mul(y, y);
    let t = odd_part();
    let e = sqrt_exponent();
    let w = fq_pow(c, t);
    let k = sqrt_candidate(c, 0);
    lemma_exponents();
    // y^(q - 1) = 1
    lemma_unit(y);
    lemma_fq_pow_small(y);
    lemma_fq_pow_add(y, 1, (modulus() - 2) as nat);
    assert(fq_pow(y, (modulus() - 1) as nat) == 1);
    // w = y^(2 t), so w^4 = y^(8 t) = 1
    lemma_fq_pow_mul(y, 2, t);
    assert(w == fq_pow(y, 2 * t));
    lemma_fq_pow_small(w);
    lemma_fq_pow_small(fq_mul(w, w));
    lemma_fq_pow_mul(w, 2, 2);
    lemma_fq_pow_mul(y, 2 * t, 4);
    assert((2 * t) * 4 == modulus() - 1);
    assert(fq_pow(w, 4) == 1);
    // k^2 = c^(2 e) = c^(t + 1) = w c
    lemma_fq_pow_add(c, e, e);
    lemma_fq_pow_add(c, t, 1);
    lemma_fq_pow_small(c);
}

/// The squares of the four square-root candidates, as congruences.
proof fn lemma_candidate_squares(c: nat)
    ensures
        ({
            let i = root_of_minus_one() as int;
            let k0 = sqrt_candidate(c, 0) as int;
            let k1 = sqrt_candidate(c, 1) as int;
            let k2 = sqrt_candidate(c, 2) as int;
            let k3 = sqrt_candidate(c, 3) as int;
            &&& eqm(k1 * k1, (k0 * k0) * i)
            &&& eqm(k2 * k2, (k1 * k1) * i)
            &&& eqm(k3 * k3, (k2 * k2) * i)
        }),
{
    reveal_with_fuel(sqrt_candidate, 4);
    lemma_root_of_unity();
    let z = root_of_unity();
    let zi = z as int;
    let i = root_of_minus_one() as int;
    lemma_eqm_mul(z, zi, z, zi);
    lemma_candidate_step(sqrt_candidate(c, 0), z);
    lemma_candidate_step(sqrt_candidate(c, 1), z);
    lemma_candidate_step(sqrt_candidate(c, 2), z);
}

/// `(k z)^2 = k^2 z^2`.
proof fn lemma_candidate_step(k: nat, z: nat)
    ensures
        eqm(
            fq_mul(k, z) as int * fq_mul(k, z) as int,
            (k as int * k as int) * fq_mul(z, z) as int,
        ),
{
    let (ki, zi) = (k as int, z as int);
    lemma_eqm_mul(k, ki, z, zi);
    lemma_eqm_mul_int(fq_mul(k, z) as int, ki * zi, fq_mul(k, z) as int, ki * zi);
    assert((ki * zi) * (ki * zi) == (ki * ki) * (zi * zi)) by (nonlinear_arith);
    lemma_eqm_mul(z, zi, z, zi);
    lemma_eqm_mul_int(ki * ki, ki * ki, zi * zi, fq_mul(z, z) as int);
}

/// In a field, one of the four candidates is a square root of a square.
proof fn lemma_some_candidate(y: nat)
    requires
        is_field(),
        0 < y < modulus(),
    ensures
        exists|k: nat|
            k < 4 && #[trigger] fq_mul(
                sqrt_candidate(fq_mul(y, y), k),
                sqrt_candidate(fq_mul(y, y), k),
            ) == fq_mul(y, y),
{
    let c = fq_mul(y, y);
    let w = fq_pow(c, odd_part());
    let (ci, wi) = (c as int, w as int);
    let i = root_of_minus_one() as int;
    let k0 = sqrt_candidate(c, 0) as int;
    let k1 = sqrt_candidate(c, 1) as int;
    let k2 = sqrt_candidate(c, 2) as int;
    let k3 = sqrt_candidate(c, 3) as int;
    lemma_first_candidate(y);
    lemma_candidate_squares(c);
    lemma_root_of_unity();
    lemma_small_mod(1, modulus());
    // w^4 = 1 and k0^2 = w c, as congruences
    lemma_eqm_mul(w, wi, w, wi);
    lemma_eqm_mul(fq_mul(w, w), wi * wi, fq_mul(w, w), wi * wi);
    lemma_eqm_mul(w, wi, c, ci);
    lemma_eqm_mul(sqrt_candidate(c, 0), k0, sqrt_candidate(c, 0), k0);
    assert(eqm(k0 * k0, wi * ci));
    lemma_fourth_roots(wi, i);
    // the squares of the candidates in terms of w
    lemma_eqm_mul_int(k0 * k0, wi * ci, i, i);
    lemma_eqm_mul_int(k1 * k1, (wi * ci) * i, i, i);
    assert(((wi * ci) * i) * i == (wi * ci) * (i * i)) by (nonlinear_arith);
    lemma_eqm_mul_int(wi * ci, wi * ci, i * i, -1);
    assert((wi * ci) * -1 == -(wi * ci)) by (nonlinear_arith);
    assert(eqm(k2 * k2, -(wi * ci)));
    lemma_eqm_mul_int(k2 * k2, -(wi * ci), i, i);
    assert(eqm(k3 * k3, (-(wi * ci)) * i));
    if eqm(wi, 1) {
        lemma_eqm_mul_int(wi, 1, ci, ci);
        assert(1 * ci == ci);
        lemma_eqm_mul(sqrt_candidate(c, 0), k0, sqrt_candidate(c, 0), k0);
        lemma_eqm_reduced(fq_mul(sqrt_candidate(c, 0), sqrt_candidate(c, 0)), c);
    } else if eqm(wi, -i) {
        lemma_eqm_mul_int(wi, -i, ci, ci);
        lemma_eqm_mul_int(wi * ci, (-i) * ci, i, i);
        assert(((-i) * ci) * i == -((i * i) * ci)) by (nonlinear_arith);
        lemma_eqm_mul_int(i * i, -1, ci, ci);
        lemma_eqm_sub_int(0, 0, (i * i) * ci, -1 * ci);
        assert(0 - (-1 * ci) == ci);
        lemma_eqm_mul(sqrt_candidate(c, 1), k1, sqrt_candidate(c, 1), k1);
        lemma_eqm_reduced(fq_mul(sqrt_candidate(c, 1), sqrt_candidate(c, 1)), c);
    } else if eqm(wi, -1) {
        lemma_eqm_mul_int(wi, -1, ci, ci);
        lemma_eqm_sub_int(0, 0, wi * ci, -1 * ci);
        assert(0 - (-1 * ci) == ci);
        lemma_eqm_mul(sqrt_candidate(c, 2), k2, sqrt_candidate(c, 2), k2);
        lemma_eqm_reduced(fq_mul(sqrt_candidate(c, 2), sqrt_candidate(c, 2)), c);
    } else {
        lemma_eqm_mul_int(wi, i, ci, ci);
        lemma_eqm_sub_int(0, 0, wi * ci, i * ci);
        lemma_eqm_mul_int(-(wi * ci), 0 - i * ci, i, i);
        assert((0 - i * ci) * i == -((i * i) * ci)) by (nonlinear_arith);
        lemma_eqm_mul_int(i * i, -1, ci, ci);
        lemma_eqm_sub_int(0, 0, (i * i) * ci, -1 * ci);
        assert(0 - (-1 * ci) == ci);
        lemma_eqm_mul(sqrt_candidate(c, 3), k3, sqrt_candidate(c, 3), k3);
        lemma_eqm_reduced(fq_mul(sqrt_candidate(c, 3), sqrt_candidate(c, 3)), c);
    }
}

/// In a field, the square root taken of a square `y^2` is `y` or `-y`.
pub proof fn lemma_sqrt_of_square(y: nat)
    requires
        is_field(),
        y < modulus(),
    ensures
        fq_sqrt(fq_mul(y, y)) matches Some(s) && (s == y || s == fq_neg(y)),
{
    let c = fq_mul(y, y);
    reveal_with_fuel(sqrt_from, 5);
    if y == 0 {
        lemma_exponents();
        vstd::arithmetic::power::lemma0_pow(sqrt_exponent());
        lemma_small_mod(0, modulus());
        assert(0nat * 0nat == 0) by (nonlinear_arith);
        assert(fq_sqrt(c) == Some(0nat));
    } else {
        lemma_some_candidate(y);
        let s = fq_sqrt(c)->0;
        assert(fq_sqrt(c) is Some);
        assert(fq_mul(s, s) == c);
        lemma_equal_squares(s, y);
    }
}

} // verus!
