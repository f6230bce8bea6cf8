//! Fixed-width natural numbers stored as little-endian 64-bit limbs.
use vstd::arithmetic::power2::{lemma2_to64, lemma2_to64_rest, lemma_pow2_unfold, pow2};
use vstd::prelude::*;

verus! {

/// The limb radix, `2^64`.
pub open spec fn radix() -> nat {
    0x1_0000_0000_0000_0000
}

/// `radix()^n`.
pub open spec fn radix_pow(n: nat) -> nat
    decreases n,
{
    if n == 0 {
        1
    } else {
        radix() * radix_pow((n - 1) as nat)
    }
}

/// The natural number denoted by little-endian limbs:
/// `s[0] + s[1] * 2^64 + s[2] * 2^128 + ...`.
pub open spec fn limbs_value(s: Seq<u64>) -> nat
    decreases s.len(),
{
    if s.len() == 0 {
        0
    } else {
        limbs_value(s.drop_last()) + (s.last() as nat) * radix_pow((s.len() - 1) as nat)
    }
}

/// Extending a prefix by one limb adds that limb at its weight.
pub proof fn lemma_value_take_step(s: Seq<u64>, i: int)
    requires
        0 <= i < s.len(),
    ensures
        limbs_value(s.take(i + 1)) == limbs_value(s.take(i)) + (s[i] as nat) * radix_pow(i as nat),
{
    assert(s.take(i + 1).drop_last() =~= s.take(i));
}

/// A number of `n` limbs is below `radix()^n`.
pub proof fn lemma_value_bound(s: Seq<u64>)
    ensures
        limbs_value(s) < radix_pow(s.len()),
    decreases s.len(),
{
    if s.len() > 0 {
        lemma_value_bound(s.drop_last());
        let w = radix_pow((s.len() - 1) as nat);
        let top = s.last() as nat;
        assert(top * w + w <= radix() * w) by (nonlinear_arith)
            requires
                top + 1 <= radix(),
                w >= 0,
        ;
    }
}

/// Adds two 13-limb numbers; the boolean is the carry out of the top limb.
pub fn add_limbs(a: &[u64; 13], b: &[u64; 13]) -> (r: ([u64; 13], bool))
    ensures
        limbs_value(r.0@) + (if r.1 { radix_pow(13) } else { 0 }) == limbs_value(a@) + limbs_value(b@),
{
    let mut out = [0u64; 13];
    let mut carry: u128 = 0;
    let mut i: usize = 0;
    while i < 13
        invariant
            0 <= i <= 13,
            carry <= 1,
            limbs_value(out@.take(i as int)) + carry * radix_pow(i as nat) == limbs_value(
                a@.take(i as int),
            ) + limbs_value(b@.take(i as int)),
        decreases 13 - i,
    {
        let s: u128 = a[i] as u128 + b[i] as u128 + carry;
        let lo: u64 = (s % 0x1_0000_0000_0000_0000u128) as u64;
        let ghost prev = out@;
        let ghost w = radix_pow(i as nat);
        let ghost c0 = carry as nat;
        out[i] = lo;
        carry = s / 0x1_0000_0000_0000_0000u128;
        proof {
            assert(out@.take(i as int) =~= prev.take(i as int));
            lemma_value_take_step(out@, i as int);
            lemma_value_take_step(a@, i as int);
            lemma_value_take_step(b@, i as int);
            assert((a[i as int] as nat) * w + (b[i as int] as nat) * w + c0 * w == (lo as nat) * w
                + (carry as nat) * (radix() * w)) by (nonlinear_arith)
                requires
                    a[i as int] as nat + b[i as int] as nat + c0 == lo as nat + (carry as nat)
                        * radix(),
            ;
        }
        i += 1;
    }
    proof {
        assert(out@.take(13) =~= out@);
        assert(a@.take(13) =~= a@);
        assert(b@.take(13) =~= b@);
    }
    (out, carry == 1)
}

/// Subtracts two 13-limb numbers; the boolean is the borrow out of the top
/// limb, set exactly when `a < b`.
pub fn sub_limbs(a: &[u64; 13], b: &[u64; 13]) -> (r: ([u64; 13], bool))
    ensures
        limbs_value(r.0@) + limbs_value(b@) == limbs_value(a@) + (if r.1 { radix_pow(13) } else { 0 }),
        r.1 <==> limbs_value(a@) < limbs_value(b@),
{
    let mut out = [0u64; 13];
    let mut borrow: u128 = 0;
    let mut i: usize = 0;
    while i < 13
        invariant
            0 <= i <= 13,
            borrow <= 1,
            limbs_value(out@.take(i as int)) + limbs_value(b@.take(i as int)) == limbs_value(
                a@.take(i as int),
            ) + borrow * radix_pow(i as nat),
        decreases 13 - i,
    {
        let s: u128 = 0x1_0000_0000_0000_0000u128 + a[i] as u128 - b[i] as u128 - borrow;
        let lo: u64 = (s % 0x1_0000_0000_0000_0000u128) as u64;
        let ghost prev = out@;
        let ghost w = radix_pow(i as nat);
        let ghost c0 = borrow as nat;
        out[i] = lo;
        borrow = 1 - s / 0x1_0000_0000_0000_0000u128;
        proof {
            assert(out@.take(i as int) =~= prev.take(i as int));
            lemma_value_take_step(out@, i as int);
            lemma_value_take_step(a@, i as int);
            lemma_value_take_step(b@, i as int);
            assert((lo as nat) * w + (b[i as int] as nat) * w + c0 * w == (a[i as int] as nat) * w
                + (borrow as nat) * (radix() * w)) by (nonlinear_arith)
                requires
                    lo as nat + b[i as int] as nat + c0 == a[i as int] as nat + (borrow as nat)
                        * radix(),
            ;
        }
        i += 1;
    }
    proof {
        assert(out@.take(13) =~= out@);
        assert(a@.take(13) =~= a@);
        assert(b@.take(13) =~= b@);
        lemma_value_bound(out@);
        lemma_value_bound(a@);
        lemma_value_bound(b@);
    }
    (out, borrow == 1)
}

/// The natural number denoted by little-endian bits:
/// `s[0] + 2 * s[1] + 4 * s[2] + ...`.
pub open spec fn bits_value(s: Seq<bool>) -> nat
    decreases s.len(),
{
    if s.len() == 0 {
        0
    } else {
        (if s[0] { 1nat } else { 0nat }) + 2 * bits_value(s.drop_first())
    }
}

/// Appending a bit adds it at weight `2^len`.
pub proof fn lemma_bits_push(s: Seq<bool>, b: bool)
    ensures
        bits_value(s.push(b)) == bits_value(s) + (if b { pow2(s.len()) } else { 0 }),
    decreases s.len(),
{
    let t = s.push(b);
    if s.len() == 0 {
        assert(t.drop_first() =~= Seq::<bool>::empty());
        assert(bits_value(t.drop_first()) == 0);
        assert(t[0] == b);
        lemma2_to64();
    } else {
        assert(t.drop_first() =~= s.drop_first().push(b));
        assert(t[0] == s[0]);
        lemma_bits_push(s.drop_first(), b);
        lemma_pow2_unfold(s.len());
    }
}

/// Stepping a suffix back by one position doubles it and adds the new bit.
pub proof fn lemma_bits_skip_step(s: Seq<bool>, j: int)
    requires
        0 <= j < s.len(),
    ensures
        bits_value(s.skip(j)) == (if s[j] { 1nat } else { 0nat }) + 2 * bits_value(s.skip(j + 1)),
{
    assert(s.skip(j).drop_first() =~= s.skip(j + 1));
}

/// The bits of a limb sequence, least significant first, 64 per limb.
pub fn bits_le(limbs: &[u64]) -> (bits: Vec<bool>)
    requires
        limbs@.len() * 64 <= usize::MAX,
    ensures
        bits@.len() == 64 * limbs@.len(),
        bits_value(bits@) == limbs_value(limbs@),
{
    let n = limbs.len();
    let mut bits: Vec<bool> = Vec::new();
    let mut i: usize = 0;
    proof {
        lemma2_to64();
    }
    while i < n
        invariant
            0 <= i <= n,
            n == limbs@.len(),
            bits@.len() == 64 * i,
            bits_value(bits@) == limbs_value(limbs@.take(i as int)),
            pow2(bits@.len()) == radix_pow(i as nat),
        decreases n - i,
    {
        let limb = limbs[i];
        let mut w = limb;
        let mut k: usize = 0;
        let ghost base = limbs_value(limbs@.take(i as int));
        let ghost wt = radix_pow(i as nat);
        let ghost mut low: nat = 0;
        let ghost mut pk: nat = 1;
        proof {
            lemma2_to64();
        }
        while k < 64
            invariant
                0 <= k <= 64,
                bits@.len() == 64 * i + k,
                pk == pow2(k as nat),
                limb == w * pk + low,
                bits_value(bits@) == base + low * wt,
                pow2(bits@.len()) == pk * wt,
            decreases 64 - k,
        {
            let bit = w % 2 == 1;
            let ghost w0 = w as nat;
            let ghost b: nat = if bit { 1 } else { 0 };
            proof {
                lemma_bits_push(bits@, bit);
                lemma_pow2_unfold(bits@.len() + 1);
                lemma_pow2_unfold((k + 1) as nat);
            }
            bits.push(bit);
            w = w / 2;
            proof {
                assert(w0 == 2 * w + b);
                assert(w0 * pk + low == w * (2 * pk) + (low + b * pk)) by (nonlinear_arith)
                    requires
                        w0 == 2 * w + b,
                ;
                assert((low + b * pk) * wt == low * wt + b * (pk * wt)) by (nonlinear_arith);
                assert(2 * (pk * wt) == (2 * pk) * wt) by (nonlinear_arith);
                low = low + b * pk;
                pk = 2 * pk;
            }
            k += 1;
        }
        proof {
            lemma2_to64_rest();
            assert(pk == radix());
            assert(w == 0) by (nonlinear_arith)
                requires
                    limb == w * pk + low,
                    pk == 0x1_0000_0000_0000_0000,
                    limb <= 0xffff_ffff_ffff_ffff,
            ;
            lemma_value_take_step(limbs@, i as int);
            assert(pk * wt == radix_pow((i + 1) as nat));
        }
        i += 1;
    }
    proof {
        assert(limbs@.take(n as int) =~= limbs@);
    }
    bits
}

/// `256^n`.
pub open spec fn byte_pow(n: nat) -> nat
    decreases n,
{
    if n == 0 {
        1
    } else {
        256 * byte_pow((n - 1) as nat)
    }
}

/// The natural number denoted by little-endian bytes:
/// `s[0] + 256 * s[1] + 256^2 * s[2] + ...`.
pub open spec fn bytes_value(s: Seq<u8>) -> nat
    decreases s.len(),
{
    if s.len() == 0 {
        0
    } else {
        (s[0] as nat) + 256 * bytes_value(s.drop_first())
    }
}

/// The `n` low little-endian bytes of `v`.
pub open spec fn le_bytes(v: nat, n: nat) -> Seq<u8>
    decreases n,
{
    if n == 0 {
        Seq::<u8>::empty()
    } else {
        seq![(v % 256) as u8] + le_bytes(v / 256, (n - 1) as nat)
    }
}

/// Appending a byte adds it at weight `256^len`.
pub proof fn lemma_bytes_push(s: Seq<u8>, b: u8)
    ensures
        bytes_value(s.push(b)) == bytes_value(s) + (b as nat) * byte_pow(s.len()),
    decreases s.len(),
{
    let t = s.push(b);
    if s.len() == 0 {
        assert(t.drop_first() =~= Seq::<u8>::empty());
        assert(bytes_value(t.drop_first()) == 0);
        assert(t[0] == b);
        assert(byte_pow(0) == 1);
        assert((b as nat) * 1 == b as nat) by (nonlinear_arith);
    } else {
        assert(t.drop_first() =~= s.drop_first().push(b));
        assert(t[0] == s[0]);
        lemma_bytes_push(s.drop_first(), b);
        let w = byte_pow((s.len() - 1) as nat);
        assert(byte_pow(s.len()) == 256 * w);
        assert(s.drop_first().len() == s.len() - 1);
        assert(256 * ((b as nat) * w) == (b as nat) * (256 * w)) by (nonlinear_arith);
    }
}

/// Extending a prefix by one byte adds that byte at its weight.
pub proof fn lemma_bytes_take_step(s: Seq<u8>, i: int)
    requires
        0 <= i < s.len(),
    ensures
        bytes_value(s.take(i + 1)) == bytes_value(s.take(i)) + (s[i] as nat) * byte_pow(i as nat),
{
    assert(s.take(i + 1) =~= s.take(i).push(s[i]));
    lemma_bytes_push(s.take(i), s[i]);
}

/// The `n` low bytes of a number below `256^n` denote that number.
pub proof fn lemma_le_bytes_value(v: nat, n: nat)
    requires
        v < byte_pow(n),
    ensures
        le_bytes(v, n).len() == n,
        bytes_value(le_bytes(v, n)) == v,
    decreases n,
{
    if n > 0 {
        lemma_le_bytes_value(v / 256, (n - 1) as nat);
        assert(le_bytes(v, n).drop_first() =~= le_bytes(v / 256, (n - 1) as nat));
    }
}

/// Byte sequences of one length that denote the same number are equal.
pub proof fn lemma_bytes_injective(a: Seq<u8>, b: Seq<u8>)
    requires
        a.len() == b.len(),
        bytes_value(a) == bytes_value(b),
    ensures
        a == b,
    decreases a.len(),
{
    if a.len() > 0 {
        lemma_bytes_injective(a.drop_first(), b.drop_first());
        assert(a =~= seq![a[0]] + a.drop_first());
        assert(b =~= seq![b[0]] + b.drop_first());
    } else {
        assert(a =~= b);
    }
}

/// The bytes of a 13-limb number, least significant first, 8 per limb.
pub fn limbs_to_bytes(limbs: &[u64; 13]) -> (bytes: Vec<u8>)
    ensures
        bytes@.len() == 104,
        bytes_value(bytes@) == limbs_value(limbs@),
{
    let mut bytes: Vec<u8> = Vec::new();
    let mut i: usize = 0;
    while i < 13
        invariant
            0 <= i <= 13,
            bytes@.len() == 8 * i,
            bytes_value(bytes@) == limbs_value(limbs@.take(i as int)),
            byte_pow(bytes@.len()) == radix_pow(i as nat),
        decreases 13 - i,
    {
        let limb = limbs[i];
        let mut w = limb;
        let mut k: usize = 0;
        let ghost base = limbs_value(limbs@.take(i as int));
        let ghost wt = radix_pow(i as nat);
        let ghost mut low: nat = 0;
        let ghost mut pk: nat = 1;
        while k < 8
            invariant
                0 <= k <= 8,
                bytes@.len() == 8 * i + k,
                pk == byte_pow(k as nat),
                limb == w * pk + low,
                bytes_value(bytes@) == base + low * wt,
                byte_pow(bytes@.len()) == pk * wt,
            decreases 8 - k,
        {
            let byte = (w % 256) as u8;
            let ghost w0 = w as nat;
            let ghost b: nat = byte as nat;
            proof {
                lemma_bytes_push(bytes@, byte);
            }
            bytes.push(byte);
            w = w / 256;
            proof {
                assert(w0 == 256 * w + b);
                assert(w0 * pk + low == w * (256 * pk) + (low + b * pk)) by (nonlinear_arith)
                    requires
                        w0 == 256 * w + b,
                ;
                assert((low + b * pk) * wt == low * wt + b * (pk * wt)) by (nonlinear_arith);
                assert(256 * (pk * wt) == (256 * pk) * wt) by (nonlinear_arith);
                low = low + b * pk;
                pk = 256 * pk;
            }
            k += 1;
        }
        proof {
            reveal_with_fuel(byte_pow, 9);
            assert(pk == radix());
            assert(w == 0) by (nonlinear_arith)
                requires
                    limb == w * pk + low,
                    pk == 0x1_0000_0000_0000_0000,
                    limb <= 0xffff_ffff_ffff_ffff,
            ;
            lemma_value_take_step(limbs@, i as int);
            assert(pk * wt == radix_pow((i + 1) as nat));
        }
        i += 1;
    }
    proof {
        assert(limbs@.take(13) =~= limbs@);
    }
    bytes
}

/// The 13-limb number denoted by 104 little-endian bytes.
pub fn limbs_from_bytes(bytes: &[u8; 104]) -> (limbs: [u64; 13])
    ensures
        limbs_value(limbs@) == bytes_value(bytes@),
{
    let mut limbs = [0u64; 13];
    let mut i: usize = 0;
    proof {
        assert(bytes@.take(0) =~= Seq::<u8>::empty());
    }
    while i < 13
        invariant
            0 <= i <= 13,
            bytes@.len() == 104,
            limbs_value(limbs@.take(i as int)) == bytes_value(bytes@.take(8 * i)),
            byte_pow((8 * i) as nat) == radix_pow(i as nat),
        decreases 13 - i,
    {
        let mut w: u64 = 0;
        let mut k: usize = 8;
        let ghost chunk = bytes@.subrange(8 * i, 8 * i + 8);
        proof {
            assert(chunk.skip(8) =~= Seq::<u8>::empty());
        }
        while k > 0
            invariant
                0 <= k <= 8,
                0 <= i < 13,
                bytes@.len() == 104,
                chunk == bytes@.subrange(8 * i, 8 * i + 8),
                w == bytes_value(chunk.skip(k as int)),
                w < byte_pow((8 - k) as nat),
                byte_pow((8 - k) as nat) <= 0x1_0000_0000_0000_0000,
            decreases k,
        {
            k -= 1;
            proof {
                assert(chunk.skip(k as int).drop_first() =~= chunk.skip(k + 1));
                reveal_with_fuel(byte_pow, 9);
            }
            w = w * 256 + bytes[8 * i + k] as u64;
        }
        let ghost prev = limbs@;
        limbs[i] = w;
        proof {
            assert(chunk.skip(0) =~= chunk);
            assert(limbs@.take(i as int) =~= prev.take(i as int));
            lemma_value_take_step(limbs@, i as int);
            lemma_bytes_concat(bytes@.take(8 * i), chunk);
            assert(bytes@.take(8 * i) + chunk =~= bytes@.take(8 * (i + 1)));
            reveal_with_fuel(byte_pow, 9);
            lemma_byte_pow_adds((8 * i) as nat, 8);
        }
        i += 1;
    }
    proof {
        assert(limbs@.take(13) =~= limbs@);
        assert(bytes@.take(104) =~= bytes@);
    }
    limbs
}

/// `256^(m + n) == 256^m * 256^n`.
pub proof fn lemma_byte_pow_adds(m: nat, n: nat)
    ensures
        byte_pow(m + n) == byte_pow(m) * byte_pow(n),
    decreases n,
{
    if n == 0 {
        assert(byte_pow(m) * 1 == byte_pow(m)) by (nonlinear_arith);
    } else {
        lemma_byte_pow_adds(m, (n - 1) as nat);
        let a = byte_pow(m);
        let b = byte_pow((n - 1) as nat);
        assert(256 * (a * b) == a * (256 * b)) by (nonlinear_arith);
    }
}

/// The value of a concatenation: the second part is weighted by the length
/// of the first.
pub proof fn lemma_bytes_concat(a: Seq<u8>, b: Seq<u8>)
    ensures
        bytes_value(a + b) == bytes_value(a) + bytes_value(b) * byte_pow(a.len()),
    decreases b.len(),
{
    if b.len() == 0 {
        assert(a + b =~= a);
        assert(0 * byte_pow(a.len()) == 0) by (nonlinear_arith);
    } else {
        let init = b.drop_last();
        assert(a + b =~= (a + init).push(b.last()));
        assert(b =~= init.push(b.last()));
        lemma_bytes_push(a + init, b.last());
        lemma_bytes_push(init, b.last());
        lemma_bytes_concat(a, init);
        lemma_byte_pow_adds(a.len(), init.len());
        let x = bytes_value(init);
        let l = b.last() as nat;
        let wa = byte_pow(a.len());
        let wi = byte_pow(init.len());
        assert((x + l * wi) * wa == x * wa + l * (wa * wi)) by (nonlinear_arith);
    }
}

/// `256^(8 n) == (2^64)^n`.
pub proof fn lemma_byte_pow_radix(n: nat)
    ensures
        byte_pow(8 * n) == radix_pow(n),
    decreases n,
{
    if n > 0 {
        lemma_byte_pow_radix((n - 1) as nat);
        lemma_byte_pow_adds((8 * (n - 1)) as nat, 8);
        reveal_with_fuel(byte_pow, 9);
        assert(byte_pow(8) == radix());
        let w = radix_pow((n - 1) as nat);
        assert(w * radix() == radix() * w) by (nonlinear_arith);
    }
}

/// Dropping high bytes keeps the value of a number that fits in the rest.
pub proof fn lemma_bytes_truncate(s: Seq<u8>, k: int)
    requires
        0 <= k <= s.len(),
        bytes_value(s) < byte_pow(k as nat),
    ensures
        bytes_value(s.take(k)) == bytes_value(s),
{
    lemma_bytes_concat(s.take(k), s.skip(k));
    assert(s.take(k) + s.skip(k) =~= s);
    let hi = bytes_value(s.skip(k));
    let w = byte_pow(k as nat);
    assert(hi == 0) by (nonlinear_arith)
        requires
            hi * w < w,
            hi >= 0,
    ;
    assert(0 * w == 0) by (nonlinear_arith);
}

/// Appending zero bytes keeps the value.
pub proof fn lemma_bytes_pad(s: Seq<u8>, t: Seq<u8>)
    requires
        forall|i: int| 0 <= i < t.len() ==> t[i] == 0,
    ensures
        bytes_value(s + t) == bytes_value(s),
    decreases t.len(),
{
    if t.len() == 0 {
        assert(s + t =~= s);
    } else {
        let init = t.drop_last();
        assert(s + t =~= (s + init).push(0u8));
        lemma_bytes_push(s + init, 0u8);
        lemma_bytes_pad(s, init);
        assert(0 * byte_pow((s + init).len()) == 0) by (nonlinear_arith);
    }
}

} // verus!
