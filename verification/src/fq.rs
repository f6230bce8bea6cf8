//! The base field `Fq` of the curve: integers modulo a 782-bit prime.
use crate::algebra::lemma_unit;
use crate::limbs::{
    add_limbs, bits_le, bits_value, byte_pow, bytes_value, le_bytes, lemma_bits_skip_step,
    lemma_byte_pow_radix, lemma_bytes_injective, lemma_bytes_pad, lemma_bytes_take_step,
    lemma_bytes_truncate, lemma_le_bytes_value, lemma_value_bound, lemma_value_take_step,
    limbs_from_bytes, limbs_to_bytes, limbs_value, radix_pow, sub_limbs,
};
use crate::roots::lemma_sqrt_of_square;
use vstd::arithmetic::div_mod::{
    lemma_add_mod_noop, lemma_fundamental_div_mod_converse, lemma_mul_mod_noop, lemma_small_mod,
};
use vstd::arithmetic::power::{lemma0_pow, lemma_pow0, lemma_pow1, lemma_pow_adds, pow};
use vstd::prelude::*;
use vstd::std_specs::cmp::PartialEqSpecImpl;

verus! {

/// The field characteristic `q`.
pub open spec fn modulus() -> nat {
    22369874298875696930346742206501054934775599465297184582183496627646774052458024540232479018147881220178054575403841904557897715222633333372134756426301062487682326574958588001132586331462553235407484089304633076250782629492557320825577nat
}

/// `(a + b) mod q`.
pub open spec fn fq_add(a: nat, b: nat) -> nat {
    (a + b) % modulus()
}

/// `(a - b) mod q`.
pub open spec fn fq_sub(a: nat, b: nat) -> nat {
    ((a as int - b as int) % (modulus() as int)) as nat
}

/// `-a mod q`.
pub open spec fn fq_neg(a: nat) -> nat {
    fq_sub(0, a)
}

/// `(a * b) mod q`.
pub open spec fn fq_mul(a: nat, b: nat) -> nat {
    (a * b) % modulus()
}

/// `a^e mod q`.
pub open spec fn fq_pow(a: nat, e: nat) -> nat {
    (pow(a as int, e) % (modulus() as int)) as nat
}

/// The Fermat inverse `a^(q - 2) mod q`. For prime `q` this is the
/// multiplicative inverse of every nonzero `a`.
pub open spec fn fq_inv(a: nat) -> nat {
    fq_pow(a, (modulus() - 2) as nat)
}

/// Whether the Fermat inverse of `a` is a multiplicative inverse of `a`.
pub open spec fn fq_is_unit(a: nat) -> bool {
    fq_mul(a, fq_inv(a)) == 1
}

/// Fermat's little theorem for the characteristic: the power `a^(q - 2)`
/// is a multiplicative inverse of every nonzero residue `a`. It holds
/// because `q` is prime. The executable arithmetic does not depend on it;
/// what does is stated with it as a hypothesis.
pub open spec fn is_field() -> bool {
    forall|a: nat| 0 < a < modulus() ==> #[trigger] fq_is_unit(a)
}

/// The exponent `(t + 1) / 2`, where `q - 1 = 8 * t` with `t` odd.
pub open spec fn sqrt_exponent() -> nat {
    1398117143679731058146671387906315933423474966581074036386468539227923378278626533764529938634242576261128410962740119034868607201414583335758422276643816405480145410934911750070786645716409577212967755581539567265673914343284832551599nat
}

/// A primitive eighth root of unity in the field, `13^t mod q`.
pub open spec fn root_of_unity() -> nat {
    2074162306939665863981475506847459515465255704025377955822442145946643979280864301264752418563098018758474947837383023555596090616589646251166139319040186568857077710158671129389669592987758026818670035575148914500641155660047033682820nat
}

/// The `k`-th square-root candidate of `a`:
/// `a^((t + 1) / 2) * root_of_unity()^k`.
pub open spec fn sqrt_candidate(a: nat, k: nat) -> nat
    decreases k,
{
    if k == 0 {
        fq_pow(a, sqrt_exponent())
    } else {
        fq_mul(sqrt_candidate(a, (k - 1) as nat), root_of_unity())
    }
}

/// The first of the four square-root candidates of `a` that squares to `a`,
/// searching from index `k` on.
pub open spec fn sqrt_from(a: nat, k: nat) -> Option<nat>
    decreases 4 - k,
{
    if k >= 4 {
        None
    } else if fq_mul(sqrt_candidate(a, k), sqrt_candidate(a, k)) == a {
        Some(sqrt_candidate(a, k))
    } else {
        sqrt_from(a, k + 1)
    }
}

/// The square root that [`Fq::sqrt`] selects, if any candidate is one.
pub open spec fn fq_sqrt(a: nat) -> Option<nat> {
    sqrt_from(a, 0)
}

/// One step of binary multiplication: doubling the accumulator and adding
/// the multiplicand tracks one more multiplier bit.
pub proof fn lemma_mul_step(a: nat, m: nat)
    requires
        a < modulus(),
    ensures
        fq_add(fq_mul(a, m), fq_mul(a, m)) == fq_mul(a, 2 * m),
        fq_add(fq_mul(a, 2 * m), a) == fq_mul(a, 2 * m + 1),
{
    let q = modulus() as int;
    lemma_add_mod_noop((a * m) as int, (a * m) as int, q);
    assert(a * m + a * m == a * (2 * m)) by (nonlinear_arith);
    lemma_small_mod(a, modulus());
    lemma_add_mod_noop((a * (2 * m)) as int, a as int, q);
    assert(a * (2 * m) + a == a * (2 * m + 1)) by (nonlinear_arith);
}

/// One step of binary exponentiation: squaring the accumulator and
/// multiplying by the base tracks one more exponent bit.
pub proof fn lemma_pow_step(a: nat, m: nat)
    requires
        a < modulus(),
    ensures
        fq_mul(fq_pow(a, m), fq_pow(a, m)) == fq_pow(a, 2 * m),
        fq_mul(fq_pow(a, 2 * m), a) == fq_pow(a, 2 * m + 1),
{
    let q = modulus() as int;
    let b = a as int;
    lemma_mul_mod_noop(pow(b, m), pow(b, m), q);
    lemma_pow_adds(b, m, m);
    lemma_small_mod(a, modulus());
    lemma_mul_mod_noop(pow(b, 2 * m), b, q);
    lemma_pow_adds(b, 2 * m, 1);
    lemma_pow1(b);
}

/// The number of bytes of an encoded field element: the bit length of the
/// characteristic, 782, rounded up to whole bytes.
pub const FQ_BYTES: usize = 98;

/// The characteristic is below `2^782`, so that an encoded field element
/// leaves the two high bits of its last byte clear.
pub proof fn lemma_modulus_bits()
    ensures
        modulus() < 64 * byte_pow(97),
        64 * byte_pow(97) < byte_pow(98),
        byte_pow(98) < byte_pow(104),
{
    lemma_byte_pow_radix(12);
    lemma_byte_pow_radix(13);
    reveal_with_fuel(radix_pow, 14);
    reveal_with_fuel(byte_pow, 3);
    assert(byte_pow(97) == 256 * byte_pow(96));
    assert(byte_pow(98) == 256 * byte_pow(97));
}

/// The value of a 13-limb number, written out.
pub proof fn lemma_value_13(s: Seq<u64>)
    requires
        s.len() == 13,
    ensures
        limbs_value(s) == (s[0] as nat) * 0x1nat + (s[1] as nat) * 0x10000000000000000nat + (s[2] as nat) * 0x100000000000000000000000000000000nat + (s[3] as nat) * 0x1000000000000000000000000000000000000000000000000nat + (s[4] as nat) * 0x10000000000000000000000000000000000000000000000000000000000000000nat + (s[5] as nat) * 0x100000000000000000000000000000000000000000000000000000000000000000000000000000000nat + (s[6] as nat) * 0x1000000000000000000000000000000000000000000000000000000000000000000000000000000000000000000000000nat + (s[7] as nat) * 0x10000000000000000000000000000000000000000000000000000000000000000000000000000000000000000000000000000000000000000nat + (s[8] as nat) * 0x100000000000000000000000000000000000000000000000000000000000000000000000000000000000000000000000000000000000000000000000000000000nat + (s[9] as nat) * 0x1000000000000000000000000000000000000000000000000000000000000000000000000000000000000000000000000000000000000000000000000000000000000000000000000nat + (s[10] as nat) * 0x10000000000000000000000000000000000000000000000000000000000000000000000000000000000000000000000000000000000000000000000000000000000000000000000000000000000000000nat + (s[11] as nat) * 0x100000000000000000000000000000000000000000000000000000000000000000000000000000000000000000000000000000000000000000000000000000000000000000000000000000000000000000000000000000000nat + (s[12] as nat) * 0x1000000000000000000000000000000000000000000000000000000000000000000000000000000000000000000000000000000000000000000000000000000000000000000000000000000000000000000000000000000000000000000000000nat,
{
    reveal_with_fuel(radix_pow, 14);
    assert(limbs_value(s.take(0)) == 0);
    lemma_value_take_step(s, 0);
    lemma_value_take_step(s, 1);
    lemma_value_take_step(s, 2);
    lemma_value_take_step(s, 3);
    lemma_value_take_step(s, 4);
    lemma_value_take_step(s, 5);
    lemma_value_take_step(s, 6);
    lemma_value_take_step(s, 7);
    lemma_value_take_step(s, 8);
    lemma_value_take_step(s, 9);
    lemma_value_take_step(s, 10);
    lemma_value_take_step(s, 11);
    lemma_value_take_step(s, 12);
    assert(s.take(13) =~= s);
}

/// The limbs of the field characteristic.
pub fn modulus_limbs() -> (r: [u64; 13])
    ensures
        limbs_value(r@) == modulus(),
{
    let r: [u64; 13] = [
        0xdace79b57b942ae9,
        0x545d85c16dfd424a,
        0xee135c065f4d26b7,
        0x9c2f764a12c4024b,
        0x1ad533049cfe6a39,
        0x52a3fb77c79c1320,
        0xab3596c8617c5792,
        0x830c728d80f9d78b,
        0x6a7223ee72023d07,
        0xbc5d176b746af026,
        0xe959283d8f526663,
        0xc4d2263babf8941f,
        0x0000000000003848,
    ];
    proof {
        lemma_value_13(r@);
    }
    r
}

/// An element of the base field, held as its canonical representative in
/// `[0, q)`.
#[derive(Clone, Copy, Debug)]
pub struct Fq {
    limbs: [u64; 13],
}

impl View for Fq {
    type V = nat;

    closed spec fn view(&self) -> nat {
        limbs_value(self.limbs@)
    }
}

impl Fq {
    /// The representative is canonical: it lies below the characteristic.
    #[verifier::type_invariant]
    pub open spec fn reduced(self) -> bool {
        self@ < modulus()
    }

    /// The additive identity.
    pub fn zero() -> (r: Fq)
        ensures
            r@ == 0,
    {
        let limbs = [0u64; 13];
        proof {
            lemma_value_13(limbs@);
        }
        Fq { limbs }
    }

    /// The multiplicative identity.
    pub fn one() -> (r: Fq)
        ensures
            r@ == 1,
    {
        Fq::from_u64(1)
    }

    /// The field element with the given small value.
    pub fn from_u64(v: u64) -> (r: Fq)
        ensures
            r@ == v,
    {
        let mut limbs = [0u64; 13];
        limbs[0] = v;
        proof {
            lemma_value_13(limbs@);
        }
        Fq { limbs }
    }

    /// The field element with the given limbs, if they denote a number below
    /// the characteristic.
    pub fn from_limbs(limbs: [u64; 13]) -> (r: Option<Fq>)
        ensures
            r matches Some(x) ==> x@ == limbs_value(limbs@),
            r is Some <==> limbs_value(limbs@) < modulus(),
    {
        let m = modulus_limbs();
        let (_, below) = sub_limbs(&limbs, &m);
        if below {
            Some(Fq { limbs })
        } else {
            None
        }
    }

    /// The little-endian limbs of the canonical representative.
    pub fn to_limbs(&self) -> (r: [u64; 13])
        ensures
            limbs_value(r@) == self@,
            self@ < modulus(),
    {
        proof {
            use_type_invariant(self);
        }
        self.limbs
    }

    /// The canonical little-endian encoding in [`FQ_BYTES`] bytes. The two
    /// high bits of the last byte are clear.
    pub fn to_bytes_le(&self) -> (r: Vec<u8>)
        ensures
            r@ == le_bytes(self@, 98),
            r@.len() == 98,
            bytes_value(r@) == self@,
            r@[97] < 64,
    {
        proof {
            use_type_invariant(self);
            lemma_modulus_bits();
        }
        let mut bytes = limbs_to_bytes(&self.limbs);
        proof {
            lemma_bytes_truncate(bytes@, 98);
        }
        bytes.truncate(98);
        proof {
            lemma_le_bytes_value(self@, 98);
            lemma_bytes_injective(bytes@, le_bytes(self@, 98));
            lemma_bytes_take_step(bytes@, 97);
            assert(bytes@.take(98) =~= bytes@);
            let top = bytes@[97] as nat;
            let w = byte_pow(97);
            assert(top < 64) by (nonlinear_arith)
                requires
                    top * w < 64 * w,
            ;
        }
        bytes
    }

    /// The field element whose canonical encoding is `bytes`, if `bytes`
    /// has [`FQ_BYTES`] bytes and denotes a number below the characteristic.
    pub fn from_bytes_le(bytes: &[u8]) -> (r: Option<Fq>)
        ensures
            r matches Some(x) ==> x@ == bytes_value(bytes@),
            r is Some <==> bytes@.len() == 98 && bytes_value(bytes@) < modulus(),
    {
        if bytes.len() != FQ_BYTES {
            return None;
        }
        let mut padded = [0u8; 104];
        let mut k: usize = 0;
        while k < 98
            invariant
                0 <= k <= 98,
                bytes@.len() == 98,
                padded@.take(k as int) =~= bytes@.take(k as int),
                forall|i: int| k <= i < 104 ==> padded@[i] == 0u8,
            decreases 98 - k,
        {
            padded[k] = bytes[k];
            k += 1;
        }
        proof {
            assert(bytes@.take(98) =~= bytes@);
            assert(padded@ =~= bytes@ + padded@.skip(98));
            lemma_bytes_pad(bytes@, padded@.skip(98));
        }
        let limbs = limbs_from_bytes(&padded);
        Fq::from_limbs(limbs)
    }

    /// Whether `self` is the additive identity.
    pub fn is_zero(&self) -> (r: bool)
        ensures
            r <==> self@ == 0,
    {
        let one = Fq::from_u64(1);
        let (_, below) = sub_limbs(&self.limbs, &one.limbs);
        below
    }

    /// Whether two elements are the same residue.
    pub fn equals(&self, other: &Fq) -> (r: bool)
        ensures
            r <==> self@ == other@,
    {
        let (_, below) = sub_limbs(&self.limbs, &other.limbs);
        let (_, above) = sub_limbs(&other.limbs, &self.limbs);
        !below && !above
    }

    /// Whether the representative of `self` is smaller than that of `other`.
    pub fn less_than(&self, other: &Fq) -> (r: bool)
        ensures
            r <==> self@ < other@,
    {
        let (_, below) = sub_limbs(&self.limbs, &other.limbs);
        below
    }

    /// Field addition.
    pub fn add(&self, other: &Fq) -> (r: Fq)
        ensures
            r@ == fq_add(self@, other@),
    {
        proof {
            use_type_invariant(self);
            use_type_invariant(other);
            lemma_value_bound(self.limbs@);
        }
        let m = modulus_limbs();
        let (sum, carry) = add_limbs(&self.limbs, &other.limbs);
        proof {
            lemma_value_13(m@);
            reveal_with_fuel(radix_pow, 14);
            assert(!carry);
        }
        let (diff, below) = sub_limbs(&sum, &m);
        if below {
            proof {
                lemma_small_mod(limbs_value(sum@), modulus());
            }
            Fq { limbs: sum }
        } else {
            proof {
                lemma_fundamental_div_mod_converse(
                    (self@ + other@) as int,
                    modulus() as int,
                    1,
                    limbs_value(diff@) as int,
                );
            }
            Fq { limbs: diff }
        }
    }

    /// Field subtraction.
    pub fn sub(&self, other: &Fq) -> (r: Fq)
        ensures
            r@ == fq_sub(self@, other@),
    {
        proof {
            use_type_invariant(self);
            use_type_invariant(other);
        }
        let m = modulus_limbs();
        let (diff, below) = sub_limbs(&self.limbs, &other.limbs);
        if below {
            let (wrapped, carry) = add_limbs(&diff, &m);
            proof {
                lemma_value_13(m@);
                reveal_with_fuel(radix_pow, 14);
                lemma_value_bound(wrapped@);
                assert(carry);
                lemma_fundamental_div_mod_converse(
                    self@ as int - other@ as int,
                    modulus() as int,
                    -1,
                    limbs_value(wrapped@) as int,
                );
            }
            Fq { limbs: wrapped }
        } else {
            proof {
                lemma_small_mod(limbs_value(diff@), modulus());
            }
            Fq { limbs: diff }
        }
    }

    /// Field negation.
    pub fn neg(&self) -> (r: Fq)
        ensures
            r@ == fq_neg(self@),
    {
        Fq::zero().sub(self)
    }

    /// `2 * self`.
    pub fn double(&self) -> (r: Fq)
        ensures
            r@ == fq_add(self@, self@),
    {
        self.add(self)
    }

    /// Field multiplication, by binary expansion of `other`.
    pub fn mul(&self, other: &Fq) -> (r: Fq)
        ensures
            r@ == fq_mul(self@, other@),
    {
        proof {
            use_type_invariant(self);
        }
        let bits = bits_le(other.limbs.as_slice());
        let mut acc = Fq::zero();
        let mut j: usize = bits.len();
        proof {
            assert(bits@.skip(j as int) =~= Seq::<bool>::empty());
            assert(self@ * 0 == 0) by (nonlinear_arith);
            lemma_small_mod(0, modulus());
        }
        while j > 0
            invariant
                0 <= j <= bits@.len(),
                self@ < modulus(),
                acc@ == fq_mul(self@, bits_value(bits@.skip(j as int))),
            decreases j,
        {
            j -= 1;
            proof {
                lemma_bits_skip_step(bits@, j as int);
                lemma_mul_step(self@, bits_value(bits@.skip(j + 1)));
            }
            acc = acc.double();
            if bits[j] {
                acc = acc.add(self);
            }
        }
        proof {
            assert(bits@.skip(0) =~= bits@);
        }
        acc
    }

    /// `self * self`.
    pub fn square(&self) -> (r: Fq)
        ensures
            r@ == fq_mul(self@, self@),
    {
        self.mul(self)
    }

    /// `self` raised to the number whose little-endian limbs are `exp`.
    pub fn pow(&self, exp: &[u64]) -> (r: Fq)
        requires
            exp@.len() * 64 <= usize::MAX,
        ensures
            r@ == fq_pow(self@, limbs_value(exp@)),
    {
        proof {
            use_type_invariant(self);
        }
        let bits = bits_le(exp);
        let mut acc = Fq::one();
        let mut j: usize = bits.len();
        proof {
            assert(bits@.skip(j as int) =~= Seq::<bool>::empty());
            lemma_pow0(self@ as int);
            lemma_small_mod(1, modulus());
        }
        while j > 0
            invariant
                0 <= j <= bits@.len(),
                self@ < modulus(),
                acc@ == fq_pow(self@, bits_value(bits@.skip(j as int))),
            decreases j,
        {
            j -= 1;
            proof {
                lemma_bits_skip_step(bits@, j as int);
                lemma_pow_step(self@, bits_value(bits@.skip(j + 1)));
            }
            acc = acc.square();
            if bits[j] {
                acc = acc.mul(self);
            }
        }
        proof {
            assert(bits@.skip(0) =~= bits@);
        }
        acc
    }

    /// The Fermat inverse `self^(q - 2)`.
    pub fn fermat_inverse(&self) -> (r: Fq)
        ensures
            r@ == fq_inv(self@),
    {
        let m = modulus_limbs();
        let two = Fq::from_u64(2);
        let (e, _) = sub_limbs(&m, &two.limbs);
        proof {
            lemma_value_13(m@);
            lemma_value_bound(e@);
            reveal_with_fuel(radix_pow, 14);
        }
        self.pow(e.as_slice())
    }

    /// The multiplicative inverse, if the Fermat inverse is one. Zero has
    /// none.
    pub fn inverse(&self) -> (r: Option<Fq>)
        ensures
            r matches Some(x) ==> x@ == fq_inv(self@) && fq_mul(self@, x@) == 1,
            r is Some <==> fq_is_unit(self@),
            self@ == 0 ==> r is None,
            is_field() ==> (r is None <==> self@ == 0),
    {
        let c = self.fermat_inverse();
        let one = Fq::one();
        proof {
            use_type_invariant(self);
            if is_field() && self@ != 0 {
                lemma_unit(self@);
            }
            if self@ == 0 {
                lemma0_pow((modulus() - 2) as nat);
                lemma_small_mod(0, modulus());
                assert(0nat * 0nat == 0) by (nonlinear_arith);
            }
        }
        if self.mul(&c).equals(&one) {
            Some(c)
        } else {
            None
        }
    }

    /// A square root of `self`: the first of the four candidates
    /// `self^((t + 1) / 2) * root_of_unity()^k`, `k = 0..4`, whose square is
    /// `self`.
    pub fn sqrt(&self) -> (r: Option<Fq>)
        ensures
            r matches Some(y) ==> fq_mul(y@, y@) == self@,
            match r {
                Some(y) => fq_sqrt(self@) == Some(y@),
                None => fq_sqrt(self@) is None,
            },
            is_field() && r is None ==> forall|y: nat|
                y < modulus() ==> #[trigger] fq_mul(y, y) != self@,
    {
        proof {
            if is_field() && fq_sqrt(self@) is None {
                assert forall|y: nat| y < modulus() implies #[trigger] fq_mul(y, y) != self@ by {
                    lemma_sqrt_of_square(y);
                }
            }
        }
        let e: [u64; 13] = [
        0xadace79b57b942af,
        0x7545d85c16dfd424,
        0xbee135c065f4d26b,
        0x99c2f764a12c4024,
        0x01ad533049cfe6a3,
        0x252a3fb77c79c132,
        0xbab3596c8617c579,
        0x7830c728d80f9d78,
        0x66a7223ee72023d0,
        0x3bc5d176b746af02,
        0xfe959283d8f52666,
        0x8c4d2263babf8941,
        0x0000000000000384,
    ];
        let z: [u64; 13] = [
        0xa9681a4c950dcb84,
        0xbce30ac3ce7edda3,
        0x381acb243c66b76d,
        0x2e8ddca713662683,
        0xf66fbd28288ca7aa,
        0x3359c9b7dc825a95,
        0xb17d24cc3a0d44ca,
        0xfac881c7bb672408,
        0x319b6a3562fb87f7,
        0x3d3368662e5175a5,
        0x159303d07fea2d88,
        0xffb14cb9f9eb0a80,
        0x0000000000000537,
    ];
        proof {
            lemma_value_13(e@);
            lemma_value_13(z@);
            reveal_with_fuel(sqrt_from, 5);
        }
        let zeta = Fq { limbs: z };
        let mut cand = self.pow(e.as_slice());
        let mut k: usize = 0;
        while k < 4
            invariant
                0 <= k <= 4,
                zeta@ == root_of_unity(),
                cand@ == sqrt_candidate(self@, k as nat),
                fq_sqrt(self@) == sqrt_from(self@, k as nat),
            decreases 4 - k,
        {
            if cand.square().equals(self) {
                return Some(cand);
            }
            cand = cand.mul(&zeta);
            k += 1;
        }
        None
    }
}

impl PartialEq for Fq {
    fn eq(&self, other: &Fq) -> (r: bool) {
        self.equals(other)
    }
}

impl PartialEqSpecImpl for Fq {
    open spec fn obeys_eq_spec() -> bool {
        true
    }

    open spec fn eq_spec(&self, other: &Fq) -> bool {
        self@ == other@
    }
}

impl Eq for Fq {

}

} // verus!
