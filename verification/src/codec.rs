//! The byte encoding of affine points.
//!
//! A field element is written as 98 little-endian bytes. Its value is below
//! `2^782`, which leaves the two high bits of the last byte free for flags:
//! bit 7 records that `y` is the larger of `y` and `-y`, bit 6 that the point
//! is the point at infinity. The compressed form is the flagged encoding of
//! `x`; the uncompressed form is the plain encoding of `x` followed by the
//! flagged encoding of `y`. The point at infinity is written with all
//! coordinate bits zero, and no other encoding of it is accepted.
use crate::algebra::lemma_neg_square;
use crate::config::Config;
use crate::curve::{curve_rhs, on_curve, Point};
use crate::fq::{fq_neg, fq_sqrt, modulus, Fq};
use crate::g1::{G1Affine, G1Prepared};
use crate::limbs::{bytes_value, le_bytes};
use ark_ec::short_weierstrass::SWFlags;
use ark_serialize::Flags;
use vstd::prelude::*;
use vstd::slice::slice_subrange;

verus! {

/// Whether a point is written in compressed form.
#[derive(Clone, Copy, Debug, PartialEq, Eq)]
pub enum Compress {
    Yes,
    No,
}

/// Why a byte buffer is not the encoding of a point.
#[derive(Clone, Copy, Debug, PartialEq, Eq)]
pub enum DeserializationError {
    /// The buffer does not have the length of an encoding.
    InvalidLength,
    /// No point of the curve has the encoded coordinates.
    NotOnCurve,
    /// Both flags are set, or the infinity flag is set and a coordinate bit
    /// is not zero.
    InconsistentInfinityFlag,
}

/// What the two flag bits of an encoding record.
#[derive(Clone, Copy, Debug, PartialEq, Eq)]
pub enum PointFlags {
    YIsPositive,
    PointAtInfinity,
    YIsNegative,
}

/// The flag bits, in place in the last byte of an encoding.
pub open spec fn flags_mask(f: PointFlags) -> u8 {
    match f {
        PointFlags::YIsPositive => 0,
        PointFlags::PointAtInfinity => 0x40,
        PointFlags::YIsNegative => 0x80,
    }
}

/// The flags that the last byte of an encoding records: bit 7 is the sign
/// of `y` and bit 6 the point at infinity. Both together record nothing.
pub open spec fn flags_of_byte(b: u8) -> Option<PointFlags> {
    let negative = b / 128 == 1;
    let infinity = (b / 64) % 2 == 1;
    if negative && infinity {
        None
    } else if infinity {
        Some(PointFlags::PointAtInfinity)
    } else if negative {
        Some(PointFlags::YIsNegative)
    } else {
        Some(PointFlags::YIsPositive)
    }
}

/// The length of an encoding.
pub open spec fn encoded_len(c: Compress) -> nat {
    match c {
        Compress::Yes => 98,
        Compress::No => 196,
    }
}

/// The sign flag of a y-coordinate: positive when `y <= -y`.
pub open spec fn y_flags(y: nat) -> PointFlags {
    if y <= fq_neg(y) {
        PointFlags::YIsPositive
    } else {
        PointFlags::YIsNegative
    }
}

/// `s` with the flag bits added to its last byte.
pub open spec fn with_flags(s: Seq<u8>, f: PointFlags) -> Seq<u8> {
    s.update(s.len() - 1, (s.last() + flags_mask(f)) as u8)
}

/// `s` with the two flag bits of its last byte cleared.
pub open spec fn without_flags(s: Seq<u8>) -> Seq<u8> {
    s.update(s.len() - 1, s.last() % 64)
}

/// The encoding of a point.
pub open spec fn encode_spec(p: Point, c: Compress) -> Seq<u8> {
    match p {
        Point::Infinity => with_flags(
            Seq::new(encoded_len(c), |i: int| 0u8),
            PointFlags::PointAtInfinity,
        ),
        Point::Finite { x, y } => match c {
            Compress::Yes => with_flags(le_bytes(x, 98), y_flags(y)),
            Compress::No => le_bytes(x, 98) + with_flags(le_bytes(y, 98), y_flags(y)),
        },
    }
}

/// The point with abscissa `x` whose ordinate has the sign that `f`
/// records: of the square root `y` of `x^3 + a x + b` and its negative, the
/// smaller for a positive sign and the larger for a negative one.
pub open spec fn decode_compressed(x: nat, f: PointFlags) -> Result<Point, DeserializationError> {
    if x >= modulus() {
        Err(DeserializationError::NotOnCurve)
    } else {
        match fq_sqrt(curve_rhs(x)) {
            None => Err(DeserializationError::NotOnCurve),
            Some(y) => {
                let ny = fq_neg(y);
                if (f == PointFlags::YIsNegative) == (y <= ny) {
                    Ok(Point::Finite { x, y: ny })
                } else {
                    Ok(Point::Finite { x, y })
                }
            },
        }
    }
}

/// The point `(x, y)`, if it is a point of the curve.
pub open spec fn decode_uncompressed(x: nat, y: nat) -> Result<Point, DeserializationError> {
    if x >= modulus() || y >= modulus() || !on_curve(x, y) {
        Err(DeserializationError::NotOnCurve)
    } else {
        Ok(Point::Finite { x, y })
    }
}

/// The point that a byte buffer encodes, or the reason why it encodes none.
/// In the uncompressed form the sign flag is not consulted.
pub open spec fn decode_spec(bytes: Seq<u8>, c: Compress) -> Result<Point, DeserializationError> {
    if bytes.len() != encoded_len(c) {
        Err(DeserializationError::InvalidLength)
    } else {
        match flags_of_byte(bytes.last()) {
            None => Err(DeserializationError::InconsistentInfinityFlag),
            Some(PointFlags::PointAtInfinity) => if bytes == encode_spec(Point::Infinity, c) {
                Ok(Point::Infinity)
            } else {
                Err(DeserializationError::InconsistentInfinityFlag)
            },
            Some(f) => match c {
                Compress::Yes => decode_compressed(bytes_value(without_flags(bytes)), f),
                Compress::No => decode_uncompressed(
                    bytes_value(bytes.take(98)),
                    bytes_value(without_flags(bytes.skip(98))),
                ),
            },
        }
    }
}

/// The bit mask of a flag, as `ark_ec`'s `SWFlags::u8_bitmask` gives it:
/// `0x80` for a negative `y`, `0x40` for the point at infinity, and `0` for a
/// positive `y`.
#[verifier::external_body]
fn flag_bitmask(f: PointFlags) -> (r: u8)
    ensures
        r == flags_mask(f),
{
    let flags = match f {
        PointFlags::YIsPositive => SWFlags::YIsPositive,
        PointFlags::PointAtInfinity => SWFlags::PointAtInfinity,
        PointFlags::YIsNegative => SWFlags::YIsNegative,
    };
    flags.u8_bitmask()
}

/// The flags in the two high bits of a byte, as `ark_ec`'s
/// `SWFlags::from_u8` reads them: bit 7 alone is a negative `y`, bit 6 alone
/// the point at infinity, neither a positive `y`, and both are rejected.
#[verifier::external_body]
fn flags_from_byte(b: u8) -> (r: Option<PointFlags>)
    ensures
        r == flags_of_byte(b),
{
    match SWFlags::from_u8(b) {
        Some(SWFlags::YIsPositive) => Some(PointFlags::YIsPositive),
        Some(SWFlags::PointAtInfinity) => Some(PointFlags::PointAtInfinity),
        Some(SWFlags::YIsNegative) => Some(PointFlags::YIsNegative),
        None => None,
    }
}

/// The number of bytes of an encoding.
pub fn serialized_size(c: Compress) -> (n: usize)
    ensures
        n == encoded_len(c),
{
    match c {
        Compress::Yes => 98,
        Compress::No => 196,
    }
}

/// The encoding of a field element with flag bits in its last byte.
fn flagged_bytes(v: &Fq, f: PointFlags) -> (r: Vec<u8>)
    ensures
        r@ == with_flags(le_bytes(v@, 98), f),
        r@.len() == 98,
{
    let mut bytes = v.to_bytes_le();
    let top = bytes[97];
    let mask = flag_bitmask(f);
    bytes[97] = top + mask;
    bytes
}

/// The sign flag of a y-coordinate.
fn sign_of(y: &Fq) -> (r: PointFlags)
    ensures
        r == y_flags(y@),
{
    if y.neg().less_than(y) {
        PointFlags::YIsNegative
    } else {
        PointFlags::YIsPositive
    }
}

/// Encodes a point.
pub fn encode(p: &G1Affine, c: Compress) -> (r: Vec<u8>)
    ensures
        r@ == encode_spec(p@, c),
        r@.len() == encoded_len(c),
{
    if p.infinity {
        let n = serialized_size(c);
        let mut out: Vec<u8> = Vec::new();
        let mut i: usize = 0;
        while i < n
            invariant
                0 <= i <= n,
                out@ =~= Seq::new(i as nat, |j: int| 0u8),
            decreases n - i,
        {
            out.push(0u8);
            i += 1;
        }
        out[n - 1] = flag_bitmask(PointFlags::PointAtInfinity);
        proof {
            assert(out@ =~= encode_spec(p@, c));
        }
        out
    } else {
        let flags = sign_of(&p.y);
        match c {
            Compress::Yes => flagged_bytes(&p.x, flags),
            Compress::No => {
                let mut out = p.x.to_bytes_le();
                let tail = flagged_bytes(&p.y, flags);
                out.extend_from_slice(tail.as_slice());
                out
            },
        }
    }
}

/// Whether `bytes` is the one accepted encoding of the point at infinity.
fn is_infinity_encoding(bytes: &[u8], c: Compress) -> (r: bool)
    requires
        bytes@.len() == encoded_len(c),
    ensures
        r <==> bytes@ == encode_spec(Point::Infinity, c),
{
    let n = bytes.len();
    let ghost want = encode_spec(Point::Infinity, c);
    if bytes[n - 1] != 0x40 {
        proof {
            assert(want[n - 1] == 0x40);
        }
        return false;
    }
    let mut i: usize = 0;
    while i < n - 1
        invariant
            0 <= i <= n - 1,
            n == bytes@.len(),
            n == encoded_len(c),
            want == encode_spec(Point::Infinity, c),
            bytes@[n - 1] == 0x40,
            forall|j: int| 0 <= j < i ==> bytes@[j] == 0,
        decreases n - 1 - i,
    {
        if bytes[i] != 0 {
            proof {
                assert(want[i as int] == 0);
            }
            return false;
        }
        i += 1;
    }
    proof {
        assert(bytes@ =~= want);
    }
    true
}

/// The field element that 98 bytes encode once the flag bits are cleared.
fn read_unflagged(bytes: &[u8]) -> (r: Option<Fq>)
    requires
        bytes@.len() == 98,
    ensures
        r matches Some(x) ==> x@ == bytes_value(without_flags(bytes@)),
        r is Some <==> bytes_value(without_flags(bytes@)) < modulus(),
{
    let mut copy: Vec<u8> = Vec::new();
    copy.extend_from_slice(bytes);
    let top = copy[97];
    copy[97] = top % 64;
    proof {
        assert(copy@ =~= without_flags(bytes@));
    }
    Fq::from_bytes_le(copy.as_slice())
}

/// Decodes a point. The buffer must have the exact length of the chosen
/// form; a compressed abscissa must have a point of the curve above it, and
/// uncompressed coordinates must satisfy the curve equation.
pub fn decode(bytes: &[u8], c: Compress) -> (r: Result<G1Affine, DeserializationError>)
    ensures
        match r {
            Ok(p) => decode_spec(bytes@, c) == Ok::<Point, DeserializationError>(p@),
            Err(e) => decode_spec(bytes@, c) == Err::<Point, DeserializationError>(e),
        },
        bytes@.len() != encoded_len(c) ==> r == Err::<G1Affine, DeserializationError>(
            DeserializationError::InvalidLength,
        ),
        r matches Ok(p) ==> p@.on_curve(),
{
    let n = serialized_size(c);
    if bytes.len() != n {
        return Err(DeserializationError::InvalidLength);
    }
    let flags = match flags_from_byte(bytes[n - 1]) {
        None => {
            return Err(DeserializationError::InconsistentInfinityFlag);
        },
        Some(f) => f,
    };
    match flags {
        PointFlags::PointAtInfinity => {
            if is_infinity_encoding(bytes, c) {
                Ok(G1Affine::identity())
            } else {
                Err(DeserializationError::InconsistentInfinityFlag)
            }
        },
        _ => match c {
            Compress::Yes => {
                let x = match read_unflagged(bytes) {
                    None => {
                        return Err(DeserializationError::NotOnCurve);
                    },
                    Some(x) => x,
                };
                let x3 = x.square().mul(&x);
                let rhs = x3.add(&Config::coeff_a().mul(&x)).add(&Config::coeff_b());
                match rhs.sqrt() {
                    None => Err(DeserializationError::NotOnCurve),
                    Some(y) => {
                        proof {
                            lemma_neg_square(y@);
                        }
                        let ny = y.neg();
                        let y_is_small = !ny.less_than(&y);
                        let want_large = matches!(flags, PointFlags::YIsNegative);
                        if want_large == y_is_small {
                            Ok(G1Affine { x, y: ny, infinity: false })
                        } else {
                            Ok(G1Affine { x, y, infinity: false })
                        }
                    },
                }
            },
            Compress::No => {
                let head = slice_subrange(bytes, 0, 98);
                let tail = slice_subrange(bytes, 98, 196);
                proof {
                    assert(head@ =~= bytes@.take(98));
                    assert(tail@ =~= bytes@.skip(98));
                }
                let x = match Fq::from_bytes_le(head) {
                    None => {
                        return Err(DeserializationError::NotOnCurve);
                    },
                    Some(x) => x,
                };
                let y = match read_unflagged(tail) {
                    None => {
                        return Err(DeserializationError::NotOnCurve);
                    },
                    Some(y) => y,
                };
                match G1Affine::new(x, y) {
                    Ok(p) => Ok(p),
                    Err(_) => Err(DeserializationError::NotOnCurve),
                }
            },
        },
    }
}

impl G1Affine {
    /// The compressed encoding, 98 bytes.
    pub fn serialize_compressed(&self) -> (r: Vec<u8>)
        ensures
            r@ == encode_spec(self@, Compress::Yes),
    {
        encode(self, Compress::Yes)
    }

    /// The uncompressed encoding, 196 bytes.
    pub fn serialize_uncompressed(&self) -> (r: Vec<u8>)
        ensures
            r@ == encode_spec(self@, Compress::No),
    {
        encode(self, Compress::No)
    }

    /// The point with the given compressed encoding.
    pub fn deserialize_compressed(bytes: &[u8]) -> (r: Result<G1Affine, DeserializationError>)
        ensures
            match r {
                Ok(p) => decode_spec(bytes@, Compress::Yes) == Ok::<Point, DeserializationError>(p@),
                Err(e) => decode_spec(bytes@, Compress::Yes) == Err::<Point, DeserializationError>(
                    e,
                ),
            },
    {
        decode(bytes, Compress::Yes)
    }

    /// The point with the given uncompressed encoding.
    pub fn deserialize_uncompressed(bytes: &[u8]) -> (r: Result<G1Affine, DeserializationError>)
        ensures
            match r {
                Ok(p) => decode_spec(bytes@, Compress::No) == Ok::<Point, DeserializationError>(p@),
                Err(e) => decode_spec(bytes@, Compress::No) == Err::<Point, DeserializationError>(
                    e,
                ),
            },
    {
        decode(bytes, Compress::No)
    }
}

impl G1Prepared {
    /// The encoding of the wrapped point.
    pub fn serialize_with_mode(&self, c: Compress) -> (r: Vec<u8>)
        ensures
            r@ == encode_spec(self@, c),
    {
        encode(&self.0, c)
    }

    /// The prepared point with the given encoding.
    pub fn deserialize_with_mode(bytes: &[u8], c: Compress) -> (r: Result<
        G1Prepared,
        DeserializationError,
    >)
        ensures
            match r {
                Ok(p) => decode_spec(bytes@, c) == Ok::<Point, DeserializationError>(p@),
                Err(e) => decode_spec(bytes@, c) == Err::<Point, DeserializationError>(e),
            },
    {
        match decode(bytes, c) {
            Ok(p) => Ok(G1Prepared(p)),
            Err(e) => Err(e),
        }
    }
}

} // verus!
