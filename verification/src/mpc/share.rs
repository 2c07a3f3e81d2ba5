//! Shamir shares and their local (communication-free) algebra.

use crate::math::mersenne61::MODULUS;
use crate::math::mersenne61::Mersenne61;
use crate::mpc::ProtocolError;
use vstd::bytes::lemma_auto_spec_u64_to_from_le_bytes;
use vstd::bytes::spec_u64_from_le_bytes;
use vstd::bytes::spec_u64_to_le_bytes;
use vstd::bytes::u64_from_le_bytes;
use vstd::bytes::u64_to_le_bytes;
use crate::math::mersenne61::field_add;
use crate::math::mersenne61::field_mul;
use crate::math::mersenne61::field_neg;
use crate::math::mersenne61::field_sub;
use vstd::prelude::*;

verus! {

/// A Shamir share of a value: the evaluation of the sharing polynomial at
/// this party's node, together with the polynomial's declared degree.
#[derive(Debug, Clone, Copy, PartialEq, Eq, Structural)]
pub struct ShamirShare {
    /// The degree of the sharing polynomial the share belongs to.
    pub degree: usize,
    /// The share value.
    pub value: Mersenne61,
}

impl ShamirShare {
    /// Wraps a value and a degree as a share.
    pub fn new(value: Mersenne61, degree: usize) -> (r: Self)
        ensures
            r.value == value,
            r.degree == degree,
    {
        ShamirShare { value, degree }
    }

    /// Pointwise product; the degrees add, which is what makes degree
    /// reduction necessary after a multiplication.
    pub fn multiply(&self, other: &Self) -> (r: Self)
        requires
            self.degree + other.degree <= usize::MAX,
        ensures
            r.value@ == field_mul(self.value@, other.value@),
            r.degree == self.degree + other.degree,
    {
        ShamirShare { value: self.value.multiply(&other.value), degree: self.degree
            + other.degree }
    }

    /// Multiplication by a public constant; the degree is preserved.
    pub fn multiply_const(&self, other: &Mersenne61) -> (r: Self)
        ensures
            r.value@ == field_mul(self.value@, other@),
            r.degree == self.degree,
    {
        ShamirShare { value: self.value.multiply(other), degree: self.degree }
    }

    /// Addition of a public constant; the degree is preserved.
    pub fn add_const(&self, other: &Mersenne61) -> (r: Self)
        ensures
            r.value@ == field_add(self.value@, other@),
            r.degree == self.degree,
    {
        ShamirShare { value: self.value.add(other), degree: self.degree }
    }

    /// Subtraction of a public constant; the degree is preserved.
    pub fn subtract_const(&self, other: &Mersenne61) -> (r: Self)
        ensures
            r.value@ == field_sub(self.value@, other@),
            r.degree == self.degree,
    {
        ShamirShare { value: self.value.subtract(other), degree: self.degree }
    }

    /// Pointwise sum; the degree is the larger of the two.
    pub fn add(&self, other: &Self) -> (r: Self)
        ensures
            r.value@ == field_add(self.value@, other.value@),
            r.degree == if self.degree >= other.degree {
                self.degree
            } else {
                other.degree
            },
    {
        let degree = if self.degree >= other.degree {
            self.degree
        } else {
            other.degree
        };
        ShamirShare { value: self.value.add(&other.value), degree }
    }

    /// Pointwise negation; the degree is preserved.
    pub fn negate(&self) -> (r: Self)
        ensures
            r.value@ == field_neg(self.value@),
            r.degree == self.degree,
    {
        ShamirShare { value: self.value.negate(), degree: self.degree }
    }

    /// Pointwise difference; the degree is the larger of the two.
    pub fn subtract(&self, other: &Self) -> (r: Self)
        ensures
            r.value@ == field_sub(self.value@, other.value@),
            r.degree == if self.degree >= other.degree {
                self.degree
            } else {
                other.degree
            },
    {
        self.add(&other.negate())
    }
}

/// The canonical wire encoding of a share value and degree: each as
/// 8 little-endian bytes.  All parties agree on this encoding.
pub open spec fn share_encoding(value: nat, degree: nat) -> Seq<u8> {
    spec_u64_to_le_bytes(value as u64) + spec_u64_to_le_bytes(degree as u64)
}

/// The canonical wire encoding of a share.
pub open spec fn share_bytes(s: ShamirShare) -> Seq<u8> {
    share_encoding(s.value@, s.degree as nat)
}

/// Whether a byte string is the canonical encoding of some valid share:
/// 16 bytes whose value part is reduced and whose degree part fits.
pub open spec fn valid_share_encoding(b: Seq<u8>) -> bool {
    &&& b.len() == 16
    &&& spec_u64_from_le_bytes(b.subrange(0, 8)) < MODULUS
    &&& spec_u64_from_le_bytes(b.subrange(8, 16)) <= usize::MAX as u64
}

/// Whether `b` is the canonical encoding of exactly the share `s`.
pub open spec fn is_share_encoding_of(b: Seq<u8>, s: ShamirShare) -> bool {
    &&& valid_share_encoding(b)
    &&& s.value@ == spec_u64_from_le_bytes(b.subrange(0, 8))
    &&& s.degree as u64 == spec_u64_from_le_bytes(b.subrange(8, 16))
}

/// Whether `b` is a valid share encoding whose degree part is `t`.
pub open spec fn is_threshold_share_encoding(b: Seq<u8>, t: nat) -> bool {
    &&& valid_share_encoding(b)
    &&& spec_u64_from_le_bytes(b.subrange(8, 16)) == t as u64
}

/// The canonical encoding of a reduced value and a degree is valid and
/// parses back to them.
pub proof fn lemma_share_encoding_parses(value: nat, degree: nat)
    requires
        value < MODULUS,
        degree <= usize::MAX,
    ensures
        valid_share_encoding(share_encoding(value, degree)),
        spec_u64_from_le_bytes(share_encoding(value, degree).subrange(0, 8)) == value,
        spec_u64_from_le_bytes(share_encoding(value, degree).subrange(8, 16)) == degree as u64,
        is_threshold_share_encoding(share_encoding(value, degree), degree),
{
    lemma_auto_spec_u64_to_from_le_bytes();
    assert(share_encoding(value, degree).subrange(0, 8) =~= spec_u64_to_le_bytes(value as u64));
    assert(share_encoding(value, degree).subrange(8, 16) =~= spec_u64_to_le_bytes(
        degree as u64,
    ));
}

/// Encodes a share for transmission.
pub fn encode_share(share: &ShamirShare) -> (r: Vec<u8>)
    ensures
        r@ == share_bytes(*share),
        r@.len() == 16,
{
    let mut out = u64_to_le_bytes(share.value.to_u64());
    let mut tail = u64_to_le_bytes(share.degree as u64);
    out.append(&mut tail);
    proof {
        assert(out@ =~= share_bytes(*share));
    }
    out
}

/// Decodes a received share, rejecting anything that is not the
/// canonical encoding of a valid share.
pub fn decode_share(bytes: &[u8]) -> (r: Result<ShamirShare, ProtocolError>)
    ensures
        r is Ok <==> valid_share_encoding(bytes@),
        r matches Ok(s) ==> s.value@ == spec_u64_from_le_bytes(bytes@.subrange(0, 8)) && s.degree
            as u64 == spec_u64_from_le_bytes(bytes@.subrange(8, 16)),
        r matches Err(e) ==> e == ProtocolError::Malformed,
{
    if bytes.len() != 16 {
        return Err(ProtocolError::Malformed);
    }
    let value_part = vstd::slice::slice_subrange(bytes, 0, 8);
    let degree_part = vstd::slice::slice_subrange(bytes, 8, 16);
    let value_u64 = u64_from_le_bytes(value_part);
    let degree_u64 = u64_from_le_bytes(degree_part);
    if value_u64 >= MODULUS {
        return Err(ProtocolError::Malformed);
    }
    if degree_u64 > (usize::MAX as u64) {
        return Err(ProtocolError::Malformed);
    }
    proof {
        vstd::arithmetic::div_mod::lemma_small_mod(
            value_u64 as nat,
            crate::math::mersenne61::p(),
        );
    }
    Ok(ShamirShare::new(Mersenne61::from(value_u64), degree_u64 as usize))
}

/// Share-encoding round-trip: the canonical encoding of a share is valid
/// and decodes back to the same value and degree.
pub proof fn lemma_share_codec_round_trip(s: ShamirShare)
    requires
        s.value@ < MODULUS,
    ensures
        valid_share_encoding(share_bytes(s)),
        spec_u64_from_le_bytes(share_bytes(s).subrange(0, 8)) == s.value@,
        spec_u64_from_le_bytes(share_bytes(s).subrange(8, 16)) == s.degree as u64,
{
    lemma_auto_spec_u64_to_from_le_bytes();
    assert(share_bytes(s).subrange(0, 8) =~= spec_u64_to_le_bytes(s.value@ as u64));
    assert(share_bytes(s).subrange(8, 16) =~= spec_u64_to_le_bytes(s.degree as u64));
}

} // verus!
