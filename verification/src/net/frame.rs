//! Wire framing: every packet travels as an 8-byte little-endian length
//! prefix followed by exactly that many payload bytes.

use crate::net::Packet;
use vstd::bytes::lemma_auto_spec_u64_to_from_le_bytes;
use vstd::bytes::spec_u64_from_le_bytes;
use vstd::bytes::spec_u64_to_le_bytes;
use vstd::bytes::u64_from_le_bytes;
use vstd::bytes::u64_to_le_bytes;
use vstd::prelude::*;

verus! {

/// The number of bytes of the length prefix.
pub const LENGTH_PREFIX_BYTES: usize = 8;

/// The wire frame of a payload: its length as 8 little-endian bytes,
/// then the payload itself.
pub open spec fn frame_spec(payload: Seq<u8>) -> Seq<u8> {
    spec_u64_to_le_bytes(payload.len() as u64) + payload
}

/// Builds the wire frame of a packet.
pub fn encode_frame(packet: &Packet) -> (r: Vec<u8>)
    ensures
        r@ == frame_spec(packet@),
        r@.len() == packet@.len() + LENGTH_PREFIX_BYTES,
{
    let size = packet.size();
    let mut out = u64_to_le_bytes(size as u64);
    let payload = packet.as_slice();
    let mut i: usize = 0;
    while i < size
        invariant
            i <= size,
            size == packet@.len(),
            payload@ == packet@,
            out@ == spec_u64_to_le_bytes(packet@.len() as u64) + packet@.subrange(0, i as int),
        decreases size - i,
    {
        out.push(payload[i]);
        proof {
            assert(out@ =~= spec_u64_to_le_bytes(packet@.len() as u64) + packet@.subrange(
                0,
                i + 1,
            ));
        }
        i = i + 1;
    }
    proof {
        assert(out@ =~= frame_spec(packet@));
    }
    out
}

/// Decodes a length prefix read from the wire.
pub fn decode_frame_header(header: &[u8]) -> (r: u64)
    requires
        header@.len() == LENGTH_PREFIX_BYTES,
    ensures
        r == spec_u64_from_le_bytes(header@),
{
    u64_from_le_bytes(header)
}

/// Framing round-trip: the prefix of a frame decodes to the payload
/// length, and what follows it is the payload, byte for byte.
pub proof fn lemma_frame_round_trip(payload: Seq<u8>)
    requires
        payload.len() < 0x8000_0000_0000_0000,
    ensures
        frame_spec(payload).len() == payload.len() + LENGTH_PREFIX_BYTES,
        spec_u64_from_le_bytes(frame_spec(payload).subrange(0, LENGTH_PREFIX_BYTES as int))
            == payload.len(),
        frame_spec(payload).subrange(
            LENGTH_PREFIX_BYTES as int,
            frame_spec(payload).len() as int,
        ) == payload,
{
    lemma_auto_spec_u64_to_from_le_bytes();
    let f = frame_spec(payload);
    assert(f.subrange(0, LENGTH_PREFIX_BYTES as int) =~= spec_u64_to_le_bytes(
        payload.len() as u64,
    ));
    assert(f.subrange(LENGTH_PREFIX_BYTES as int, f.len() as int) =~= payload);
}

} // verus!
