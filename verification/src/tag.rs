//! The tag codec.
//!
//! A 64-bit wire tag multiplexes internal operations with user traffic and
//! carries the sender's identity. It is partitioned as:
//!
//! - bits `[63:56]`: internal opcode (`0` is user traffic, [`BARRIER_TAG`] is
//!   the barrier; other values are reserved);
//! - bits `[55:32]`: source rank, masked to 24 bits (ranks at or above
//!   `2^24 - 1` are disallowed);
//! - bits `[31:0]`: the application tag, carried verbatim.
use vstd::prelude::*;

verus! {

/// Internal opcode used by the barrier collective.
pub const BARRIER_TAG: u8 = 1;

/// Ranks must be strictly below this bound so that the 24-bit field never
/// saturates.
pub const RANK_LIMIT: i32 = 0xffffff;

/// Mask for normal receives: every bit of the wire tag takes part in
/// matching.
pub const TAG_MASK: u64 = 0xffff_ffff_ffff_ffff;

/// Mask for probes of any source: the source-rank bits `[55:32]` are cleared,
/// so a probe matches regardless of the sender.
pub const PROBE_TAG_MASK: u64 = 0xff00_0000_ffff_ffff;

/// The wire tag composed from an opcode, a source rank and a user tag.
pub open spec fn spec_encode_tag(opcode: u8, rank: i32, user_tag: i32) -> u64 {
    ((opcode as u64) << 56) | (((rank as u64) & 0xffffff) << 32) | ((user_tag as u32) as u64)
}

/// The opcode field of a wire tag: bits `[63:56]`.
pub open spec fn spec_tag_opcode(wire: u64) -> u8 {
    (wire >> 56) as u8
}

/// The source-rank field of a wire tag: bits `[55:32]`.
pub open spec fn spec_tag_rank(wire: u64) -> i32 {
    ((wire >> 32) & 0xffffff) as i32
}

/// The application-tag field of a wire tag: bits `[31:0]`, reinterpreted as
/// the signed tag the application supplied.
pub open spec fn spec_tag_user(wire: u64) -> i32 {
    ((wire & 0xffff_ffff) as u32) as i32
}

/// Decoding recovers exactly the triple that was encoded, for every opcode,
/// every rank below [`RANK_LIMIT`] and every user tag.
pub proof fn lemma_tag_round_trip(opcode: u8, rank: i32, user_tag: i32)
    requires
        0 <= rank < RANK_LIMIT,
    ensures
        spec_tag_opcode(spec_encode_tag(opcode, rank, user_tag)) == opcode,
        spec_tag_rank(spec_encode_tag(opcode, rank, user_tag)) == rank,
        spec_tag_user(spec_encode_tag(opcode, rank, user_tag)) == user_tag,
{
    let wire = spec_encode_tag(opcode, rank, user_tag);
    assert(((((opcode as u64) << 56) | (((rank as u64) & 0xffffff) << 32) | ((user_tag
        as u32) as u64)) >> 56) as u8 == opcode) by (bit_vector);
    assert(((((((opcode as u64) << 56) | (((rank as u64) & 0xffffff) << 32) | ((user_tag
        as u32) as u64)) >> 32) & 0xffffff) as i32) == rank) by (bit_vector)
        requires
            0 <= rank < 0xffffff,
    ;
    assert((((((opcode as u64) << 56) | (((rank as u64) & 0xffffff) << 32) | ((user_tag
        as u32) as u64)) & 0xffff_ffff) as u32) as i32 == user_tag) by (bit_vector);
}

/// Compose a wire tag from an internal opcode, the source rank and the
/// application tag.
pub fn encode_tag(opcode: u8, rank: i32, user_tag: i32) -> (wire: u64)
    requires
        0 <= rank < RANK_LIMIT,
    ensures
        wire == spec_encode_tag(opcode, rank, user_tag),
        spec_tag_opcode(wire) == opcode,
        spec_tag_rank(wire) == rank,
        spec_tag_user(wire) == user_tag,
{
    let op: u64 = (opcode as u64) << 56u64;
    let rk: u64 = ((rank as u64) & 0xffffff) << 32u64;
    let ut: u64 = (#[verifier::truncate] (user_tag as u32)) as u64;
    let wire = op | rk | ut;
    proof {
        lemma_tag_round_trip(opcode, rank, user_tag);
    }
    wire
}

/// Split a wire tag into its opcode, source rank and application tag.
pub fn decode_tag(wire: u64) -> (r: (u8, i32, i32))
    ensures
        r.0 == spec_tag_opcode(wire),
        r.1 == spec_tag_rank(wire),
        r.2 == spec_tag_user(wire),
{
    proof {
        assert(wire >> 56 <= 0xff) by (bit_vector);
        assert((wire >> 32) & 0xffffff <= 0xffffff) by (bit_vector);
        assert(wire & 0xffff_ffff <= 0xffff_ffff) by (bit_vector);
    }
    let opcode: u8 = (wire >> 56u64) as u8;
    let rank: i32 = ((wire >> 32u64) & 0xffffff) as i32;
    let user_tag: i32 = #[verifier::truncate] (((wire & 0xffff_ffff) as u32) as i32);
    (opcode, rank, user_tag)
}

} // verus!
