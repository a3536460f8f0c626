//! Big-endian byte codec for the streamed parts of a message.
//!
//! Streaming datatypes put their scalars on the wire in big-endian order.
//! This module gives the byte-level meaning of that encoding as spec
//! functions, executable readers and writers proved against them, and the
//! round-trip lemmas the pack/unpack inverse rests on.
//!
//! The big-endian form is this library's own choice for its streamed
//! scalars: both ends of a message agree on it by construction. A layout
//! that instead carried the sender's native byte order would be exact only
//! with the machine's endianness in the specification; region bytes, by
//! contrast, travel verbatim and carry whatever layout the application put
//! in them.
use vstd::prelude::*;

verus! {

/// The four big-endian bytes of a 32-bit integer.
pub open spec fn spec_i32_be(x: i32) -> Seq<u8> {
    let u = x as u32;
    seq![
        ((u >> 24) & 0xff) as u8,
        ((u >> 16) & 0xff) as u8,
        ((u >> 8) & 0xff) as u8,
        (u & 0xff) as u8,
    ]
}

/// The 32-bit integer held by four big-endian bytes.
pub open spec fn spec_be_i32(s: Seq<u8>) -> i32
    recommends
        s.len() == 4,
{
    ((((s[0] as u32) << 24) | ((s[1] as u32) << 16) | ((s[2] as u32) << 8) | (s[3] as u32))
        as i32)
}

/// Reading back the four big-endian bytes of an integer yields the integer.
pub proof fn lemma_i32_be_round_trip(x: i32)
    ensures
        spec_be_i32(spec_i32_be(x)) == x,
{
    let u = x as u32;
    let b0 = ((u >> 24) & 0xff) as u8;
    let b1 = ((u >> 16) & 0xff) as u8;
    let b2 = ((u >> 8) & 0xff) as u8;
    let b3 = (u & 0xff) as u8;
    assert((((b0 as u32) << 24) | ((b1 as u32) << 16) | ((b2 as u32) << 8) | (b3 as u32)) as i32
        == x) by (bit_vector)
        requires
            u == x as u32,
            b0 == ((u >> 24) & 0xff) as u8,
            b1 == ((u >> 16) & 0xff) as u8,
            b2 == ((u >> 8) & 0xff) as u8,
            b3 == (u & 0xff) as u8,
    ;
    assert(spec_i32_be(x) =~= seq![b0, b1, b2, b3]);
}

/// The eight big-endian bytes of a 64-bit integer.
pub open spec fn spec_u64_be(x: u64) -> Seq<u8> {
    seq![
        ((x >> 56) & 0xff) as u8,
        ((x >> 48) & 0xff) as u8,
        ((x >> 40) & 0xff) as u8,
        ((x >> 32) & 0xff) as u8,
        ((x >> 24) & 0xff) as u8,
        ((x >> 16) & 0xff) as u8,
        ((x >> 8) & 0xff) as u8,
        (x & 0xff) as u8,
    ]
}

/// The 64-bit integer held by eight big-endian bytes.
pub open spec fn spec_be_u64(s: Seq<u8>) -> u64
    recommends
        s.len() == 8,
{
    (((s[0] as u64) << 56) | ((s[1] as u64) << 48) | ((s[2] as u64) << 40) | ((s[3] as u64)
        << 32) | ((s[4] as u64) << 24) | ((s[5] as u64) << 16) | ((s[6] as u64) << 8) | (s[7]
        as u64))
}

/// Reading back the eight big-endian bytes of an integer yields the integer.
pub proof fn lemma_u64_be_round_trip(x: u64)
    ensures
        spec_be_u64(spec_u64_be(x)) == x,
{
    let b0 = ((x >> 56) & 0xff) as u8;
    let b1 = ((x >> 48) & 0xff) as u8;
    let b2 = ((x >> 40) & 0xff) as u8;
    let b3 = ((x >> 32) & 0xff) as u8;
    let b4 = ((x >> 24) & 0xff) as u8;
    let b5 = ((x >> 16) & 0xff) as u8;
    let b6 = ((x >> 8) & 0xff) as u8;
    let b7 = (x & 0xff) as u8;
    assert((((b0 as u64) << 56) | ((b1 as u64) << 48) | ((b2 as u64) << 40) | ((b3 as u64) << 32)
        | ((b4 as u64) << 24) | ((b5 as u64) << 16) | ((b6 as u64) << 8) | (b7 as u64)) == x)
        by (bit_vector)
        requires
            b0 == ((x >> 56) & 0xff) as u8,
            b1 == ((x >> 48) & 0xff) as u8,
            b2 == ((x >> 40) & 0xff) as u8,
            b3 == ((x >> 32) & 0xff) as u8,
            b4 == ((x >> 24) & 0xff) as u8,
            b5 == ((x >> 16) & 0xff) as u8,
            b6 == ((x >> 8) & 0xff) as u8,
            b7 == (x & 0xff) as u8,
    ;
    assert(spec_u64_be(x) =~= seq![b0, b1, b2, b3, b4, b5, b6, b7]);
}

/// The byte at a given position of one 64-bit integer's big-endian encoding.
pub fn u64_be_byte(x: u64, q: usize) -> (r: u8)
    requires
        q < 8,
    ensures
        r == spec_u64_be(x)[q as int],
{
    if q == 0 {
        ((x >> 56u64) & 0xff) as u8
    } else if q == 1 {
        ((x >> 48u64) & 0xff) as u8
    } else if q == 2 {
        ((x >> 40u64) & 0xff) as u8
    } else if q == 3 {
        ((x >> 32u64) & 0xff) as u8
    } else if q == 4 {
        ((x >> 24u64) & 0xff) as u8
    } else if q == 5 {
        ((x >> 16u64) & 0xff) as u8
    } else if q == 6 {
        ((x >> 8u64) & 0xff) as u8
    } else {
        (x & 0xff) as u8
    }
}

/// Read one big-endian 64-bit integer at an offset of a byte slice.
pub fn read_u64_be(src: &[u8], off: usize) -> (r: u64)
    requires
        off + 8 <= src@.len(),
    ensures
        r == spec_be_u64(src@.subrange(off as int, off as int + 8)),
{
    let b0 = src[off];
    let b1 = src[off + 1];
    let b2 = src[off + 2];
    let b3 = src[off + 3];
    let b4 = src[off + 4];
    let b5 = src[off + 5];
    let b6 = src[off + 6];
    let b7 = src[off + 7];
    let r: u64 = ((b0 as u64) << 56u64) | ((b1 as u64) << 48u64) | ((b2 as u64) << 40u64) | ((b3
        as u64) << 32u64) | ((b4 as u64) << 24u64) | ((b5 as u64) << 16u64) | ((b6 as u64)
        << 8u64) | (b7 as u64);
    proof {
        let s = src@.subrange(off as int, off as int + 8);
        assert(s[0] == b0 && s[1] == b1 && s[2] == b2 && s[3] == b3 && s[4] == b4 && s[5] == b5
            && s[6] == b6 && s[7] == b7);
    }
    r
}

/// The big-endian encoding of a sequence of 32-bit integers, element after
/// element.
pub open spec fn spec_encode_i32s(s: Seq<i32>) -> Seq<u8>
    decreases s.len(),
{
    if s.len() == 0 {
        Seq::empty()
    } else {
        spec_i32_be(s[0]) + spec_encode_i32s(s.drop_first())
    }
}

/// The sequence of 32-bit integers held by a big-endian byte stream; trailing
/// bytes short of a full element are ignored.
pub open spec fn spec_decode_i32s(b: Seq<u8>) -> Seq<i32>
    decreases b.len(),
{
    if b.len() < 4 {
        Seq::empty()
    } else {
        seq![spec_be_i32(b.take(4))] + spec_decode_i32s(b.skip(4))
    }
}

/// The encoding takes four bytes per element.
pub proof fn lemma_encode_i32s_len(s: Seq<i32>)
    ensures
        spec_encode_i32s(s).len() == 4 * s.len(),
    decreases s.len(),
{
    if s.len() > 0 {
        lemma_encode_i32s_len(s.drop_first());
    }
}

/// Each byte of the encoding is the corresponding byte of its element's own
/// encoding.
pub proof fn lemma_encode_i32s_index(s: Seq<i32>, p: int)
    requires
        0 <= p < 4 * s.len(),
    ensures
        spec_encode_i32s(s)[p] == spec_i32_be(s[p / 4])[p % 4],
    decreases s.len(),
{
    lemma_encode_i32s_len(s);
    if p < 4 {
        lemma_encode_i32s_len(s.drop_first());
    } else {
        lemma_encode_i32s_index(s.drop_first(), p - 4);
        assert((p - 4) / 4 == p / 4 - 1 && (p - 4) % 4 == p % 4) by (nonlinear_arith)
            requires
                p >= 4,
        ;
    }
}

/// The decoding holds one element per four bytes.
pub proof fn lemma_decode_i32s_len(b: Seq<u8>)
    ensures
        spec_decode_i32s(b).len() == b.len() / 4,
    decreases b.len(),
{
    if b.len() < 4 {
        assert(b.len() / 4 == 0);
    } else {
        lemma_decode_i32s_len(b.skip(4));
        assert((b.len() - 4) / 4 == b.len() / 4 - 1) by (nonlinear_arith)
            requires
                b.len() >= 4,
        ;
    }
}

/// Each decoded element comes from its own four bytes of the stream.
pub proof fn lemma_decode_i32s_index(b: Seq<u8>, k: int)
    requires
        0 <= k < b.len() / 4,
    ensures
        spec_decode_i32s(b)[k] == spec_be_i32(b.subrange(4 * k, 4 * k + 4)),
    decreases b.len(),
{
    lemma_decode_i32s_len(b);
    if k == 0 {
        assert(b.take(4) =~= b.subrange(0, 4));
    } else {
        lemma_decode_i32s_len(b.skip(4));
        assert((b.len() - 4) / 4 == b.len() / 4 - 1) by (nonlinear_arith)
            requires
                b.len() >= 4,
        ;
        lemma_decode_i32s_index(b.skip(4), k - 1);
        assert(b.skip(4).subrange(4 * (k - 1), 4 * (k - 1) + 4) =~= b.subrange(
            4 * k,
            4 * k + 4,
        ));
    }
}

/// Decoding an encoding yields the elements encoded: the pack/unpack
/// inverse at the level of the byte stream.
pub proof fn lemma_decode_encode_i32s(s: Seq<i32>)
    ensures
        spec_decode_i32s(spec_encode_i32s(s)) == s,
    decreases s.len(),
{
    if s.len() == 0 {
        assert(spec_decode_i32s(spec_encode_i32s(s)) =~= s);
    } else {
        let b = spec_encode_i32s(s);
        lemma_encode_i32s_len(s);
        lemma_encode_i32s_len(s.drop_first());
        assert(b.take(4) =~= spec_i32_be(s[0]));
        assert(b.skip(4) =~= spec_encode_i32s(s.drop_first()));
        lemma_i32_be_round_trip(s[0]);
        lemma_decode_encode_i32s(s.drop_first());
        assert(spec_decode_i32s(b) =~= s);
    }
}

/// Append the big-endian bytes of one integer to a byte buffer.
pub fn push_i32_be(dst: &mut Vec<u8>, x: i32)
    ensures
        final(dst)@ == old(dst)@ + spec_i32_be(x),
{
    let u: u32 = #[verifier::truncate] (x as u32);
    dst.push(((u >> 24u32) & 0xff) as u8);
    dst.push(((u >> 16u32) & 0xff) as u8);
    dst.push(((u >> 8u32) & 0xff) as u8);
    dst.push((u & 0xff) as u8);
    proof {
        assert(dst@ =~= old(dst)@ + spec_i32_be(x));
    }
}

/// The byte at a given position of one integer's big-endian encoding.
pub fn i32_be_byte(x: i32, q: usize) -> (r: u8)
    requires
        q < 4,
    ensures
        r == spec_i32_be(x)[q as int],
{
    let u: u32 = #[verifier::truncate] (x as u32);
    if q == 0 {
        ((u >> 24u32) & 0xff) as u8
    } else if q == 1 {
        ((u >> 16u32) & 0xff) as u8
    } else if q == 2 {
        ((u >> 8u32) & 0xff) as u8
    } else {
        (u & 0xff) as u8
    }
}

/// Read one big-endian integer at an offset of a byte slice.
pub fn read_i32_be(src: &[u8], off: usize) -> (r: i32)
    requires
        off + 4 <= src@.len(),
    ensures
        r == spec_be_i32(src@.subrange(off as int, off as int + 4)),
{
    let b0 = src[off];
    let b1 = src[off + 1];
    let b2 = src[off + 2];
    let b3 = src[off + 3];
    let u: u32 = ((b0 as u32) << 24u32) | ((b1 as u32) << 16u32) | ((b2 as u32) << 8u32) | (b3
        as u32);
    let r: i32 = #[verifier::truncate] (u as i32);
    proof {
        let s = src@.subrange(off as int, off as int + 4);
        assert(s[0] == b0 && s[1] == b1 && s[2] == b2 && s[3] == b3);
    }
    r
}

} // verus!
