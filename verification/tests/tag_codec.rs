use mpicd::tag::{decode_tag, encode_tag, BARRIER_TAG, PROBE_TAG_MASK, TAG_MASK};

#[test]
fn tag_round_trip_simple() {
    let wire = encode_tag(0, 3, 7);
    let (op, rank, user) = decode_tag(wire);
    assert_eq!(op, 0);
    assert_eq!(rank, 3);
    assert_eq!(user, 7);
}

#[test]
fn tag_round_trip_negative_user_tag() {
    let wire = encode_tag(0, 12, -1);
    let (op, rank, user) = decode_tag(wire);
    assert_eq!(op, 0);
    assert_eq!(rank, 12);
    assert_eq!(user, -1);
}

#[test]
fn tag_round_trip_barrier_and_large_rank() {
    let wire = encode_tag(BARRIER_TAG, 0xfffffe, i32::MIN);
    let (op, rank, user) = decode_tag(wire);
    assert_eq!(op, BARRIER_TAG);
    assert_eq!(rank, 0xfffffe);
    assert_eq!(user, i32::MIN);
}

#[test]
fn tag_layout_exact() {
    // opcode in [63:56], rank in [55:32], user tag in [31:0].
    let wire = encode_tag(1, 2, 3);
    assert_eq!(wire, 0x0100_0002_0000_0003);
    let wire = encode_tag(0, 0, -1);
    assert_eq!(wire, 0x0000_0000_ffff_ffff);
}

#[test]
fn tag_masks() {
    assert_eq!(TAG_MASK, u64::MAX);
    // The probe mask clears exactly the source-rank bits [55:32].
    assert_eq!(PROBE_TAG_MASK, 0xff00_0000_ffff_ffff);
    let a = encode_tag(0, 5, 9);
    let b = encode_tag(0, 6, 9);
    assert_ne!(a & TAG_MASK, b & TAG_MASK);
    assert_eq!(a & PROBE_TAG_MASK, b & PROBE_TAG_MASK);
}
