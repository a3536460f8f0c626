use mpicd::context::Context;
use mpicd::datatype::{ByteBuffer, UnpackState};
use mpicd::jagged::ComplexVec;
use mpicd::regions::RegionBuffer;
use mpicd::structured::{StructVec, StructVecArray};
use mpicd::transport::Transport;
use mpicd::Status;

#[test]
fn byte_ping() {
    // Rank 0 sends four bytes with user tag 7; rank 1 receives them from
    // source 0 with tag 7.
    let mut t = Transport::new(2);
    let mut ctx0 = Context::new(0, 2);
    let mut ctx1 = Context::new(1, 2);

    let payload = vec![0x01u8, 0x02, 0x03, 0x04];
    let sbuf = ByteBuffer(payload.clone());
    let sh = ctx0.isend(&sbuf, 1, 7).unwrap();
    let sst = ctx0.waitall(&mut t, &[sh]).unwrap();
    assert!(sst.len() == 1 && sst[0].is_complete());

    let mut rbuf = ByteBuffer(vec![0u8; 4]);
    let rh = ctx1.irecv(&mut rbuf, 0, 7).unwrap();
    let rst = ctx1.waitall(&mut t, &[rh]).unwrap();
    assert!(rst.len() == 1 && rst[0].is_complete());
    assert_eq!(ctx1.take_received(rh), Some(payload));
}

#[test]
fn self_send_completes_in_one_waitall() {
    // Sending to the own rank and receiving on it completes within a single
    // waitall over both handles, and delivers the sent payload.
    let mut t = Transport::new(1);
    let mut ctx = Context::new(0, 1);

    let payload = vec![9u8, 8, 7];
    let mut rbuf = ByteBuffer(vec![0u8; 3]);
    let rh = ctx.irecv(&mut rbuf, 0, 5).unwrap();
    let sbuf = ByteBuffer(payload.clone());
    let sh = ctx.isend(&sbuf, 0, 5).unwrap();
    let sts = ctx.waitall(&mut t, &[rh, sh]).unwrap();
    assert_eq!(sts.len(), 2);
    assert!(sts[0].is_complete());
    assert!(sts[1].is_complete());
    assert_eq!(ctx.take_received(rh), Some(payload));
}

#[test]
fn waitall_statuses_follow_handle_order() {
    // Statuses come back at the index of their handle, not in completion
    // order: the receive is listed first though the send completes first.
    let mut t = Transport::new(1);
    let mut ctx = Context::new(0, 1);

    let mut rbuf = ByteBuffer(vec![0u8; 1]);
    let rh = ctx.irecv(&mut rbuf, 0, 1).unwrap();
    let sbuf = ByteBuffer(vec![42u8]);
    let sh = ctx.isend(&sbuf, 0, 1).unwrap();
    let sts = ctx.waitall(&mut t, &[rh, sh]).unwrap();
    assert_eq!(sts.len(), 2);
    assert!(sts.iter().all(|s| s.is_terminal()));
    assert_eq!(ctx.take_received(rh), Some(vec![42u8]));
}

#[test]
fn waitall_reports_wedged_receive() {
    // A receive that nothing will ever match cannot complete within one
    // process; waitall reports the starved handle as erroneous instead of
    // spinning forever.
    let mut t = Transport::new(2);
    let mut ctx1 = Context::new(1, 2);
    let mut rbuf = ByteBuffer(vec![0u8; 1]);
    let rh = ctx1.irecv(&mut rbuf, 0, 3).unwrap();
    let sts = ctx1.waitall(&mut t, &[rh]).unwrap();
    assert!(matches!(sts[0], Status::Error(_)));
}

#[test]
fn truncated_receive_is_an_error() {
    // Five bytes arrive for a three-byte buffer: the receive ends in error,
    // and the error does not prevent the send from completing.
    let mut t = Transport::new(1);
    let mut ctx = Context::new(0, 1);
    let mut rbuf = ByteBuffer(vec![0u8; 3]);
    let rh = ctx.irecv(&mut rbuf, 0, 2).unwrap();
    let sbuf = ByteBuffer(vec![1u8, 2, 3, 4, 5]);
    let sh = ctx.isend(&sbuf, 0, 2).unwrap();
    let sts = ctx.waitall(&mut t, &[rh, sh]).unwrap();
    assert!(matches!(sts[0], Status::Error(_)));
    assert!(sts[1].is_complete());
}

#[test]
fn jagged_streaming_round_trip() {
    // A jagged sequence goes out as one streamed message of 24 packed bytes;
    // a receiver of the same shape reconstructs it element for element.
    let mut t = Transport::new(2);
    let mut ctx0 = Context::new(0, 2);
    let mut ctx1 = Context::new(1, 2);

    let src = ComplexVec(vec![vec![10, 11, 12], vec![20], vec![30, 31]]);
    let sh = ctx0.isend(&src, 1, 0).unwrap();
    let sst = ctx0.waitall(&mut t, &[sh]).unwrap();
    assert!(sst[0].is_complete());

    // The packed prefix is six 4-byte elements.
    let probe = ctx1.probe(&t, Some(0), 0).unwrap();
    assert_eq!(probe.size, 24);
    assert_eq!(probe.source, 0);

    let mut dst = ComplexVec(vec![vec![0, 0, 0], vec![0], vec![0, 0]]);
    let rh = ctx1.irecv(&mut dst, 0, 0).unwrap();
    let rst = ctx1.waitall(&mut t, &[rh]).unwrap();
    assert!(rst[0].is_complete());
    let got = match ctx1.take_unpacked(rh) {
        Some(UnpackState::Jagged(u)) => u.into_complex_vec(),
        _ => panic!("expected a jagged unpack method"),
    };
    assert_eq!(got.0, vec![vec![10, 11, 12], vec![20], vec![30, 31]]);
}

#[test]
fn memory_regions_round_trip() {
    // Three regions of 64, 128 and 32 bytes travel verbatim and in order;
    // the wire holds their concatenation with no framing.
    let mut t = Transport::new(2);
    let mut ctx0 = Context::new(0, 2);
    let mut ctx1 = Context::new(1, 2);

    let r0: Vec<u8> = (0..64u8).collect();
    let r1: Vec<u8> = (0..128u8).map(|x| x ^ 0x5a).collect();
    let r2: Vec<u8> = (0..32u8).map(|x| 255 - x).collect();
    let src = RegionBuffer(vec![r0.clone(), r1.clone(), r2.clone()]);
    let sh = ctx0.isend(&src, 1, 9).unwrap();
    assert!(ctx0.waitall(&mut t, &[sh]).unwrap()[0].is_complete());

    let probe = ctx1.probe(&t, Some(0), 9).unwrap();
    assert_eq!(probe.size, 64 + 128 + 32);

    let mut dst = RegionBuffer(vec![vec![0; 64], vec![0; 128], vec![0; 32]]);
    let rh = ctx1.irecv(&mut dst, 0, 9).unwrap();
    assert!(ctx1.waitall(&mut t, &[rh]).unwrap()[0].is_complete());
    let rows = match ctx1.take_unpacked(rh) {
        Some(UnpackState::Regions(u)) => u.into_rows(),
        _ => panic!("expected a regions unpack method"),
    };
    assert_eq!(rows, vec![r0, r1, r2]);
}

#[test]
fn mixed_head_and_regions_round_trip() {
    // Each element streams a 20-byte head and carries a 1024-byte array as a
    // region: the wire is exactly the heads followed by the arrays.
    let mut t = Transport::new(2);
    let mut ctx0 = Context::new(0, 2);
    let mut ctx1 = Context::new(1, 2);

    let d0: Vec<u8> = (0..1024usize).map(|x| (x % 251) as u8).collect();
    let d1: Vec<u8> = (0..1024usize).map(|x| (x % 13) as u8).collect();
    let src = StructVecArray(vec![
        StructVec { a: 34, b: -2332, c: 2293, d: 19, data: d0.clone() },
        StructVec { a: -7, b: 8, c: -9, d: u64::MAX, data: d1.clone() },
    ]);
    let sh = ctx0.isend(&src, 1, 4).unwrap();
    assert!(ctx0.waitall(&mut t, &[sh]).unwrap()[0].is_complete());

    // 20 bytes of head per element, then the two arrays.
    let probe = ctx1.probe(&t, Some(0), 4).unwrap();
    assert_eq!(probe.size, 2 * 20 + 2 * 1024);

    let mut dst = StructVecArray(vec![
        StructVec { a: 0, b: 0, c: 0, d: 0, data: vec![0; 1024] },
        StructVec { a: 0, b: 0, c: 0, d: 0, data: vec![0; 1024] },
    ]);
    let rh = ctx1.irecv(&mut dst, 0, 4).unwrap();
    assert!(ctx1.waitall(&mut t, &[rh]).unwrap()[0].is_complete());
    let got = match ctx1.take_unpacked(rh) {
        Some(UnpackState::Structured(u)) => u.into_array(),
        _ => panic!("expected a structured unpack method"),
    };
    assert_eq!(got.0.len(), 2);
    assert_eq!((got.0[0].a, got.0[0].b, got.0[0].c, got.0[0].d), (34, -2332, 2293, 19));
    assert_eq!(got.0[0].data, d0);
    assert_eq!((got.0[1].a, got.0[1].b, got.0[1].c, got.0[1].d), (-7, 8, -9, u64::MAX));
    assert_eq!(got.0[1].data, d1);
}

#[test]
fn barrier_of_four() {
    // Four ranks drive the barrier cooperatively; each finishes only after
    // every rank has entered, and a user message posted alongside under
    // opcode zero is not disturbed by the barrier traffic.
    let mut t = Transport::new(4);
    let mut ctxs: Vec<Context> = (0..4).map(|r| Context::new(r, 4)).collect();

    // A concurrent user self-send on rank 2.
    let mut ubuf = ByteBuffer(vec![0u8; 1]);
    let urh = ctxs[2].irecv(&mut ubuf, 2, 0).unwrap();
    let usb = ByteBuffer(vec![77u8]);
    let ush = ctxs[2].isend(&usb, 2, 0).unwrap();

    let mut states: Vec<_> = ctxs.iter_mut().map(|c| c.barrier_begin().unwrap()).collect();
    let mut done = [false; 4];
    let mut rounds = 0;
    while !done.iter().all(|d| *d) {
        for r in 0..4 {
            if !done[r] {
                done[r] = ctxs[r].barrier_step(&mut t, &mut states[r]);
            }
        }
        rounds += 1;
        assert!(rounds < 100, "barrier did not finish");
    }

    let sts = ctxs[2].waitall(&mut t, &[urh, ush]).unwrap();
    assert!(sts[0].is_complete() && sts[1].is_complete());
    assert_eq!(ctxs[2].take_received(urh), Some(vec![77u8]));
}

#[test]
fn barrier_of_one_blocks_nothing() {
    let mut t = Transport::new(1);
    let mut ctx = Context::new(0, 1);
    assert!(ctx.barrier(&mut t).is_ok());
}

#[test]
fn probe_reports_size_and_source() {
    // A pending 17-byte send with tag 42 is visible to a source-specific
    // probe and to an any-source probe; a mismatched tag finds nothing.
    let mut t = Transport::new(2);
    let mut ctx0 = Context::new(0, 2);
    let ctx1 = Context::new(1, 2);

    let sbuf = ByteBuffer(vec![6u8; 17]);
    let sh = ctx0.isend(&sbuf, 1, 42).unwrap();
    assert!(ctx0.waitall(&mut t, &[sh]).unwrap()[0].is_complete());

    let p = ctx1.probe(&t, Some(0), 42).unwrap();
    assert_eq!(p.size, 17);
    assert_eq!(p.source, 0);

    let p_any = ctx1.probe(&t, None, 42).unwrap();
    assert_eq!(p_any.size, 17);
    assert_eq!(p_any.source, 0);

    assert!(ctx1.probe(&t, Some(0), 43).is_err());
    assert!(ctx1.probe(&t, Some(1), 42).is_err());

    let mut ctx1 = ctx1;
    let mut rbuf = ByteBuffer(vec![0u8; 17]);
    let rh = ctx1.irecv(&mut rbuf, 0, 42).unwrap();
    assert!(ctx1.waitall(&mut t, &[rh]).unwrap()[0].is_complete());
    assert_eq!(ctx1.take_received(rh).unwrap().len(), 17);
}

#[test]
fn rank_and_size() {
    let ctx = Context::new(2, 5);
    assert_eq!(ctx.rank(), 2);
    assert_eq!(ctx.size(), 5);
}

#[test]
fn undersized_delivery_fails_jagged_receive() {
    // A jagged receiver expecting 24 packed bytes gets only 3: the message
    // ends in error rather than unpacking garbage.
    let mut t = Transport::new(1);
    let mut ctx = Context::new(0, 1);
    let mut dst = ComplexVec(vec![vec![0, 0, 0], vec![0], vec![0, 0]]);
    let rh = ctx.irecv(&mut dst, 0, 6).unwrap();
    let sbuf = ByteBuffer(vec![1u8, 2, 3]);
    let sh = ctx.isend(&sbuf, 0, 6).unwrap();
    let sts = ctx.waitall(&mut t, &[rh, sh]).unwrap();
    assert!(matches!(sts[0], Status::Error(_)));
    assert!(sts[1].is_complete());
}

#[test]
fn waitall_of_nothing_succeeds() {
    let mut t = Transport::new(1);
    let mut ctx = Context::new(0, 1);
    let sts = ctx.waitall(&mut t, &[]).unwrap();
    assert!(sts.is_empty());
}

#[test]
fn take_received_is_keyed_and_consumed() {
    // Pickup is per handle: a foreign handle sees nothing, the right handle
    // gets the bytes exactly once.
    let mut t = Transport::new(1);
    let mut ctx = Context::new(0, 1);
    let mut rbuf = ByteBuffer(vec![0u8; 2]);
    let rh = ctx.irecv(&mut rbuf, 0, 8).unwrap();
    let sh = ctx.isend(&ByteBuffer(vec![5u8, 6]), 0, 8).unwrap();
    let _ = ctx.waitall(&mut t, &[rh, sh]).unwrap();
    assert_eq!(ctx.take_received(rh + 100), None);
    assert_eq!(ctx.take_received(rh), Some(vec![5u8, 6]));
    assert_eq!(ctx.take_received(rh), None);
}
