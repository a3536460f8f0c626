//! The message engine: per-message state machines for send and receive.
//!
//! A send over a pack method streams its packed prefix into a staging buffer,
//! then assembles a vectored submission — the prefix first, then every memory
//! region verbatim and in order — and polls the transport for completion. A
//! receive posts a submission sized for the prefix and the regions, and on
//! completion splits the delivered bytes back: the prefix goes through
//! `unpack`, each region's bytes go to their region. Contiguous payloads have
//! their own two state machines that submit the bytes as they are.
//!
//! Datatype and transport faults abort a message; the error surfaces as the
//! message's terminal status and is never retried.
use vstd::prelude::*;
use crate::Status;
use crate::datatype::{PackMethod, PackState, PackedSize, UnpackMethod, UnpackState};
use crate::jagged::{lemma_sum_nonneg, lemma_sum_take_bound, lemma_sum_take_snoc, spec_sum};
use crate::regions::copy_bytes;
use crate::tag::TAG_MASK;
use crate::transport::{env_from, evolves, keeps_starved, lemma_concat_take_snoc,
    lemma_env_after_push, lemma_env_self, lemma_keeps_starved_frame,
    lemma_keeps_starved_progress, lemma_progress_stalled, mailboxes_view, spec_concat,
    spec_matches, spec_no_match, ReqView, Transport};

verus! {

/// The bytes a pack method puts on the wire: its packed prefix, then its
/// regions, in enumeration order, with nothing between them.
pub open spec fn spec_wire(prefix: Seq<u8>, regions: Seq<Seq<u8>>) -> Seq<u8> {
    prefix + spec_concat(regions)
}

/// Concatenation after putting one part in front.
pub proof fn lemma_concat_prepend(a: Seq<u8>, parts: Seq<Seq<u8>>)
    ensures
        spec_concat(seq![a] + parts) == a + spec_concat(parts),
    decreases parts.len(),
{
    if parts.len() == 0 {
        assert(seq![a] + parts =~= seq![a]);
        assert(seq![a].drop_last() =~= Seq::<Seq<u8>>::empty());
        assert(spec_concat(seq![a]) == spec_concat(seq![a].drop_last()) + seq![a].last());
        assert(Seq::<u8>::empty() + a =~= a);
        assert(a + spec_concat(parts) =~= a);
    } else {
        assert((seq![a] + parts).drop_last() =~= seq![a] + parts.drop_last());
        assert((seq![a] + parts).last() == parts.last());
        lemma_concat_prepend(a, parts.drop_last());
        assert(spec_concat(seq![a] + parts) =~= a + spec_concat(parts));
    }
}

/// The total length of a vectored payload, or nothing when it cannot be
/// counted in the address space.
fn concat_len(iov: &Vec<Vec<u8>>) -> (r: Option<usize>)
    ensures
        r matches Some(n) ==> n as int == spec_concat(iov.deep_view()).len(),
        r is None ==> spec_concat(iov.deep_view()).len() > usize::MAX,
{
    let mut total: usize = 0;
    let mut ok = true;
    let mut k: usize = 0;
    proof {
        assert(iov.deep_view().take(0) =~= Seq::<Seq<u8>>::empty());
    }
    while k < iov.len()
        invariant
            k <= iov@.len(),
            iov.deep_view().len() == iov@.len(),
            ok ==> total as int == spec_concat(iov.deep_view().take(k as int)).len(),
            !ok ==> spec_concat(iov.deep_view()).len() > usize::MAX,
        decreases iov@.len() - k,
    {
        let l = iov[k].len();
        proof {
            lemma_concat_take_snoc(iov.deep_view(), k as int);
            assert(iov.deep_view()[k as int] == iov@[k as int]@);
        }
        if ok {
            if total > usize::MAX - l {
                ok = false;
                proof {
                    crate::transport::lemma_concat_len_bound(iov.deep_view(), k as int + 1);
                }
            } else {
                total = total + l;
            }
        }
        k += 1;
    }
    proof {
        assert(iov.deep_view().take(iov@.len() as int) =~= iov.deep_view());
    }
    if ok {
        Some(total)
    } else {
        None
    }
}

/// The prefix size plus the region lengths, or nothing when the total cannot
/// be counted in the address space.
fn total_size(packed_size: usize, lens: &Vec<usize>) -> (r: Option<usize>)
    ensures
        r matches Some(n) ==> n as int == packed_size + spec_sum(lens@),
        r is None ==> packed_size + spec_sum(lens@) > usize::MAX,
{
    let mut total: usize = packed_size;
    let mut ok = true;
    let mut k: usize = 0;
    proof {
        assert(lens@.take(0) =~= Seq::<usize>::empty());
    }
    while k < lens.len()
        invariant
            k <= lens@.len(),
            ok ==> total as int == packed_size + spec_sum(lens@.take(k as int)),
            !ok ==> packed_size + spec_sum(lens@) > usize::MAX,
        decreases lens@.len() - k,
    {
        let l = lens[k];
        proof {
            lemma_sum_take_snoc(lens@, k as int);
            lemma_sum_take_bound(lens@, k as int);
        }
        if ok {
            if total > usize::MAX - l {
                ok = false;
            } else {
                total = total + l;
            }
        }
        k += 1;
    }
    proof {
        assert(lens@.take(lens@.len() as int) =~= lens@);
    }
    if ok {
        Some(total)
    } else {
        None
    }
}

/// A send driven by a pack method.
///
/// States, expressed in the fields: packing while the staging buffer is
/// shorter than the packed size and no request exists; assembling and
/// submitting once the buffer is full; polling once a request exists; and a
/// terminal error once `failed` is set.
pub struct PackSendMessage {
    /// The datatype's pack method.
    pub pack_method: PackState,
    /// Destination rank.
    pub dest: usize,
    /// Wire tag.
    pub tag: u64,
    /// Size of the packed prefix, fixed at construction.
    pub packed_size: usize,
    /// The staging buffer: the prefix bytes packed so far.
    pub packed_buffer: Vec<u8>,
    /// The transport submission, once submitted.
    pub req: Option<usize>,
    /// Set when a datatype fault or an oversized payload aborted the message.
    pub failed: bool,
}

impl PackSendMessage {
    /// The staging buffer always holds a prefix of the packed bytes, the
    /// packed size never changes, and submission happens only when packing
    /// is complete.
    pub open spec fn wf(self) -> bool {
        &&& !self.failed ==> {
            &&& self.packed_size as int == self.pack_method.spec_packed_size()
            &&& self.packed_buffer@.len() <= self.packed_size
            &&& self.packed_buffer@ == self.pack_method.prefix().take(
                self.packed_buffer@.len() as int,
            )
            &&& self.req is Some ==> self.packed_buffer@.len() == self.packed_size
        }
    }

    /// The submission, if any, is a send that the transport has settled, and
    /// the destination is a real rank.
    pub open spec fn wf_req(self, t: Transport) -> bool {
        &&& self.req matches Some(r) ==> 0 <= r < t.reqs().len() && t.reqs()[r as int]
            is SendDone
        &&& self.dest < t.spec_size()
    }

    /// Build a send message over a pack method: query the packed size and
    /// allocate the staging buffer. A packed size the datatype cannot report
    /// aborts the message.
    pub fn new(pack_method: PackState, dest: usize, tag: u64) -> (m: PackSendMessage)
        ensures
            m.wf(),
            m.dest == dest,
            m.tag == tag,
            m.req is None,
            m.pack_method == pack_method,
            m.failed <==> pack_method.spec_packed_size() > usize::MAX,
    {
        let (packed_size, failed): (usize, bool) = match pack_method.packed_size() {
            Ok(n) => (n, false),
            Err(_) => (0, true),
        };
        proof {
            if !failed {
                pack_method.prefix_size();
                assert(pack_method.prefix().take(0) =~= Seq::<u8>::empty());
            }
        }
        PackSendMessage {
            pack_method,
            dest,
            tag,
            packed_size,
            packed_buffer: Vec::new(),
            req: None,
            failed,
        }
    }

    /// Drive the send one step: pack the next stretch of the prefix, or
    /// assemble the vectored payload and submit it, or poll the submission.
    ///
    /// At the submission step the destination's mailbox gains exactly
    /// `prefix ‖ regions` under this message's tag: the iovec order — packed
    /// prefix first, then each region verbatim and in order — is the wire
    /// contract receivers rely on.
    pub fn progress(&mut self, t: &mut Transport) -> (st: Status)
        requires
            old(self).wf(),
            old(self).wf_req(*old(t)),
            old(t).wf(),
        ensures
            final(self).wf(),
            final(self).wf_req(*final(t)),
            final(t).wf(),
            evolves(*old(t), *final(t)),
            forall|r2: int, j2: int|
                0 <= r2 < old(t).spec_size() && 0 <= j2 < final(t).mailbox(r2).len() ==> env_from(
                    mailboxes_view(*old(t)),
                    r2,
                    #[trigger] final(t).mailbox(r2)[j2],
                ) || (final(t).mailbox(r2)[j2]).0 == old(self).tag,
            final(self).dest == old(self).dest,
            final(self).tag == old(self).tag,
            final(self).packed_size == old(self).packed_size,
            final(self).pack_method.prefix() == old(self).pack_method.prefix(),
            final(self).pack_method.regions() == old(self).pack_method.regions(),
            old(self).failed ==> st is Error && *final(t) == *old(t),
            (!old(self).failed && old(self).req is Some) ==> st is Complete && *final(self)
                == *old(self),
            (!old(self).failed && old(self).req is None && old(self).packed_buffer@.len() < old(self).packed_size) ==> {
                &&& *final(t) == *old(t)
                &&& st is InProgress
                &&& final(self).packed_buffer@.len() > old(self).packed_buffer@.len()
                &&& final(self).packed_buffer@.len() == old(self).packed_size
                &&& final(self).req is None
                &&& !final(self).failed
            },
            (!old(self).failed && old(self).req is None && old(self).packed_buffer@.len() == old(self).packed_size) ==> {
                let wire = spec_wire(
                    old(self).pack_method.prefix(),
                    old(self).pack_method.regions(),
                );
                &&& (wire.len() > usize::MAX ==> st is Error && final(self).failed && *final(t)
                    == *old(t))
                &&& (wire.len() <= usize::MAX ==> {
                    &&& st is InProgress
                    &&& !final(self).failed
                    &&& final(self).req is Some
                    &&& final(t).mailbox(old(self).dest as int) == old(t).mailbox(
                        old(self).dest as int,
                    ).push((old(self).tag, wire))
                    &&& forall|r: int|
                        0 <= r < old(t).spec_size() && r != old(self).dest ==> final(t).mailbox(r)
                            == old(t).mailbox(r)
                    &&& final(t).reqs() == old(t).reqs().push(ReqView::SendDone)
                })
            },
    {
        if self.failed {
            proof {
                lemma_env_self(*t);
            }
            return Status::Error("datatype failure while packing".to_string());
        }
        let req = self.req;
        match req {
            Some(r) => {
                t.progress();
                let st = t.req_status(r);
                st
            },
            None => {
                proof {
                    lemma_env_self(*t);
                }
                if self.packed_buffer.len() < self.packed_size {
                    // Packing phase: stream the next stretch of the prefix
                    // into the staging buffer.
                    let offset = self.packed_buffer.len();
                    let cap = self.packed_size - offset;
                    proof {
                        self.pack_method.prefix_size();
                    }
                    let ghost prefix = self.pack_method.prefix();
                    match self.pack_method.pack(offset, &mut self.packed_buffer, cap) {
                        Ok(used) => {
                            if used == 0 {
                                // A pack call that makes no progress would
                                // stall the message forever; the library's
                                // packers always fill the capacity they are
                                // given, so this is never reached.
                                proof {
                                    assert(false);
                                }
                                self.failed = true;
                                Status::Error("pack made no progress".to_string())
                            } else {
                                proof {
                                    assert(self.packed_buffer@ =~= prefix.take(
                                        offset + used as int,
                                    ));
                                }
                                Status::InProgress
                            }
                        },
                        Err(_) => {
                            // The library's packers never fail.
                            proof {
                                assert(false);
                            }
                            self.failed = true;
                            Status::Error("pack failed".to_string())
                        },
                    }
                } else {
                    // Assembling phase: packed prefix first, then each
                    // region verbatim and in order.
                    let ghost prefix = self.pack_method.prefix();
                    let ghost regions_view = self.pack_method.regions();
                    let regions_or_err = self.pack_method.memory_regions();
                    match regions_or_err {
                        Ok(mut regions) => {
                            proof {
                                self.pack_method.prefix_size();
                            }
                            let mut iov: Vec<Vec<u8>> = Vec::new();
                            if self.packed_size > 0 {
                                iov.push(copy_bytes(self.packed_buffer.as_slice()));
                                proof {
                                    assert(self.packed_buffer@ =~= prefix);
                                }
                            }
                            iov.append(&mut regions);
                            proof {
                                if self.packed_size > 0 {
                                    assert(iov.deep_view() =~~= seq![prefix] + regions_view);
                                    lemma_concat_prepend(prefix, regions_view);
                                } else {
                                    assert(iov.deep_view() =~~= regions_view);
                                    assert(prefix =~= Seq::<u8>::empty());
                                }
                                assert(spec_concat(iov.deep_view()) =~= spec_wire(
                                    prefix,
                                    regions_view,
                                ));
                            }
                            // The transport takes the whole byte count; a
                            // payload that cannot be counted aborts the
                            // message.
                            match concat_len(&iov) {
                                Some(_) => {
                                    let r = if iov.len() == 1 {
                                        // One entry: submit as a contiguous
                                        // send, with no iovec framing.
                                        let ghost gio = iov.deep_view();
                                        let mut iov = iov;
                                        let single = iov.remove(0);
                                        proof {
                                            assert(gio.len() == 1);
                                            assert(gio.drop_last()
                                                =~= Seq::<Seq<u8>>::empty());
                                            assert(spec_concat(gio) == spec_concat(
                                                gio.drop_last(),
                                            ) + gio.last());
                                            assert(gio.last() == single@);
                                            assert(Seq::<u8>::empty() + single@ =~= single@);
                                        }
                                        t.send_tagged(self.dest, self.tag, single)
                                    } else {
                                        t.send_vectored(self.dest, self.tag, iov)
                                    };
                                    proof {
                                        lemma_env_after_push(
                                            *old(t),
                                            *t,
                                            self.dest as int,
                                            self.tag,
                                            t.mailbox(self.dest as int).last().1,
                                        );
                                    }
                                    self.req = Some(r);
                                    Status::InProgress
                                },
                                None => {
                                    self.failed = true;
                                    Status::Error(
                                        "payload exceeds the address space".to_string(),
                                    )
                                },
                            }
                        },
                        Err(_) => {
                            // The library's pack methods always enumerate
                            // their regions.
                            proof {
                                assert(false);
                            }
                            self.failed = true;
                            Status::Error("memory regions unavailable".to_string())
                        },
                    }
                }
            },
        }
    }
}

/// Pack coverage: once the staging buffer is full, it holds exactly the
/// packed prefix — every one of the `packed_size` bytes, accumulated by pack
/// calls at monotonically increasing, contiguous offsets, each bounded by the
/// capacity it was given, and nothing more.
pub proof fn lemma_pack_coverage(m: PackSendMessage)
    requires
        m.wf(),
        !m.failed,
        m.packed_buffer@.len() == m.packed_size,
    ensures
        m.packed_buffer@ == m.pack_method.prefix(),
        m.packed_buffer@.len() == m.pack_method.spec_packed_size(),
{
    m.pack_method.prefix_size();
    assert(m.pack_method.prefix().take(m.pack_method.prefix().len() as int)
        =~= m.pack_method.prefix());
}

/// A receive driven by an unpack method.
///
/// States, expressed in the fields: assembling until a request exists;
/// polling while the transport holds it pending; unpacking at completion,
/// when the delivered bytes are split into the streamed prefix and the
/// regions; and a terminal error once `failed` is set.
pub struct PackRecvMessage {
    /// The datatype's unpack method.
    pub unpack_method: UnpackState,
    /// The receiving rank, whose mailbox is watched.
    pub rank: usize,
    /// Wire tag to match, under the full mask.
    pub tag: u64,
    /// Expected size of the streamed prefix, fixed at construction.
    pub packed_size: usize,
    /// Expected length of each region, fixed at construction.
    pub lens: Vec<usize>,
    /// The transport submission, once posted.
    pub req: Option<usize>,
    /// Whether the delivered bytes have been unpacked.
    pub done: bool,
    /// Set when a datatype fault or a size mismatch aborted the message.
    pub failed: bool,
}

impl PackRecvMessage {
    /// The expected sizes agree with the unpack method, and nothing has been
    /// consumed before completion.
    pub open spec fn wf(self) -> bool {
        &&& !self.failed ==> {
            &&& self.packed_size as int == self.unpack_method.spec_packed_size()
            &&& self.lens@.map_values(|x: usize| x as int)
                == self.unpack_method.spec_region_lens()
            &&& !self.done ==> self.unpack_method.taken().len() == 0
            &&& self.done ==> self.req is Some
            &&& self.req is Some ==> self.packed_size + spec_sum(self.lens@) <= usize::MAX
        }
    }

    /// The submission, if any, is a receive in one of the receive states: the
    /// pending form it was posted in — this message's tag under the full
    /// mask, with capacity for the prefix and every region — or a matched
    /// receive whose sender's tag matches and whose payload fits, or a
    /// truncated one. The watched rank is real.
    pub open spec fn wf_req(self, t: Transport) -> bool {
        &&& self.req matches Some(r) ==> 0 <= r < t.reqs().len() && {
            ||| t.reqs()[r as int] == (ReqView::RecvPending {
                rank: self.rank as int,
                tag: self.tag,
                mask: TAG_MASK,
                cap: self.packed_size + spec_sum(self.lens@),
            })
            ||| {
                &&& t.reqs()[r as int] matches ReqView::RecvDone { payload, sender_tag }
                &&& spec_matches(self.tag, TAG_MASK, sender_tag)
                &&& payload.len() <= self.packed_size + spec_sum(self.lens@)
            }
            ||| t.reqs()[r as int] is RecvError
        }
        &&& self.rank < t.spec_size()
    }

    /// Build a receive message over an unpack method, which must be fresh:
    /// query the packed size and the region lengths. Sizes the datatype
    /// cannot report abort the message.
    pub fn new(unpack_method: UnpackState, rank: usize, tag: u64) -> (m: PackRecvMessage)
        requires
            unpack_method.taken().len() == 0,
        ensures
            m.wf(),
            m.rank == rank,
            m.tag == tag,
            m.req is None,
            !m.done,
            m.unpack_method == unpack_method,
            m.failed <==> unpack_method.spec_packed_size() > usize::MAX,
    {
        let packed_size: usize;
        let lens: Vec<usize>;
        let mut failed = false;
        match unpack_method.packed_size() {
            Ok(n) => {
                packed_size = n;
            },
            Err(_) => {
                packed_size = 0;
                failed = true;
            },
        }
        match unpack_method.region_lens() {
            Ok(v) => {
                lens = v;
            },
            Err(_) => {
                lens = Vec::new();
                failed = true;
            },
        }
        PackRecvMessage {
            unpack_method,
            rank,
            tag,
            packed_size,
            lens,
            req: None,
            done: false,
            failed,
        }
    }

    /// Drive the receive one step: post the submission sized for the prefix
    /// and the regions, or poll it, or, at completion, split the delivered
    /// bytes — the first `packed_size` of them through `unpack`, then each
    /// region's stretch to its region, in order.
    pub fn progress(&mut self, t: &mut Transport) -> (st: Status)
        requires
            old(self).wf(),
            old(self).wf_req(*old(t)),
            old(t).wf(),
        ensures
            final(self).wf(),
            final(self).wf_req(*final(t)),
            final(t).wf(),
            evolves(*old(t), *final(t)),
            forall|r2: int, j2: int|
                0 <= r2 < old(t).spec_size() && 0 <= j2 < final(t).mailbox(r2).len() ==> env_from(
                    mailboxes_view(*old(t)),
                    r2,
                    #[trigger] final(t).mailbox(r2)[j2],
                ) || (final(t).mailbox(r2)[j2]).0 == old(self).tag,
            final(self).rank == old(self).rank,
            final(self).tag == old(self).tag,
            final(self).lens == old(self).lens,
            final(self).packed_size == old(self).packed_size,
            old(self).req is Some ==> final(self).req == old(self).req,
            keeps_starved(*old(t), *final(t)),
            old(self).failed ==> st is Error && *final(t) == *old(t),
            (!old(self).failed && old(self).req is None) ==> {
                let total = old(self).packed_size + spec_sum(old(self).lens@);
                &&& (total > usize::MAX ==> st is Error && final(self).failed && *final(t)
                    == *old(t))
                &&& (total <= usize::MAX ==> {
                    &&& st is InProgress
                    &&& final(self).req is Some
                    &&& !final(self).failed
                    &&& !final(self).done
                    &&& final(t).reqs() == old(t).reqs().push(
                        ReqView::RecvPending {
                            rank: old(self).rank as int,
                            tag: old(self).tag,
                            mask: TAG_MASK,
                            cap: total,
                        },
                    )
                    &&& forall|r2: int|
                        0 <= r2 < old(t).spec_size() ==> final(t).mailbox(r2) == old(t).mailbox(
                            r2,
                        )
                })
            },
            (!old(self).failed && !old(self).done && old(self).req is Some) ==> {
                let r = old(self).req->0 as int;
                let total = old(self).packed_size as int + spec_sum(old(self).lens@);
                &&& (final(t).reqs()[r] is RecvPending ==> st is InProgress && *final(self)
                    == *old(self) && spec_no_match(
                    final(t).mailbox(old(self).rank as int),
                    old(self).tag,
                    TAG_MASK,
                ))
                &&& (final(t).reqs()[r] is RecvError ==> st is Error)
                &&& (final(t).reqs()[r] is RecvDone ==> {
                    let payload = final(t).reqs()[r]->RecvDone_payload;
                    &&& (payload.len() == total ==> st is Complete && final(self).done)
                    &&& (payload.len() != total ==> st is Error && final(self).failed)
                })
            },
            (st is Complete && !old(self).failed && !old(self).done) ==> {
                let r = old(self).req->0 as int;
                &&& old(self).req is Some
                &&& final(self).done
                &&& !final(self).failed
                &&& final(t).reqs()[r] is RecvDone ==> {
                    let payload = final(t).reqs()[r]->RecvDone_payload;
                    &&& payload.len() == old(self).packed_size as int + spec_sum(old(self).lens@)
                    &&& final(self).unpack_method.taken() == payload.take(
                        old(self).packed_size as int,
                    )
                    &&& forall|i: int|
                        0 <= i < old(self).lens@.len() ==> final(self).unpack_method.region_data()[i] == payload.subrange(
                            old(self).packed_size + spec_sum(old(self).lens@.take(i)),
                            old(self).packed_size + spec_sum(old(self).lens@.take(i)) + old(self).lens@[i],
                        )
                }
            },
            (!old(self).failed && old(self).done) ==> st is Complete,
    {
        if self.failed {
            proof {
                lemma_env_self(*t);
                lemma_keeps_starved_frame(*t, *t);
            }
            return Status::Error("datatype failure while receiving".to_string());
        }
        if self.done {
            let ghost tp = *t;
            t.progress();
            proof {
                lemma_keeps_starved_progress(tp, *t);
            }
            return Status::Complete;
        }
        let req = self.req;
        match req {
            None => {
                // Assembling phase: one submission covers the streamed
                // prefix and every region.
                proof {
                    lemma_env_self(*t);
                }
                match total_size(self.packed_size, &self.lens) {
                    Some(total) => {
                        let ghost tp = *t;
                        let r = t.recv_tagged(self.rank, self.tag, TAG_MASK, total);
                        proof {
                            lemma_keeps_starved_frame(tp, *t);
                        }
                        self.req = Some(r);
                        Status::InProgress
                    },
                    None => {
                        proof {
                            lemma_keeps_starved_frame(*t, *t);
                        }
                        self.failed = true;
                        Status::Error("payload exceeds the address space".to_string())
                    },
                }
                // (The error branch is the one step that can refuse a
                // message whose prefix and regions together cannot be
                // counted in the address space.)
            },
            Some(r) => {
                let ghost tp = *t;
                t.progress();
                proof {
                    lemma_keeps_starved_progress(tp, *t);
                    if t.reqs()[r as int] is RecvPending {
                        lemma_progress_stalled(tp, *t, r as int);
                    }
                }
                let st = t.req_status(r);
                match st {
                    Status::InProgress => Status::InProgress,
                    Status::Error(e) => Status::Error(e),
                    Status::Complete => {
                        // Unpacking phase: check the delivered size, stream
                        // the prefix through unpack, hand each region its
                        // stretch.
                        let ghost t1 = *t;
                        let payload = t.payload_of(r);
                        let ghost w = payload@;
                        let total_opt = total_size(self.packed_size, &self.lens);
                        let total = match total_opt {
                            Some(total) => total,
                            None => {
                                // The total fit when the receive was posted.
                                proof {
                                    assert(false);
                                }
                                self.failed = true;
                                return Status::Error(
                                    "payload exceeds the address space".to_string(),
                                );
                            },
                        };
                        if payload.len() != total {
                            self.failed = true;
                            return Status::Error("delivered size does not match".to_string());
                        }
                        proof {
                            lemma_sum_nonneg(self.lens@);
                            self.unpack_method.region_shape();
                        }
                        if self.packed_size > 0 {
                            let res = self.unpack_method.unpack(
                                0,
                                &payload.as_slice()[0..self.packed_size],
                            );
                            if res.is_err() {
                                // The library's unpackers never fail.
                                proof {
                                    assert(false);
                                }
                                self.failed = true;
                                return Status::Error("unpack failed".to_string());
                            }
                            proof {
                                assert(self.unpack_method.taken() =~= w.take(
                                    self.packed_size as int,
                                ));
                            }
                        } else {
                            proof {
                                assert(self.unpack_method.taken() =~= w.take(0));
                            }
                        }
                        let mut off: usize = self.packed_size;
                        let mut i: usize = 0;
                        let mut aborted = false;
                        proof {
                            assert(self.lens@.take(0) =~= Seq::<usize>::empty());
                        }
                        while i < self.lens.len() && !aborted
                            invariant
                                !aborted,
                                i <= self.lens@.len(),
                                *t == t1,
                                t.wf(),
                                evolves(*old(t), *t),
                                self.packed_size as int == self.unpack_method.spec_packed_size(),
                                self.lens@.map_values(|x: usize| x as int)
                                    == self.unpack_method.spec_region_lens(),
                                self.unpack_method.region_data().len() == self.lens@.len(),
                                !self.failed,
                                !self.done,
                                self.req == old(self).req,
                                self.rank == old(self).rank,
                                self.tag == old(self).tag,
                                self.lens == old(self).lens,
                                self.packed_size == old(self).packed_size,
                                self.wf_req(*t),
                                payload@ == w,
                                w.len() == total,
                                total as int == self.packed_size + spec_sum(self.lens@),
                                !aborted ==> off as int == self.packed_size + spec_sum(
                                    self.lens@.take(i as int),
                                ),
                                !aborted ==> self.unpack_method.taken() == w.take(
                                    self.packed_size as int,
                                ),
                                !aborted ==> forall|q: int|
                                    0 <= q < i ==> (#[trigger] self.unpack_method.region_data()[q])
                                        == w.subrange(
                                        self.packed_size + spec_sum(self.lens@.take(q)),
                                        self.packed_size + spec_sum(self.lens@.take(q))
                                            + self.lens@[q],
                                    ),
                            decreases self.lens@.len() - i,
                        {
                            let l = self.lens[i];
                            proof {
                                lemma_sum_take_snoc(self.lens@, i as int);
                                lemma_sum_take_bound(self.lens@, i as int);
                                self.unpack_method.region_shape();
                            }
                            let res = self.unpack_method.write_region(
                                i,
                                &payload.as_slice()[off..off + l],
                            );
                            if res.is_err() {
                                aborted = true;
                            } else {
                                off = off + l;
                            }
                            i += 1;
                        }
                        if aborted {
                            // The library's unpackers accept every declared
                            // region.
                            proof {
                                assert(false);
                            }
                            self.failed = true;
                            return Status::Error("region write failed".to_string());
                        }
                        proof {
                            assert(self.lens@.take(self.lens@.len() as int) =~= self.lens@);
                        }
                        self.done = true;
                        Status::Complete
                    },
                }
            },
        }
    }
}

/// A contiguous send: the payload bytes travel as they are.
pub struct ContiguousSendMessage {
    /// The payload.
    pub payload: Vec<u8>,
    /// Destination rank.
    pub dest: usize,
    /// Wire tag.
    pub tag: u64,
    /// The transport submission, once submitted.
    pub req: Option<usize>,
}

impl ContiguousSendMessage {
    /// The submission, if any, is a settled send, and the destination is a
    /// real rank.
    pub open spec fn wf_req(self, t: Transport) -> bool {
        &&& self.req matches Some(r) ==> 0 <= r < t.reqs().len() && t.reqs()[r as int]
            is SendDone
        &&& self.dest < t.spec_size()
    }

    /// Build a contiguous send message.
    pub fn new(payload: Vec<u8>, dest: usize, tag: u64) -> (m: ContiguousSendMessage)
        ensures
            m.payload == payload,
            m.dest == dest,
            m.tag == tag,
            m.req is None,
    {
        ContiguousSendMessage { payload, dest, tag, req: None }
    }

    /// Submit the payload on the first step, then poll. At submission the
    /// destination's mailbox gains exactly the payload under this message's
    /// tag.
    pub fn progress(&mut self, t: &mut Transport) -> (st: Status)
        requires
            old(self).wf_req(*old(t)),
            old(t).wf(),
        ensures
            final(self).wf_req(*final(t)),
            final(t).wf(),
            evolves(*old(t), *final(t)),
            forall|r2: int, j2: int|
                0 <= r2 < old(t).spec_size() && 0 <= j2 < final(t).mailbox(r2).len() ==> env_from(
                    mailboxes_view(*old(t)),
                    r2,
                    #[trigger] final(t).mailbox(r2)[j2],
                ) || (final(t).mailbox(r2)[j2]).0 == old(self).tag,
            final(self).dest == old(self).dest,
            final(self).tag == old(self).tag,
            final(self).payload == old(self).payload,
            old(self).req is Some ==> st is Complete && *final(self) == *old(self),
            old(self).req is None ==> {
                &&& st is InProgress
                &&& final(self).req is Some
                &&& final(t).mailbox(old(self).dest as int) == old(t).mailbox(
                    old(self).dest as int,
                ).push((old(self).tag, old(self).payload@))
                &&& forall|r: int|
                    0 <= r < old(t).spec_size() && r != old(self).dest ==> final(t).mailbox(r)
                        == old(t).mailbox(r)
                &&& final(t).reqs() == old(t).reqs().push(ReqView::SendDone)
            },
    {
        let req = self.req;
        match req {
            Some(r) => {
                t.progress();
                let st = t.req_status(r);
                st
            },
            None => {
                let bytes = copy_bytes(self.payload.as_slice());
                let r = t.send_tagged(self.dest, self.tag, bytes);
                proof {
                    lemma_env_after_push(
                        *old(t),
                        *t,
                        self.dest as int,
                        self.tag,
                        t.mailbox(self.dest as int).last().1,
                    );
                }
                self.req = Some(r);
                Status::InProgress
            },
        }
    }
}

/// A contiguous receive: the delivered bytes are kept as they are.
pub struct ContiguousRecvMessage {
    /// The receiving rank, whose mailbox is watched.
    pub rank: usize,
    /// Capacity in bytes of the receiving buffer.
    pub count: usize,
    /// Wire tag to match, under the full mask.
    pub tag: u64,
    /// The transport submission, once posted.
    pub req: Option<usize>,
    /// The delivered bytes, once complete.
    pub received: Option<Vec<u8>>,
}

impl ContiguousRecvMessage {
    /// The submission, if any, is a receive in one of the receive states: the
    /// pending form it was posted in — this message's tag under the full
    /// mask, with the buffer's byte count as capacity — or a matched receive
    /// whose sender's tag matches and whose payload fits, or a truncated one.
    /// The watched rank is real.
    pub open spec fn wf_req(self, t: Transport) -> bool {
        &&& self.req matches Some(r) ==> 0 <= r < t.reqs().len() && {
            ||| t.reqs()[r as int] == (ReqView::RecvPending {
                rank: self.rank as int,
                tag: self.tag,
                mask: TAG_MASK,
                cap: self.count as int,
            })
            ||| {
                &&& t.reqs()[r as int] matches ReqView::RecvDone { payload, sender_tag }
                &&& spec_matches(self.tag, TAG_MASK, sender_tag)
                &&& payload.len() <= self.count
            }
            ||| t.reqs()[r as int] is RecvError
        }
        &&& self.rank < t.spec_size()
    }

    /// Build a contiguous receive message for a buffer of `count` bytes.
    pub fn new(rank: usize, count: usize, tag: u64) -> (m: ContiguousRecvMessage)
        ensures
            m.rank == rank,
            m.count == count,
            m.tag == tag,
            m.req is None,
            m.received is None,
    {
        ContiguousRecvMessage { rank, count, tag, req: None, received: None }
    }

    /// Post the receive on the first step, then poll; at completion the
    /// delivered bytes are exactly what the transport matched to this
    /// message's tag.
    pub fn progress(&mut self, t: &mut Transport) -> (st: Status)
        requires
            old(self).wf_req(*old(t)),
            old(t).wf(),
        ensures
            final(self).wf_req(*final(t)),
            final(t).wf(),
            evolves(*old(t), *final(t)),
            forall|r2: int, j2: int|
                0 <= r2 < old(t).spec_size() && 0 <= j2 < final(t).mailbox(r2).len() ==> env_from(
                    mailboxes_view(*old(t)),
                    r2,
                    #[trigger] final(t).mailbox(r2)[j2],
                ) || (final(t).mailbox(r2)[j2]).0 == old(self).tag,
            final(self).rank == old(self).rank,
            final(self).tag == old(self).tag,
            final(self).count == old(self).count,
            old(self).req is Some ==> final(self).req == old(self).req,
            keeps_starved(*old(t), *final(t)),
            old(self).req is None ==> {
                &&& st is InProgress
                &&& final(self).req is Some
                &&& final(self).received == old(self).received
                &&& final(t).reqs() == old(t).reqs().push(
                    ReqView::RecvPending {
                        rank: old(self).rank as int,
                        tag: old(self).tag,
                        mask: TAG_MASK,
                        cap: old(self).count as int,
                    },
                )
                &&& forall|r2: int|
                    0 <= r2 < old(t).spec_size() ==> final(t).mailbox(r2) == old(t).mailbox(r2)
            },
            old(self).req matches Some(r) ==> {
                &&& (final(t).reqs()[r as int] is RecvPending ==> st is InProgress && *final(self)
                    == *old(self) && spec_no_match(
                    final(t).mailbox(old(self).rank as int),
                    old(self).tag,
                    TAG_MASK,
                ))
                &&& (final(t).reqs()[r as int] is RecvError ==> st is Error)
                &&& (final(t).reqs()[r as int] is RecvDone ==> {
                    &&& st is Complete
                    &&& final(self).received matches Some(b) && b@ == final(t).reqs()[
                        r as int]->RecvDone_payload
                })
            },
    {
        let req = self.req;
        match req {
            None => {
                proof {
                    lemma_env_self(*t);
                }
                let ghost tp = *t;
                let r = t.recv_tagged(self.rank, self.tag, TAG_MASK, self.count);
                proof {
                    lemma_keeps_starved_frame(tp, *t);
                }
                self.req = Some(r);
                Status::InProgress
            },
            Some(r) => {
                let ghost tp = *t;
                t.progress();
                proof {
                    lemma_keeps_starved_progress(tp, *t);
                    if t.reqs()[r as int] is RecvPending {
                        lemma_progress_stalled(tp, *t, r as int);
                    }
                }
                let st = t.req_status(r);
                match st {
                    Status::InProgress => Status::InProgress,
                    Status::Error(e) => Status::Error(e),
                    Status::Complete => {
                        let payload = t.payload_of(r);
                        self.received = Some(payload);
                        Status::Complete
                    },
                }
            },
        }
    }
}

/// An in-flight message: one of the four state machines.
pub enum Message {
    /// A send over a pack method.
    PackSend(PackSendMessage),
    /// A receive over an unpack method.
    PackRecv(PackRecvMessage),
    /// A contiguous send.
    ContigSend(ContiguousSendMessage),
    /// A contiguous receive.
    ContigRecv(ContiguousRecvMessage),
}

impl Message {
    /// Well-formedness of the underlying state machine.
    pub open spec fn wf(self) -> bool {
        match self {
            Message::PackSend(m) => m.wf(),
            Message::PackRecv(m) => m.wf(),
            Message::ContigSend(m) => true,
            Message::ContigRecv(m) => true,
        }
    }

    /// The peer rank a message addresses: the destination of a send, the
    /// receiving rank of a receive.
    pub open spec fn peer(self) -> int {
        match self {
            Message::PackSend(m) => m.dest as int,
            Message::PackRecv(m) => m.rank as int,
            Message::ContigSend(m) => m.dest as int,
            Message::ContigRecv(m) => m.rank as int,
        }
    }

    /// The wire tag the message travels or matches under.
    pub open spec fn wire_tag(self) -> u64 {
        match self {
            Message::PackSend(m) => m.tag,
            Message::PackRecv(m) => m.tag,
            Message::ContigSend(m) => m.tag,
            Message::ContigRecv(m) => m.tag,
        }
    }

    /// Whether the message has not yet touched the transport.
    pub open spec fn fresh(self) -> bool {
        match self {
            Message::PackSend(m) => m.req is None,
            Message::PackRecv(m) => m.req is None,
            Message::ContigSend(m) => m.req is None,
            Message::ContigRecv(m) => m.req is None,
        }
    }

    /// A fresh message is consistent with every transport whose world
    /// includes its peer.
    pub proof fn lemma_wf_req_fresh(self, t: Transport)
        requires
            self.fresh(),
            self.peer() < t.spec_size(),
        ensures
            self.wf_req(t),
    {
    }

    /// The message's submission is consistent with the transport.
    pub open spec fn wf_req(self, t: Transport) -> bool {
        match self {
            Message::PackSend(m) => m.wf_req(t),
            Message::PackRecv(m) => m.wf_req(t),
            Message::ContigSend(m) => m.wf_req(t),
            Message::ContigRecv(m) => m.wf_req(t),
        }
    }

    /// Drive the message one step against the transport and report its
    /// status.
    pub fn progress(&mut self, t: &mut Transport) -> (st: Status)
        requires
            old(self).wf(),
            old(self).wf_req(*old(t)),
            old(t).wf(),
        ensures
            final(self).wf(),
            final(self).wf_req(*final(t)),
            final(t).wf(),
            evolves(*old(t), *final(t)),
            forall|r2: int, j2: int|
                0 <= r2 < old(t).spec_size() && 0 <= j2 < final(t).mailbox(r2).len() ==> env_from(
                    mailboxes_view(*old(t)),
                    r2,
                    #[trigger] final(t).mailbox(r2)[j2],
                ) || (final(t).mailbox(r2)[j2]).0 == old(self).wire_tag(),
            final(self).peer() == old(self).peer(),
            final(self).wire_tag() == old(self).wire_tag(),
            (*final(self)) is PackSend <==> (*old(self)) is PackSend,
            (*final(self)) is PackRecv <==> (*old(self)) is PackRecv,
            (*final(self)) is ContigSend <==> (*old(self)) is ContigSend,
            (*final(self)) is ContigRecv <==> (*old(self)) is ContigRecv,
            ((*old(self)) is PackRecv || (*old(self)) is ContigRecv) ==> keeps_starved(
                *old(t),
                *final(t),
            ),
            (*old(self)) matches Message::ContigSend(c0) ==> ((*final(self)) matches
                Message::ContigSend(c1) && {
                &&& (st is InProgress ==> c1.req is Some)
                &&& (c0.req is Some ==> st is Complete)
            }),
            (*old(self)) matches Message::PackSend(p0) ==> ((*final(self)) matches
                Message::PackSend(p1) && {
                &&& p1.packed_size == p0.packed_size
                &&& p1.pack_method.prefix() == p0.pack_method.prefix()
                &&& p1.pack_method.regions() == p0.pack_method.regions()
                &&& (st is InProgress ==> (p1.req is Some || (p1.req is None && !p1.failed
                    && p1.packed_buffer@.len() == p1.packed_size)))
                &&& ((!p0.failed && (p0.req is Some || p0.packed_buffer@.len()
                    == p0.packed_size) && st is InProgress) ==> p1.req is Some)
                &&& (!p0.failed && p0.req is Some ==> st is Complete)
                &&& (!p0.failed ==> (p1.failed ==> spec_wire(
                    p0.pack_method.prefix(),
                    p0.pack_method.regions(),
                ).len() > usize::MAX))
            }),
            st is InProgress ==> msg_posted(*final(self)),
            (msg_posted(*old(self)) && st is InProgress) ==> msg_submitted(*final(self)),
            (((*old(self)) is ContigSend || (*old(self)) is PackSend) && msg_submitted(
                *old(self),
            )) ==> !(st is InProgress),
            st is Error ==> spec_msg_fault(*old(self), *final(t)),
            (((*old(self)) is PackRecv || (*old(self)) is ContigRecv) && msg_submitted(
                *old(self),
            ) && st is InProgress) ==> msg_starved(*final(self), *final(t)),
            (*old(self)) matches Message::ContigRecv(cr0) ==> ((cr0.req is Some && st
                is InProgress) ==> {
                &&& final(t).reqs()[cr0.req->0 as int] is RecvPending
                &&& spec_no_match(final(t).mailbox(cr0.rank as int), cr0.tag, TAG_MASK)
            }),
            (*old(self)) matches Message::PackRecv(pr0) ==> ((!pr0.failed && !pr0.done
                && pr0.req is Some && st is InProgress) ==> {
                &&& final(t).reqs()[pr0.req->0 as int] is RecvPending
                &&& spec_no_match(final(t).mailbox(pr0.rank as int), pr0.tag, TAG_MASK)
            }),
            (*old(self)) matches Message::ContigRecv(m0) ==> ((*final(self)) matches
                Message::ContigRecv(m1) && {
                &&& m1.tag == m0.tag
                &&& m1.rank == m0.rank
                &&& m1.count == m0.count
                &&& (st is Complete ==> {
                    &&& m1.req is Some
                    &&& final(t).reqs()[m1.req->0 as int] is RecvDone
                    &&& m1.received matches Some(b) && b@ == final(t).reqs()[
                        m1.req->0 as int]->RecvDone_payload
                })
            }),
            (*old(self)) matches Message::PackRecv(p0) ==> ((*final(self)) matches
                Message::PackRecv(p1) && {
                &&& p1.tag == p0.tag
                &&& p1.rank == p0.rank
                &&& p1.packed_size == p0.packed_size
                &&& p1.lens == p0.lens
                &&& (st is InProgress && !p0.failed && !p0.done ==> !p1.failed && !p1.done)
                &&& (st is Complete && !p0.failed && !p0.done ==> {
                    &&& p1.req is Some
                    &&& p1.done && !p1.failed
                    &&& final(t).reqs()[p1.req->0 as int] is RecvDone
                    &&& p1.unpack_method.taken() == final(t).reqs()[
                        p1.req->0 as int]->RecvDone_payload.take(p0.packed_size as int)
                })
            }),
    {
        match self {
            Message::PackSend(m) => m.progress(t),
            Message::PackRecv(m) => m.progress(t),
            Message::ContigSend(m) => m.progress(t),
            Message::ContigRecv(m) => m.progress(t),
        }
    }

    /// The delivered bytes of a completed contiguous receive.
    pub fn take_received(self) -> (r: Option<Vec<u8>>)
        ensures
            self matches Message::ContigRecv(m) ==> r == m.received,
            !(self is ContigRecv) ==> r is None,
    {
        match self {
            Message::ContigRecv(m) => m.received,
            _ => None,
        }
    }

    /// The unpack method of a receive over a pack method, with whatever it
    /// has unpacked.
    pub fn take_unpack(self) -> (r: Option<UnpackState>)
        ensures
            self matches Message::PackRecv(m) ==> r == Some(m.unpack_method),
            !(self is PackRecv) ==> r is None,
    {
        match self {
            Message::PackRecv(m) => Some(m.unpack_method),
            _ => None,
        }
    }

    /// A message's submission stays consistent while the transport evolves
    /// underneath it, whichever message drove the evolution.
    pub proof fn lemma_wf_req_evolves(self, pre: Transport, post: Transport)
        requires
            self.wf_req(pre),
            evolves(pre, post),
        ensures
            self.wf_req(post),
    {
    }
}

/// Whether a message has filled its staging work: a send over a pack method
/// has either submitted or completely packed its prefix, and every other kind
/// has submitted. One progress step from any live state reaches this.
pub open spec fn msg_posted(m: Message) -> bool {
    match m {
        Message::PackSend(p) => p.req is Some || (!p.failed && p.packed_buffer@.len()
            == p.packed_size),
        Message::ContigSend(c) => c.req is Some,
        Message::PackRecv(p) => p.req is Some,
        Message::ContigRecv(c) => c.req is Some,
    }
}

/// Whether a message holds a transport submission. One progress step from any
/// posted state reaches this, and one more completes every submitted send.
pub open spec fn msg_submitted(m: Message) -> bool {
    match m {
        Message::PackSend(p) => p.req is Some,
        Message::ContigSend(c) => c.req is Some,
        Message::PackRecv(p) => p.req is Some,
        Message::ContigRecv(c) => c.req is Some,
    }
}

/// A starved receive: its submission is still the pending form it was posted
/// in, and the watched mailbox holds no envelope whose tag matches under the
/// full mask.
pub open spec fn msg_starved(m: Message, t: Transport) -> bool {
    match m {
        Message::PackRecv(p) => {
            &&& p.req matches Some(r) && 0 <= r < t.reqs().len() && t.reqs()[r as int] == (
            ReqView::RecvPending {
                rank: p.rank as int,
                tag: p.tag,
                mask: TAG_MASK,
                cap: p.packed_size + spec_sum(p.lens@),
            })
            &&& spec_no_match(t.mailbox(p.rank as int), p.tag, TAG_MASK)
        },
        Message::ContigRecv(c) => {
            &&& c.req matches Some(r) && 0 <= r < t.reqs().len() && t.reqs()[r as int] == (
            ReqView::RecvPending {
                rank: c.rank as int,
                tag: c.tag,
                mask: TAG_MASK,
                cap: c.count as int,
            })
            &&& spec_no_match(t.mailbox(c.rank as int), c.tag, TAG_MASK)
        },
        _ => false,
    }
}

/// The faults a message can report: a datatype failure, a payload too large
/// for the address space, a truncated submission, or a matched submission
/// whose payload does not have the expected size. Every erroneous status
/// traces back to one of these.
pub open spec fn spec_msg_fault(m: Message, t: Transport) -> bool {
    match m {
        Message::ContigSend(_) => false,
        Message::PackSend(p) => p.failed || spec_wire(
            p.pack_method.prefix(),
            p.pack_method.regions(),
        ).len() > usize::MAX,
        Message::ContigRecv(_) => exists|rq: int|
            0 <= rq < t.reqs().len() && (#[trigger] t.reqs()[rq]) is RecvError,
        Message::PackRecv(p) => p.failed || p.done || p.packed_size + spec_sum(p.lens@)
            > usize::MAX || exists|rq: int|
            0 <= rq < t.reqs().len() && ((#[trigger] t.reqs()[rq]) is RecvError || (t.reqs()[rq]
                matches ReqView::RecvDone { payload, sender_tag } && spec_matches(
                p.tag,
                TAG_MASK,
                sender_tag,
            ) && payload.len() != p.packed_size + spec_sum(p.lens@))),
    }
}

/// A stalled receive: no envelope in flight towards the watched mailbox has a
/// tag that matches the receive's own under the full mask.
pub open spec fn spec_msg_stalled(m: Message, t: Transport) -> bool {
    &&& (m is PackRecv || m is ContigRecv)
    &&& spec_no_match(t.mailbox(m.peer()), m.wire_tag(), TAG_MASK)
}

/// A starved receive stays starved across any step that keeps starved
/// receives starved.
pub proof fn lemma_msg_starved_keeps(m: Message, pre: Transport, post: Transport)
    requires
        msg_starved(m, pre),
        keeps_starved(pre, post),
        post.reqs().len() >= pre.reqs().len(),
    ensures
        msg_starved(m, post),
{
    match m {
        Message::PackRecv(p) => {
            let r = p.req->0 as int;
            assert(match pre.reqs()[r] {
                ReqView::RecvPending { rank: rr, tag: tt, mask: mm, .. } => spec_no_match(
                    pre.mailbox(rr),
                    tt,
                    mm,
                ),
                _ => false,
            });
            assert(post.reqs()[r] == pre.reqs()[r]);
        },
        Message::ContigRecv(c) => {
            let r = c.req->0 as int;
            assert(match pre.reqs()[r] {
                ReqView::RecvPending { rank: rr, tag: tt, mask: mm, .. } => spec_no_match(
                    pre.mailbox(rr),
                    tt,
                    mm,
                ),
                _ => false,
            });
            assert(post.reqs()[r] == pre.reqs()[r]);
        },
        _ => {},
    }
}

/// A fault's evidence is terminal, so it survives any evolution of the
/// transport.
pub proof fn lemma_msg_fault_evolves(m: Message, pre: Transport, post: Transport)
    requires
        spec_msg_fault(m, pre),
        evolves(pre, post),
    ensures
        spec_msg_fault(m, post),
{
    match m {
        Message::ContigRecv(_) => {
            let rq = choose|rq: int|
                0 <= rq < pre.reqs().len() && (#[trigger] pre.reqs()[rq]) is RecvError;
            assert(post.reqs()[rq] == pre.reqs()[rq]);
        },
        Message::PackRecv(p) => {
            if !(p.failed || p.done || p.packed_size + spec_sum(p.lens@) > usize::MAX) {
                let rq = choose|rq: int|
                    0 <= rq < pre.reqs().len() && ((#[trigger] pre.reqs()[rq]) is RecvError || (
                    pre.reqs()[rq] matches ReqView::RecvDone { payload, sender_tag }
                        && spec_matches(p.tag, TAG_MASK, sender_tag) && payload.len()
                        != p.packed_size + spec_sum(p.lens@)));
                assert(post.reqs()[rq] == pre.reqs()[rq]);
            }
        },
        _ => {},
    }
}

} // verus!
