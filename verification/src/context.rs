//! The context: the world group's point-to-point surface.
//!
//! A context owns this process's rank, the world size and the registry of
//! in-flight messages. `isend` and `irecv` build the right message state
//! machine for a buffer, enroll it and hand back its registry handle;
//! `waitall` drives every handle to a terminal status, reported in the
//! caller's order; `probe` looks for a matching incoming message without
//! receiving it. The transport is passed in by the caller, which owns the
//! cooperative progress loop.
use vstd::prelude::*;
use crate::Status;
use crate::communicator::{Error, ProbeResult, Result};
use crate::datatype::{MessageBuffer, MessageCount, PackMethod, PackedSize, UnpackMethod, UnpackState};
use crate::message::{
    lemma_msg_fault_evolves, lemma_msg_starved_keeps, msg_posted, msg_starved, msg_submitted,
    spec_msg_fault, spec_msg_stalled, spec_wire, ContiguousRecvMessage, ContiguousSendMessage,
    Message, PackRecvMessage, PackSendMessage,
};
use crate::registry::Registry;
use crate::tag::{decode_tag, encode_tag, PROBE_TAG_MASK, RANK_LIMIT, TAG_MASK};
use crate::transport::{evolves, lemma_evolves_trans, spec_first_match, spec_matches, Transport};

verus! {

/// Whether a slot index is among a list of handles.
pub open spec fn spec_in_handles(hs: Seq<usize>, s: int) -> bool {
    exists|i: int| 0 <= i < hs.len() && hs[i] == s
}

/// The position of the first entry a pickup list holds for a handle, or the
/// list's length when it holds none.
pub open spec fn spec_entry_at<T>(entries: Seq<(usize, T)>, h: usize) -> int
    decreases entries.len(),
{
    if entries.len() == 0 {
        0int
    } else if entries[0].0 == h {
        0int
    } else {
        1 + spec_entry_at(entries.drop_first(), h)
    }
}

/// The first entry for a handle lies within the list exactly when the list
/// holds one; it is the handle's, and no earlier entry is.
pub proof fn lemma_entry_at<T>(entries: Seq<(usize, T)>, h: usize)
    ensures
        0 <= spec_entry_at(entries, h) <= entries.len(),
        spec_entry_at(entries, h) < entries.len() ==> entries[spec_entry_at(entries, h)].0 == h,
        forall|t: int| 0 <= t < spec_entry_at(entries, h) ==> (#[trigger] entries[t]).0 != h,
    decreases entries.len(),
{
    if entries.len() > 0 && entries[0].0 != h {
        lemma_entry_at(entries.drop_first(), h);
        assert forall|t: int|
            0 <= t < spec_entry_at(entries, h) implies (#[trigger] entries[t]).0 != h by {
            if t > 0 {
                assert(entries.drop_first()[t - 1] == entries[t]);
            }
        }
    }
}

/// An entry for the handle before which none is the handle's is the first.
pub proof fn lemma_entry_at_is<T>(entries: Seq<(usize, T)>, h: usize, k: int)
    requires
        0 <= k < entries.len(),
        entries[k].0 == h,
        forall|t: int| 0 <= t < k ==> (#[trigger] entries[t]).0 != h,
    ensures
        spec_entry_at(entries, h) == k,
{
    lemma_entry_at(entries, h);
    let e = spec_entry_at(entries, h);
    if e < k {
        assert(entries[e].0 != h);
    }
}

/// A delivered contiguous payload: the pickup list holds, under this handle,
/// exactly the bytes of a matched receive whose sender's wire tag equals the
/// receive's own tag under the full mask.
pub open spec fn spec_delivered_bytes(
    entries: Seq<(usize, Vec<u8>)>,
    h: usize,
    tag: u64,
    t: Transport,
) -> bool {
    exists|k: int, rq: int|
        {
            &&& 0 <= k < entries.len()
            &&& (#[trigger] entries[k]).0 == h
            &&& 0 <= rq < t.reqs().len()
            &&& (#[trigger] t.reqs()[rq]) is RecvDone
            &&& entries[k].1@ == t.reqs()[rq]->RecvDone_payload
            &&& spec_matches(tag, TAG_MASK, t.reqs()[rq]->RecvDone_sender_tag)
        }
}

/// A barrier answer from rank `p`: some handle's delivery record in the
/// pickup list is a matched submission whose sender's tag is rank `p`'s own
/// barrier tag.
pub open spec fn spec_barrier_answer(ctx: Context, p: int, t: Transport) -> bool {
    exists|h: usize|
        #[trigger] spec_delivered_bytes(
            ctx.recv_bytes@,
            h,
            crate::tag::spec_encode_tag(crate::tag::BARRIER_TAG, p as i32, 0),
            t,
        )
}

/// A delivered unpack method: the pickup list holds, under this handle, an
/// unpack method whose consumed prefix is exactly the head of a matched
/// receive's payload, the sender's wire tag equal to the receive's own tag
/// under the full mask.
pub open spec fn spec_delivered_unpack(
    entries: Seq<(usize, UnpackState)>,
    h: usize,
    tag: u64,
    t: Transport,
) -> bool {
    exists|k: int, rq: int|
        {
            &&& 0 <= k < entries.len()
            &&& (#[trigger] entries[k]).0 == h
            &&& 0 <= rq < t.reqs().len()
            &&& (#[trigger] t.reqs()[rq]) is RecvDone
            &&& entries[k].1.taken() == t.reqs()[rq]->RecvDone_payload.take(
                entries[k].1.spec_packed_size(),
            )
            &&& spec_matches(tag, TAG_MASK, t.reqs()[rq]->RecvDone_sender_tag)
        }
}

/// What one message carries as it progresses: its kind and wire tag never
/// change, and a receive that has not completed or failed stays that way
/// while it is still registered.
pub open spec fn message_carries(m0: Message, m1: Message) -> bool {
    &&& m1.wire_tag() == m0.wire_tag()
    &&& m1.peer() == m0.peer()
    &&& (m1 is ContigRecv <==> m0 is ContigRecv)
    &&& (m1 is PackRecv <==> m0 is PackRecv)
    &&& (m1 is ContigSend <==> m0 is ContigSend)
    &&& (m1 is PackSend <==> m0 is PackSend)
    &&& (m0 matches Message::PackRecv(p0) ==> (m1 matches Message::PackRecv(p1) && {
        &&& (!p0.failed && !p0.done ==> !p1.failed && !p1.done)
        &&& p1.packed_size == p0.packed_size
        &&& p1.lens == p0.lens
    }))
    &&& (m0 matches Message::PackSend(s0) ==> (m1 matches Message::PackSend(s1) && {
        &&& s1.pack_method.prefix() == s0.pack_method.prefix()
        &&& s1.pack_method.regions() == s0.pack_method.regions()
        &&& (!s0.failed ==> (s1.failed ==> spec_wire(
            s0.pack_method.prefix(),
            s0.pack_method.regions(),
        ).len() > usize::MAX))
    }))
}

/// Whether every handle in the list that is still registered holds a receive
/// that has already posted its transport submission.
pub open spec fn all_submitted_recvs(ctx: Context, hs: Seq<usize>) -> bool {
    forall|q: int|
        0 <= q < hs.len() && ctx.registry.occupied((#[trigger] hs[q]) as int) ==> {
            let m0 = ctx.registry.value_at(hs[q] as int);
            &&& (m0 is PackRecv || m0 is ContigRecv)
            &&& msg_submitted(m0)
        }
}

/// The delivery record a completed receive leaves behind, according to its
/// kind: a contiguous receive leaves its delivered bytes, a pack-method
/// receive its unpack method, each under the receive's own handle and tied to
/// a matched submission whose sender's tag equals the receive's tag.
pub open spec fn spec_delivery(m0: Message, h: usize, ctx: Context, t: Transport) -> bool {
    &&& (m0 is ContigRecv ==> spec_delivered_bytes(ctx.recv_bytes@, h, m0.wire_tag(), t))
    &&& ((m0 matches Message::PackRecv(p0) && !p0.done && !p0.failed) ==> spec_delivered_unpack(
        ctx.recv_unpacks@,
        h,
        m0.wire_tag(),
        t,
    ))
}

/// A delivery record speaks only of a message's kind, tag and receive flags,
/// all of which [`message_carries`] preserves, so the record transfers from
/// the carried message back to the entry message.
pub proof fn lemma_delivery_carries(m0: Message, m1: Message, h: usize, ctx: Context, t: Transport)
    requires
        message_carries(m0, m1),
        spec_delivery(m1, h, ctx, t),
        m0 matches Message::PackRecv(p0) ==> (m1 matches Message::PackRecv(p1) && (!p0.done
            && !p0.failed ==> !p1.done && !p1.failed)),
    ensures
        spec_delivery(m0, h, ctx, t),
{
}

/// A fault speaks only of what a message carries — its kind, tag, sizes,
/// failure flags and pack method — and of terminal submissions, so it
/// transfers from the carried message back to the entry message.
pub proof fn lemma_fault_carries(m0: Message, m1: Message, t: Transport)
    requires
        message_carries(m0, m1),
        spec_msg_fault(m1, t),
    ensures
        spec_msg_fault(m0, t),
{
}

/// A stall record speaks only of a message's kind, peer and tag, all of which
/// [`message_carries`] preserves.
pub proof fn lemma_stalled_carries(m0: Message, m1: Message, t: Transport)
    requires
        message_carries(m0, m1),
        spec_msg_stalled(m1, t),
    ensures
        spec_msg_stalled(m0, t),
{
}

/// A delivery record survives any step in which the pickup lists only grow
/// at the end and the transport evolves.
pub proof fn lemma_delivery_stable(
    m0: Message,
    h: usize,
    pre: Context,
    post: Context,
    pre_t: Transport,
    post_t: Transport,
)
    requires
        spec_delivery(m0, h, pre, pre_t),
        post.recv_bytes@.len() >= pre.recv_bytes@.len(),
        forall|k: int| 0 <= k < pre.recv_bytes@.len() ==> post.recv_bytes@[k] == pre.recv_bytes@[k],
        post.recv_unpacks@.len() >= pre.recv_unpacks@.len(),
        forall|k: int|
            0 <= k < pre.recv_unpacks@.len() ==> post.recv_unpacks@[k] == pre.recv_unpacks@[k],
        evolves(pre_t, post_t),
    ensures
        spec_delivery(m0, h, post, post_t),
{
    if m0 is ContigRecv {
        lemma_delivered_bytes_stable(
            pre.recv_bytes@,
            post.recv_bytes@,
            h,
            m0.wire_tag(),
            pre_t,
            post_t,
        );
    }
    match m0 {
        Message::PackRecv(p0) => {
            if !p0.done && !p0.failed {
                lemma_delivered_unpack_stable(
                    pre.recv_unpacks@,
                    post.recv_unpacks@,
                    h,
                    m0.wire_tag(),
                    pre_t,
                    post_t,
                );
            }
        },
        _ => {},
    }
}

/// Delivery records persist: pickup lists only grow at the end, and settled
/// submissions never change while the transport evolves.
pub proof fn lemma_delivered_bytes_stable(
    pre_entries: Seq<(usize, Vec<u8>)>,
    post_entries: Seq<(usize, Vec<u8>)>,
    h: usize,
    tag: u64,
    pre_t: Transport,
    post_t: Transport,
)
    requires
        spec_delivered_bytes(pre_entries, h, tag, pre_t),
        post_entries.len() >= pre_entries.len(),
        forall|k: int| 0 <= k < pre_entries.len() ==> post_entries[k] == pre_entries[k],
        evolves(pre_t, post_t),
    ensures
        spec_delivered_bytes(post_entries, h, tag, post_t),
{
    let (k, rq) = choose|k: int, rq: int|
        {
            &&& 0 <= k < pre_entries.len()
            &&& (#[trigger] pre_entries[k]).0 == h
            &&& 0 <= rq < pre_t.reqs().len()
            &&& (#[trigger] pre_t.reqs()[rq]) is RecvDone
            &&& pre_entries[k].1@ == pre_t.reqs()[rq]->RecvDone_payload
            &&& spec_matches(tag, TAG_MASK, pre_t.reqs()[rq]->RecvDone_sender_tag)
        };
    assert(post_t.reqs()[rq] == pre_t.reqs()[rq]);
    assert(post_entries[k] == pre_entries[k]);
}

/// Delivery records of unpack methods persist in the same way.
pub proof fn lemma_delivered_unpack_stable(
    pre_entries: Seq<(usize, UnpackState)>,
    post_entries: Seq<(usize, UnpackState)>,
    h: usize,
    tag: u64,
    pre_t: Transport,
    post_t: Transport,
)
    requires
        spec_delivered_unpack(pre_entries, h, tag, pre_t),
        post_entries.len() >= pre_entries.len(),
        forall|k: int| 0 <= k < pre_entries.len() ==> post_entries[k] == pre_entries[k],
        evolves(pre_t, post_t),
    ensures
        spec_delivered_unpack(post_entries, h, tag, post_t),
{
    let (k, rq) = choose|k: int, rq: int|
        {
            &&& 0 <= k < pre_entries.len()
            &&& (#[trigger] pre_entries[k]).0 == h
            &&& 0 <= rq < pre_t.reqs().len()
            &&& (#[trigger] pre_t.reqs()[rq]) is RecvDone
            &&& pre_entries[k].1.taken() == pre_t.reqs()[rq]->RecvDone_payload.take(
                pre_entries[k].1.spec_packed_size(),
            )
            &&& spec_matches(tag, TAG_MASK, pre_t.reqs()[rq]->RecvDone_sender_tag)
        };
    assert(post_t.reqs()[rq] == pre_t.reqs()[rq]);
    assert(post_entries[k] == pre_entries[k]);
}

/// The context of one rank within the world group.
pub struct Context {
    /// This process's rank.
    pub rank: usize,
    /// Number of ranks in the world.
    pub size: usize,
    /// In-flight messages, keyed by handle.
    pub registry: Registry<Message>,
    /// Delivered contiguous payloads waiting to be picked up, by handle.
    pub recv_bytes: Vec<(usize, Vec<u8>)>,
    /// Finished unpack methods waiting to be picked up, by handle.
    pub recv_unpacks: Vec<(usize, UnpackState)>,
}

impl Context {
    /// The rank is real, every rank fits the tag's 24-bit field, and every
    /// registered message is well formed and addresses a real peer.
    pub open spec fn wf(self) -> bool {
        &&& self.rank < self.size
        &&& self.size <= RANK_LIMIT
        &&& self.registry.wf()
        &&& forall|h: int|
            self.registry.occupied(h) ==> (#[trigger] self.registry.value_at(h)).wf()
        &&& forall|h: int|
            self.registry.occupied(h) ==> (#[trigger] self.registry.value_at(h)).peer()
                < self.size
    }

    /// The context agrees with a transport: same world size, and every
    /// registered message's submission is consistent with it.
    pub open spec fn wf_with(self, t: Transport) -> bool {
        &&& self.size as int == t.spec_size()
        &&& forall|h: int|
            self.registry.occupied(h) ==> (#[trigger] self.registry.value_at(h)).wf_req(t)
    }

    /// A fresh context for one rank of a world of `size` ranks.
    pub fn new(rank: usize, size: usize) -> (c: Context)
        requires
            rank < size,
            size <= RANK_LIMIT,
        ensures
            c.wf(),
            c.rank == rank,
            c.size == size,
            c.registry.slots() =~= Seq::<Option<Message>>::empty(),
            forall|t: Transport| t.spec_size() == size ==> c.wf_with(t),
    {
        Context {
            rank,
            size,
            registry: Registry::new(),
            recv_bytes: Vec::new(),
            recv_unpacks: Vec::new(),
        }
    }

    /// Number of ranks in the world.
    pub fn size(&self) -> (r: i32)
        requires
            self.wf(),
        ensures
            r == self.size,
    {
        self.size as i32
    }

    /// This process's rank.
    pub fn rank(&self) -> (r: i32)
        requires
            self.wf(),
        ensures
            r == self.rank,
    {
        self.rank as i32
    }

    /// Enroll a send of a buffer under a raw wire tag: a pack-method send
    /// when the buffer yields one, the contiguous fast path otherwise.
    pub fn internal_isend<B: MessageBuffer>(&mut self, data: &B, dest: usize, tag: u64) -> (r:
        Result<usize>)
        requires
            old(self).wf(),
            dest < old(self).size,
            old(self).registry.slots().len() < usize::MAX,
        ensures
            final(self).wf(),
            final(self).rank == old(self).rank,
            final(self).size == old(self).size,
            forall|t: Transport| old(self).wf_with(t) ==> final(self).wf_with(t),
            old(self).registry.slots().len() <= final(self).registry.slots().len(),
            final(self).registry.slots().len() <= old(self).registry.slots().len() + 1,
            final(self).recv_bytes == old(self).recv_bytes,
            final(self).recv_unpacks == old(self).recv_unpacks,
            !data.has_pack() ==> r is Ok,
            r matches Ok(h) ==> {
                &&& final(self).registry.occupied(h as int)
                &&& !old(self).registry.occupied(h as int)
                &&& forall|s: int|
                    0 <= s < old(self).registry.slots().len() && s != h ==> final(self).registry.slots()[s] == old(self).registry.slots()[s]
                &&& data.has_pack() ==> (final(self).registry.value_at(h as int) matches
                    Message::PackSend(m) && m.dest == dest && m.tag == tag
                    && m.pack_method.prefix() == data.pack_prefix() && m.pack_method.regions()
                    == data.pack_regions() && m.req is None)
                &&& !data.has_pack() ==> (final(self).registry.value_at(h as int) matches
                    Message::ContigSend(m) && m.dest == dest && m.tag == tag && m.payload@
                    == data.contig() && m.req is None)
            },
            r is Err ==> *final(self) == *old(self),
    {
        match data.pack() {
            Some(packer) => {
                match packer {
                    Ok(p) => {
                        let msg = Message::PackSend(PackSendMessage::new(p, dest, tag));
                        let h = self.registry.add(msg);
                        proof {
                            self.lemma_wf_after_add(*old(self), h);
                        }
                        Ok(h)
                    },
                    Err(_) => Err(Error::InternalError),
                }
            },
            None => {
                let payload = data.contig_bytes();
                let msg = Message::ContigSend(ContiguousSendMessage::new(payload, dest, tag));
                let h = self.registry.add(msg);
                proof {
                    self.lemma_wf_after_add(*old(self), h);
                }
                Ok(h)
            },
        }
    }

    /// Enroll a receive into a buffer under a raw wire tag: a pack-method
    /// receive when the buffer yields an unpack method, the contiguous fast
    /// path otherwise.
    pub fn internal_irecv<B: MessageBuffer>(&mut self, data: &mut B, tag: u64) -> (r: Result<
        usize,
    >)
        requires
            old(self).wf(),
            old(self).registry.slots().len() < usize::MAX,
        ensures
            final(self).wf(),
            final(self).rank == old(self).rank,
            final(self).size == old(self).size,
            forall|t: Transport| old(self).wf_with(t) ==> final(self).wf_with(t),
            old(self).registry.slots().len() <= final(self).registry.slots().len(),
            final(self).registry.slots().len() <= old(self).registry.slots().len() + 1,
            final(self).recv_bytes == old(self).recv_bytes,
            final(self).recv_unpacks == old(self).recv_unpacks,
            !old(data).has_pack() ==> r is Ok,
            r matches Ok(h) ==> {
                &&& final(self).registry.occupied(h as int)
                &&& !old(self).registry.occupied(h as int)
                &&& forall|s: int|
                    0 <= s < old(self).registry.slots().len() && s != h ==> final(self).registry.slots()[s] == old(self).registry.slots()[s]
                &&& old(data).has_pack() ==> (final(self).registry.value_at(h as int) matches
                    Message::PackRecv(m) && m.rank == old(self).rank && m.tag == tag && m.req
                    is None && !m.done && m.unpack_method.taken().len() == 0 && (m.failed <==> old(
                    data,
                ).pack_prefix().len() > usize::MAX) && (!m.failed ==> m.packed_size as int == old(
                    data,
                ).pack_prefix().len() && m.lens@.map_values(|x: usize| x as int) == old(
                    data,
                ).pack_regions().map_values(|sq: Seq<u8>| sq.len() as int)))
                &&& !old(data).has_pack() ==> (final(self).registry.value_at(h as int) matches
                    Message::ContigRecv(m) && m.rank == old(self).rank && m.tag == tag && m.req
                    is None && m.received is None)
            },
            r is Err ==> *final(self) == *old(self),
    {
        let rank = self.rank;
        match data.unpack() {
            Some(unpacker) => {
                match unpacker {
                    Ok(u) => {
                        let msg = Message::PackRecv(PackRecvMessage::new(u, rank, tag));
                        let h = self.registry.add(msg);
                        proof {
                            self.lemma_wf_after_add(*old(self), h);
                        }
                        Ok(h)
                    },
                    Err(_) => Err(Error::InternalError),
                }
            },
            None => {
                let count = data.count();
                let msg = Message::ContigRecv(ContiguousRecvMessage::new(rank, count, tag));
                let h = self.registry.add(msg);
                proof {
                    self.lemma_wf_after_add(*old(self), h);
                }
                Ok(h)
            },
        }
    }

    /// After an addition of a well-formed message addressing a real peer,
    /// the context is still well formed and still agrees with every
    /// transport it agreed with.
    proof fn lemma_wf_after_add(self, pre: Context, h: usize)
        requires
            pre.wf(),
            self.rank == pre.rank,
            self.size == pre.size,
            self.recv_bytes == pre.recv_bytes,
            self.recv_unpacks == pre.recv_unpacks,
            self.registry.wf(),
            self.registry.occupied(h as int),
            forall|s: int|
                0 <= s < pre.registry.slots().len() && s != h ==> self.registry.slots()[s]
                    == pre.registry.slots()[s],
            self.registry.slots().len() == pre.registry.slots().len() || (h as int
                == pre.registry.slots().len() && self.registry.slots().len()
                == pre.registry.slots().len() + 1),
            self.registry.value_at(h as int).wf(),
            self.registry.value_at(h as int).peer() < self.size,
            self.registry.value_at(h as int).fresh(),
        ensures
            self.wf(),
            forall|t: Transport| pre.wf_with(t) ==> self.wf_with(t),
    {
        assert forall|hh: int| self.registry.occupied(hh) implies (#[trigger] self.registry.value_at(
            hh,
        )).wf() && self.registry.value_at(hh).peer() < self.size by {
            if hh != h {
                assert(0 <= hh < pre.registry.slots().len());
                assert(self.registry.slots()[hh] == pre.registry.slots()[hh]);
                assert(pre.registry.occupied(hh));
                assert(pre.registry.value_at(hh).wf() && pre.registry.value_at(hh).peer()
                    < pre.size);
                assert(self.registry.value_at(hh) == pre.registry.value_at(hh));
            }
        }
        assert forall|t: Transport| pre.wf_with(t) implies self.wf_with(t) by {
            assert forall|hh: int| self.registry.occupied(hh) implies (#[trigger] self.registry.value_at(
                hh,
            )).wf_req(t) by {
                if hh != h {
                    assert(0 <= hh < pre.registry.slots().len());
                    assert(self.registry.slots()[hh] == pre.registry.slots()[hh]);
                    assert(pre.registry.occupied(hh));
                    assert(pre.registry.value_at(hh).wf_req(t));
                    assert(self.registry.value_at(hh) == pre.registry.value_at(hh));
                } else {
                    self.registry.value_at(h as int).lemma_wf_req_fresh(t);
                }
            }
        }
    }

    /// Enroll a non-blocking send of user traffic: the wire tag carries
    /// opcode zero, this rank as the source, and the caller's tag.
    pub fn isend<B: MessageBuffer>(&mut self, data: &B, dest: i32, tag: i32) -> (r: Result<usize>)
        requires
            old(self).wf(),
            0 <= dest < old(self).size,
            old(self).registry.slots().len() < usize::MAX,
        ensures
            final(self).wf(),
            final(self).rank == old(self).rank,
            final(self).size == old(self).size,
            forall|t: Transport| old(self).wf_with(t) ==> final(self).wf_with(t),
            !data.has_pack() ==> r is Ok,
            r is Err ==> *final(self) == *old(self),
            r matches Ok(h) ==> {
                &&& final(self).registry.occupied(h as int)
                &&& !old(self).registry.occupied(h as int)
                &&& forall|s: int|
                    0 <= s < old(self).registry.slots().len() && s != h ==> final(self).registry.slots()[s] == old(self).registry.slots()[s]
                &&& data.has_pack() ==> (final(self).registry.value_at(h as int) matches
                    Message::PackSend(m) && m.dest == dest && m.tag == crate::tag::spec_encode_tag(
                        0,
                        old(self).rank as i32,
                        tag,
                    ) && m.req is None && m.pack_method.prefix() == data.pack_prefix()
                    && m.pack_method.regions() == data.pack_regions())
                &&& !data.has_pack() ==> (final(self).registry.value_at(h as int) matches
                    Message::ContigSend(m) && m.dest == dest && m.tag
                    == crate::tag::spec_encode_tag(0, old(self).rank as i32, tag) && m.req is None
                    && m.payload@ == data.contig())
            },
    {
        let rank = self.rank as i32;
        let wire = encode_tag(0, rank, tag);
        self.internal_isend(data, dest as usize, wire)
    }

    /// Enroll a non-blocking receive of user traffic from a source rank: the
    /// wire tag to match carries opcode zero, the source, and the caller's
    /// tag.
    pub fn irecv<B: MessageBuffer>(&mut self, data: &mut B, source: i32, tag: i32) -> (r: Result<
        usize,
    >)
        requires
            old(self).wf(),
            0 <= source < old(self).size,
            old(self).registry.slots().len() < usize::MAX,
        ensures
            final(self).wf(),
            final(self).rank == old(self).rank,
            final(self).size == old(self).size,
            forall|t: Transport| old(self).wf_with(t) ==> final(self).wf_with(t),
            !old(data).has_pack() ==> r is Ok,
            r is Err ==> *final(self) == *old(self),
            r matches Ok(h) ==> {
                &&& final(self).registry.occupied(h as int)
                &&& !old(self).registry.occupied(h as int)
                &&& forall|s: int|
                    0 <= s < old(self).registry.slots().len() && s != h ==> final(self).registry.slots()[s] == old(self).registry.slots()[s]
                &&& old(data).has_pack() ==> (final(self).registry.value_at(h as int) matches
                    Message::PackRecv(m) && m.rank == old(self).rank && m.tag
                    == crate::tag::spec_encode_tag(0, source, tag) && m.req is None && !m.done
                    && (m.failed <==> old(data).pack_prefix().len() > usize::MAX) && (!m.failed
                    ==> m.packed_size as int == old(data).pack_prefix().len()
                    && m.lens@.map_values(|x: usize| x as int) == old(
                    data,
                ).pack_regions().map_values(|sq: Seq<u8>| sq.len() as int)))
                &&& !old(data).has_pack() ==> (final(self).registry.value_at(h as int) matches
                    Message::ContigRecv(m) && m.rank == old(self).rank && m.tag
                    == crate::tag::spec_encode_tag(0, source, tag) && m.req is None && m.received
                    is None)
            },
    {
        let wire = encode_tag(0, source, tag);
        self.internal_irecv(data, wire)
    }

    /// Pick up the bytes a completed contiguous receive delivered: the first
    /// entry waiting under the handle, if one is, which alone leaves the
    /// list; nothing changes otherwise.
    pub fn take_received(&mut self, h: usize) -> (r: Option<Vec<u8>>)
        requires
            old(self).wf(),
        ensures
            final(self).wf(),
            final(self).rank == old(self).rank,
            final(self).size == old(self).size,
            final(self).registry == old(self).registry,
            final(self).recv_unpacks == old(self).recv_unpacks,
            forall|t: Transport| old(self).wf_with(t) ==> final(self).wf_with(t),
            ({
                let entries = old(self).recv_bytes@;
                let e = spec_entry_at(entries, h);
                &&& (r is Some <==> e < entries.len())
                &&& (r matches Some(bytes) ==> bytes == entries[e].1 && final(self).recv_bytes@
                    == entries.remove(e))
                &&& (r is None ==> *final(self) == *old(self))
            }),
    {
        let ghost entries = self.recv_bytes@;
        let mut k: usize = 0;
        let n = self.recv_bytes.len();
        while k < n
            invariant
                n == self.recv_bytes@.len(),
                k <= n,
                self.wf(),
                *self == *old(self),
                entries == self.recv_bytes@,
                forall|t: int| 0 <= t < k ==> (#[trigger] entries[t]).0 != h,
            decreases n - k,
        {
            if self.recv_bytes[k].0 == h {
                proof {
                    lemma_entry_at_is(entries, h, k as int);
                }
                let (_, bytes) = self.recv_bytes.remove(k);
                return Some(bytes);
            }
            k += 1;
        }
        proof {
            lemma_entry_at(entries, h);
        }
        None
    }

    /// Pick up the unpack method a completed receive finished with: the
    /// first entry waiting under the handle, if one is, which alone leaves
    /// the list; nothing changes otherwise.
    pub fn take_unpacked(&mut self, h: usize) -> (r: Option<UnpackState>)
        requires
            old(self).wf(),
        ensures
            final(self).wf(),
            final(self).rank == old(self).rank,
            final(self).size == old(self).size,
            final(self).registry == old(self).registry,
            final(self).recv_bytes == old(self).recv_bytes,
            forall|t: Transport| old(self).wf_with(t) ==> final(self).wf_with(t),
            ({
                let entries = old(self).recv_unpacks@;
                let e = spec_entry_at(entries, h);
                &&& (r is Some <==> e < entries.len())
                &&& (r matches Some(u) ==> u == entries[e].1 && final(self).recv_unpacks@
                    == entries.remove(e))
                &&& (r is None ==> *final(self) == *old(self))
            }),
    {
        let ghost entries = self.recv_unpacks@;
        let mut k: usize = 0;
        let n = self.recv_unpacks.len();
        while k < n
            invariant
                n == self.recv_unpacks@.len(),
                k <= n,
                self.wf(),
                *self == *old(self),
                entries == self.recv_unpacks@,
                forall|t: int| 0 <= t < k ==> (#[trigger] entries[t]).0 != h,
            decreases n - k,
        {
            if self.recv_unpacks[k].0 == h {
                proof {
                    lemma_entry_at_is(entries, h, k as int);
                }
                let (_, u) = self.recv_unpacks.remove(k);
                return Some(u);
            }
            k += 1;
        }
        proof {
            lemma_entry_at(entries, h);
        }
        None
    }

    /// The context keeps agreeing with the transport while the transport
    /// evolves, whoever drove the evolution.
    pub proof fn lemma_wf_with_evolves(self, pre: Transport, post: Transport)
        requires
            self.wf_with(pre),
            evolves(pre, post),
        ensures
            self.wf_with(post),
    {
        assert forall|h: int| self.registry.occupied(h) implies (#[trigger] self.registry.value_at(
            h,
        )).wf_req(post) by {
            self.registry.value_at(h).lemma_wf_req_evolves(pre, post);
        }
    }

    /// One sweep over the handles: every handle whose status is still in
    /// progress is driven one step; a handle that reaches a terminal status
    /// records it at its own index, salvages any delivered payload into the
    /// pickup lists, and leaves the registry. Statuses already terminal never
    /// change, messages outside the handle list are untouched, the pickup
    /// lists only grow, and a receive that completes leaves a delivery record
    /// under its own handle.
    fn sweep(&mut self, t: &mut Transport, handles: &[usize], statuses: &mut Vec<Status>)
        requires
            old(self).wf(),
            old(self).wf_with(*old(t)),
            old(t).wf(),
            old(statuses)@.len() == handles@.len(),
            forall|a: int, b: int| 0 <= a < b < handles@.len() ==> handles@[a] != handles@[b],
            forall|q: int|
                0 <= q < handles@.len() ==> ((#[trigger] old(statuses)@[q]) is InProgress <==> old(self).registry.occupied(handles@[q] as int)),
        ensures
            final(self).wf(),
            final(self).wf_with(*final(t)),
            final(t).wf(),
            evolves(*old(t), *final(t)),
            final(self).rank == old(self).rank,
            final(self).size == old(self).size,
            final(self).registry.slots().len() == old(self).registry.slots().len(),
            final(statuses)@.len() == handles@.len(),
            final(self).recv_bytes@.len() >= old(self).recv_bytes@.len(),
            forall|k: int|
                0 <= k < old(self).recv_bytes@.len() ==> final(self).recv_bytes@[k] == old(self).recv_bytes@[k],
            final(self).recv_unpacks@.len() >= old(self).recv_unpacks@.len(),
            forall|k: int|
                0 <= k < old(self).recv_unpacks@.len() ==> final(self).recv_unpacks@[k] == old(self).recv_unpacks@[k],
            forall|q: int|
                0 <= q < handles@.len() ==> ((#[trigger] final(statuses)@[q]) is InProgress <==>
                    final(self).registry.occupied(handles@[q] as int)),
            forall|q: int|
                0 <= q < handles@.len() && !((#[trigger] old(statuses)@[q]) is InProgress) ==>
                    final(statuses)@[q] == old(statuses)@[q],
            forall|s: int|
                old(self).registry.occupied(s) && !spec_in_handles(handles@, s) ==> final(self).registry.occupied(s) && final(self).registry.value_at(s) == old(self).registry.value_at(s),
            forall|q: int|
                0 <= q < handles@.len() && final(self).registry.occupied(
                    (#[trigger] handles@[q]) as int,
                ) ==> old(self).registry.occupied(handles@[q] as int)
                    && message_carries(
                    old(self).registry.value_at(handles@[q] as int),
                    final(self).registry.value_at(handles@[q] as int),
                ),
            forall|q: int|
                0 <= q < handles@.len() && (#[trigger] old(statuses)@[q]) is InProgress && final(statuses)@[q] is Complete ==> spec_delivery(
                    old(self).registry.value_at(handles@[q] as int),
                    handles@[q],
                    *final(self),
                    *final(t),
                ),
            forall|r2: int, j2: int|
                0 <= r2 < old(t).spec_size() && 0 <= j2 < final(t).mailbox(r2).len()
                    ==> crate::transport::env_from(
                    crate::transport::mailboxes_view(*old(t)),
                    r2,
                    #[trigger] final(t).mailbox(r2)[j2],
                ) || spec_handle_tagged(*old(self), handles@, (final(t).mailbox(r2)[j2]).0),
            forall|q: int|
                0 <= q < handles@.len() && (#[trigger] old(statuses)@[q]) is InProgress
                    && final(self).registry.occupied(handles@[q] as int) ==> {
                    let m0 = old(self).registry.value_at(handles@[q] as int);
                    let m1 = final(self).registry.value_at(handles@[q] as int);
                    &&& msg_posted(m1)
                    &&& (msg_posted(m0) ==> msg_submitted(m1))
                    &&& ((m0 is ContigSend || m0 is PackSend) ==> !msg_submitted(m0))
                },
            forall|q: int|
                0 <= q < handles@.len() && (#[trigger] old(statuses)@[q]) is InProgress
                    && final(statuses)@[q] is Error ==> spec_msg_fault(
                    old(self).registry.value_at(handles@[q] as int),
                    *final(t),
                ),
            all_submitted_recvs(*old(self), handles@) ==> forall|q: int|
                0 <= q < handles@.len() && final(self).registry.occupied(
                    (#[trigger] handles@[q]) as int,
                ) ==> msg_starved(final(self).registry.value_at(handles@[q] as int), *final(t)),
    {
        proof {
            crate::transport::lemma_env_self(*t);
        }

        let mut j: usize = 0;
        let n = handles.len();
        while j < n
            invariant
                n == handles@.len(),
                j <= n,
                self.wf(),
                self.wf_with(*t),
                t.wf(),
                evolves(*old(t), *t),
                self.rank == old(self).rank,
                self.size == old(self).size,
                self.registry.slots().len() == old(self).registry.slots().len(),
                statuses@.len() == handles@.len(),
                old(statuses)@.len() == handles@.len(),
                self.recv_bytes@.len() >= old(self).recv_bytes@.len(),
                forall|k: int|
                    0 <= k < old(self).recv_bytes@.len() ==> self.recv_bytes@[k] == old(self).recv_bytes@[k],
                self.recv_unpacks@.len() >= old(self).recv_unpacks@.len(),
                forall|k: int|
                    0 <= k < old(self).recv_unpacks@.len() ==> self.recv_unpacks@[k] == old(self).recv_unpacks@[k],
                forall|a: int, b: int| 0 <= a < b < handles@.len() ==> handles@[a] != handles@[b],
                forall|q: int|
                    0 <= q < handles@.len() ==> ((#[trigger] statuses@[q]) is InProgress <==> self
                        .registry.occupied(handles@[q] as int)),
                forall|q: int|
                    0 <= q < handles@.len() && !((#[trigger] old(statuses)@[q]) is InProgress) ==>
                        statuses@[q] == old(statuses)@[q],
                forall|s: int|
                    old(self).registry.occupied(s) && !spec_in_handles(handles@, s) ==> self
                        .registry.occupied(s) && self.registry.value_at(s) == old(self).registry.value_at(s),
                forall|q: int|
                    0 <= q < handles@.len() && self.registry.occupied(
                        (#[trigger] handles@[q]) as int,
                    ) ==> old(self).registry.occupied(handles@[q] as int)
                        && message_carries(
                        old(self).registry.value_at(handles@[q] as int),
                        self.registry.value_at(handles@[q] as int),
                    ),
                forall|q: int|
                    0 <= q < handles@.len() && (#[trigger] old(statuses)@[q]) is InProgress
                        && statuses@[q] is Complete ==> spec_delivery(
                        old(self).registry.value_at(handles@[q] as int),
                        handles@[q],
                        *self,
                        *t,
                    ),
                forall|r2: int, j2: int|
                    0 <= r2 < old(t).spec_size() && 0 <= j2 < t.mailbox(r2).len()
                        ==> crate::transport::env_from(
                        crate::transport::mailboxes_view(*old(t)),
                        r2,
                        #[trigger] t.mailbox(r2)[j2],
                    ) || spec_handle_tagged(*old(self), handles@, (t.mailbox(r2)[j2]).0),
                forall|q: int| j <= q < handles@.len() ==> statuses@[q] == old(statuses)@[q],
                forall|q: int|
                    j <= q < handles@.len() && old(self).registry.occupied(
                        (#[trigger] handles@[q]) as int,
                    ) ==> self.registry.occupied(handles@[q] as int) && self.registry.value_at(
                        handles@[q] as int,
                    ) == old(self).registry.value_at(handles@[q] as int),
                forall|q: int|
                    0 <= q < j && (#[trigger] old(statuses)@[q]) is InProgress && self.registry.occupied(
                        handles@[q] as int,
                    ) ==> {
                        let m0 = old(self).registry.value_at(handles@[q] as int);
                        let m1 = self.registry.value_at(handles@[q] as int);
                        &&& msg_posted(m1)
                        &&& (msg_posted(m0) ==> msg_submitted(m1))
                        &&& ((m0 is ContigSend || m0 is PackSend) ==> !msg_submitted(m0))
                    },
                forall|q: int|
                    0 <= q < j && (#[trigger] old(statuses)@[q]) is InProgress && statuses@[q]
                        is Error ==> spec_msg_fault(
                        old(self).registry.value_at(handles@[q] as int),
                        *t,
                    ),
                all_submitted_recvs(*old(self), handles@) ==> forall|q: int|
                    0 <= q < j && self.registry.occupied((#[trigger] handles@[q]) as int)
                        ==> msg_starved(self.registry.value_at(handles@[q] as int), *t),
            decreases n - j,
        {
            let h = handles[j];
            let inprog = statuses[j].is_in_progress();
            if inprog {
                proof {
                    if self.registry.in_free(h as int) {
                        let idx = choose|i: int|
                            0 <= i < self.registry.free().len() && self.registry.free()[i] == h;
                        assert(self.registry.slots()[h as int] is None);
                    }
                }
                let ghost iter_pre = *self;
                let ghost ctx_pre = *self;
                let ghost st_iter_pre = statuses@;
                let ghost entry_msg = old(self).registry.value_at(h as int);
                let mut msg = self.registry.take(h);
                let ghost taken_msg = msg;
                let ghost tpre = *t;
                let st = msg.progress(t);
                let ghost gmsg = msg;
                proof {
                    lemma_evolves_trans(*old(t), tpre, *t);
                    assert forall|hh: int| self.registry.occupied(hh) implies (#[trigger] self.registry.value_at(
                        hh,
                    )).wf_req(*t) by {
                        assert(ctx_pre.registry.value_at(hh).wf_req(tpre));
                        ctx_pre.registry.value_at(hh).lemma_wf_req_evolves(tpre, *t);
                    }
                    assert forall|r2: int, j2: int|
                        0 <= r2 < old(t).spec_size() && 0 <= j2 < t.mailbox(r2).len()
                            implies crate::transport::env_from(
                        crate::transport::mailboxes_view(*old(t)),
                        r2,
                        #[trigger] t.mailbox(r2)[j2],
                    ) || spec_handle_tagged(*old(self), handles@, (t.mailbox(r2)[j2]).0) by {
                        let e = t.mailbox(r2)[j2];
                        if crate::transport::env_from(
                            crate::transport::mailboxes_view(tpre),
                            r2,
                            e,
                        ) {
                            let u = choose|u: int|
                                0 <= u < crate::transport::mailboxes_view(tpre)[r2].len()
                                    && crate::transport::mailboxes_view(tpre)[r2][u] == e;
                            assert(tpre.mailbox(r2)[u] == e);
                        } else {
                            assert(e.0 == taken_msg.wire_tag());
                            assert(old(self).registry.occupied(h as int));
                            assert(old(self).registry.value_at(h as int).wire_tag()
                                == taken_msg.wire_tag());
                            assert(handles@[j as int] == h);
                            assert(spec_handle_tagged(*old(self), handles@, e.0));
                        }
                    }
                    // Delivery records made so far survive this step.
                    assert forall|q: int|
                        0 <= q < handles@.len() && (#[trigger] old(statuses)@[q]) is InProgress
                            && statuses@[q] is Complete implies spec_delivery(
                        old(self).registry.value_at(handles@[q] as int),
                        handles@[q],
                        *self,
                        *t,
                    ) by {
                        lemma_delivery_stable(
                            old(self).registry.value_at(handles@[q] as int),
                            handles@[q],
                            iter_pre,
                            *self,
                            tpre,
                            *t,
                        );
                    }
                }
                let terminal = st.is_terminal();
                if terminal {
                    let ghost lists_pre = *self;
                    match msg {
                        Message::ContigRecv(m) => {
                            match m.received {
                                Some(bytes) => {
                                    self.recv_bytes.push((h, bytes));
                                    proof {
                                        if st is Complete {
                                            let m1 = gmsg->ContigRecv_0;
                                            let rq = m1.req->0 as int;
                                            let k = self.recv_bytes@.len() - 1;
                                            assert(gmsg.wf_req(*t));
                                            assert(self.recv_bytes@[k].0 == h);
                                            assert(self.recv_bytes@[k].1@ == t.reqs()[
                                                rq]->RecvDone_payload);
                                            assert(spec_matches(
                                                entry_msg.wire_tag(),
                                                TAG_MASK,
                                                t.reqs()[rq]->RecvDone_sender_tag,
                                            ));
                                            assert(spec_delivered_bytes(
                                                self.recv_bytes@,
                                                h,
                                                entry_msg.wire_tag(),
                                                *t,
                                            ));
                                        }
                                    }
                                },
                                None => {
                                    proof {
                                        if st is Complete {
                                            assert(false);
                                        }
                                    }
                                },
                            }
                        },
                        Message::PackRecv(m) => {
                            self.recv_unpacks.push((h, m.unpack_method));
                            proof {
                                let p0 = taken_msg->PackRecv_0;
                                let p1 = gmsg->PackRecv_0;
                                if st is Complete && !p0.done && !p0.failed {
                                    let rq = p1.req->0 as int;
                                    let k = self.recv_unpacks@.len() - 1;
                                    assert(gmsg.wf());
                                    assert(gmsg.wf_req(*t));
                                    assert(self.recv_unpacks@[k].0 == h);
                                    assert(self.recv_unpacks@[k].1 == p1.unpack_method);
                                    assert(p1.unpack_method.spec_packed_size() == p0.packed_size
                                        as int);
                                    assert(self.recv_unpacks@[k].1.taken() == t.reqs()[
                                        rq]->RecvDone_payload.take(
                                        self.recv_unpacks@[k].1.spec_packed_size(),
                                    ));
                                    assert(spec_matches(
                                        entry_msg.wire_tag(),
                                        TAG_MASK,
                                        t.reqs()[rq]->RecvDone_sender_tag,
                                    ));
                                    assert(spec_delivered_unpack(
                                        self.recv_unpacks@,
                                        h,
                                        entry_msg.wire_tag(),
                                        *t,
                                    ));
                                }
                            }
                        },
                        _ => {},
                    }
                    self.registry.release(h);
                    statuses[j] = st;
                    proof {
                        assert(spec_in_handles(handles@, h as int)) by {
                            assert(handles@[j as int] == h);
                        }
                        if st is Complete {
                            assert(message_carries(entry_msg, taken_msg));
                            assert(spec_delivery(entry_msg, h, *self, *t));
                        }
                        assert forall|q: int|
                            0 <= q < handles@.len() && (#[trigger] old(statuses)@[q]) is InProgress && statuses@[q] is Complete && q != j as int implies spec_delivery(
                            old(self).registry.value_at(handles@[q] as int),
                            handles@[q],
                            *self,
                            *t,
                        ) by {
                            lemma_delivery_stable(
                                old(self).registry.value_at(handles@[q] as int),
                                handles@[q],
                                lists_pre,
                                *self,
                                *t,
                                *t,
                            );
                        }
                    }
                } else {
                    self.registry.put(h, msg);
                    proof {
                        assert(spec_in_handles(handles@, h as int)) by {
                            assert(handles@[j as int] == h);
                        }
                    }
                }
                proof {
                    assert forall|hh: int| self.registry.occupied(hh) implies (#[trigger] self.registry.value_at(
                        hh,
                    )).wf() && self.registry.value_at(hh).peer() < self.size by {
                        if hh != h as int {
                            assert(self.registry.slots()[hh] == iter_pre.registry.slots()[hh]);
                            assert(iter_pre.registry.occupied(hh));
                            assert(iter_pre.registry.value_at(hh).wf()
                                && iter_pre.registry.value_at(hh).peer() < iter_pre.size);
                        } else {
                            assert(self.registry.value_at(hh) == gmsg);
                            assert(gmsg.wf());
                            assert(gmsg.peer() == iter_pre.registry.value_at(h as int).peer());
                            assert(iter_pre.registry.value_at(h as int).peer() < self.size);
                        }
                    }
                    assert forall|hh: int| self.registry.occupied(hh) implies (#[trigger] self.registry.value_at(
                        hh,
                    )).wf_req(*t) by {
                        if hh != h as int {
                            assert(self.registry.slots()[hh] == iter_pre.registry.slots()[hh]);
                            assert(iter_pre.registry.occupied(hh));
                            assert(iter_pre.registry.value_at(hh).wf_req(tpre));
                            iter_pre.registry.value_at(hh).lemma_wf_req_evolves(tpre, *t);
                        } else {
                            assert(self.registry.value_at(hh) == gmsg);
                            assert(gmsg.wf_req(*t));
                        }
                    }
                    assert forall|q: int|
                        0 <= q < handles@.len() implies ((#[trigger] statuses@[q]) is InProgress
                        <==> self.registry.occupied(handles@[q] as int)) by {
                        if q != j as int {
                            if q < j as int {
                                assert(handles@[q] != handles@[j as int]);
                            } else {
                                assert(handles@[j as int] != handles@[q]);
                            }
                            assert(self.registry.slots().len()
                                == iter_pre.registry.slots().len());
                            if (handles@[q] as int) < iter_pre.registry.slots().len() {
                                assert(self.registry.slots()[handles@[q] as int]
                                    == iter_pre.registry.slots()[handles@[q] as int]);
                            }
                        }
                    }
                    assert forall|s: int|
                        old(self).registry.occupied(s) && !spec_in_handles(handles@, s) implies self
                        .registry.occupied(s) && self.registry.value_at(s) == old(self).registry.value_at(s) by {
                        assert(s != h as int);
                        assert(self.registry.slots()[s] == iter_pre.registry.slots()[s]);
                    }
                    assert forall|q: int|
                        0 <= q < handles@.len() && self.registry.occupied(
                            (#[trigger] handles@[q]) as int,
                        ) implies old(self).registry.occupied(handles@[q] as int)
                        && message_carries(
                        old(self).registry.value_at(handles@[q] as int),
                        self.registry.value_at(handles@[q] as int),
                    ) by {
                        if q != j as int {
                            if q < j as int {
                                assert(handles@[q] != handles@[j as int]);
                            } else {
                                assert(handles@[j as int] != handles@[q]);
                            }
                            if (handles@[q] as int) < iter_pre.registry.slots().len() {
                                assert(self.registry.slots()[handles@[q] as int]
                                    == iter_pre.registry.slots()[handles@[q] as int]);
                            }
                        } else {
                            assert(self.registry.value_at(h as int) == gmsg);
                            assert(message_carries(entry_msg, taken_msg));
                        }
                    }
                }
                proof {
                    let hq = h as int;
                    assert(taken_msg == entry_msg) by {
                        assert(old(self).registry.occupied(handles@[j as int] as int));
                    }
                    assert(old(statuses)@[j as int] is InProgress);
                    assert forall|q: int|
                        j + 1 <= q < handles@.len() && old(self).registry.occupied(
                            (#[trigger] handles@[q]) as int,
                        ) implies self.registry.occupied(handles@[q] as int)
                        && self.registry.value_at(handles@[q] as int)
                        == old(self).registry.value_at(handles@[q] as int) by {
                        assert(handles@[j as int] != handles@[q]);
                        assert(self.registry.slots()[handles@[q] as int]
                            == iter_pre.registry.slots()[handles@[q] as int]);
                    }
                    assert forall|q: int|
                        0 <= q < j + 1 && (#[trigger] old(statuses)@[q]) is InProgress
                            && self.registry.occupied(handles@[q] as int) implies {
                        let m0 = old(self).registry.value_at(handles@[q] as int);
                        let m1 = self.registry.value_at(handles@[q] as int);
                        &&& msg_posted(m1)
                        &&& (msg_posted(m0) ==> msg_submitted(m1))
                        &&& ((m0 is ContigSend || m0 is PackSend) ==> !msg_submitted(m0))
                    } by {
                        if q == j as int {
                            assert(self.registry.value_at(hq) == gmsg);
                            assert(st is InProgress);
                            assert(msg_posted(gmsg));
                            if (entry_msg is ContigSend || entry_msg is PackSend)
                                && msg_submitted(entry_msg) {
                                assert(!(st is InProgress));
                            }
                        } else {
                            if q < j as int {
                                assert(handles@[q] != handles@[j as int]);
                            }
                            assert(self.registry.slots()[handles@[q] as int]
                                == iter_pre.registry.slots()[handles@[q] as int]);
                        }
                    }
                    assert forall|q: int|
                        0 <= q < j + 1 && (#[trigger] old(statuses)@[q]) is InProgress
                            && statuses@[q] is Error implies spec_msg_fault(
                        old(self).registry.value_at(handles@[q] as int),
                        *t,
                    ) by {
                        if q == j as int {
                            assert(statuses@[q] == st);
                            assert(spec_msg_fault(taken_msg, *t));
                        } else {
                            if q < j as int {
                                assert(handles@[q] != handles@[j as int]);
                            }
                            assert(statuses@[q] == st_iter_pre[q]);
                            lemma_msg_fault_evolves(
                                old(self).registry.value_at(handles@[q] as int),
                                tpre,
                                *t,
                            );
                        }
                    }
                    if all_submitted_recvs(*old(self), handles@) {
                        assert forall|q: int|
                            0 <= q < j + 1 && self.registry.occupied(
                                (#[trigger] handles@[q]) as int,
                            ) implies msg_starved(
                            self.registry.value_at(handles@[q] as int),
                            *t,
                        ) by {
                            if q == j as int {
                                assert(self.registry.value_at(hq) == gmsg);
                                assert(st is InProgress);
                                assert(old(self).registry.occupied(handles@[j as int] as int));
                                assert(entry_msg == old(self).registry.value_at(
                                    handles@[j as int] as int,
                                ));
                                assert((entry_msg is PackRecv || entry_msg is ContigRecv)
                                    && msg_submitted(entry_msg));
                                assert(msg_starved(gmsg, *t));
                            } else {
                                if q < j as int {
                                    assert(handles@[q] != handles@[j as int]);
                                }
                                assert(self.registry.slots()[handles@[q] as int]
                                    == iter_pre.registry.slots()[handles@[q] as int]);
                                assert(iter_pre.registry.occupied(handles@[q] as int));
                                assert(msg_starved(
                                    iter_pre.registry.value_at(handles@[q] as int),
                                    tpre,
                                ));
                                assert(taken_msg is PackRecv || taken_msg is ContigRecv) by {
                                    assert(old(self).registry.occupied(
                                        handles@[j as int] as int,
                                    ));
                                }
                                assert(crate::transport::keeps_starved(tpre, *t));
                                assert(t.reqs().len() >= tpre.reqs().len());
                                lemma_msg_starved_keeps(
                                    iter_pre.registry.value_at(handles@[q] as int),
                                    tpre,
                                    *t,
                                );
                            }
                        }
                    }
                }
            }
            j += 1;
        }
    }

    /// Whether every status is terminal.
    fn all_done(statuses: &Vec<Status>) -> (r: bool)
        ensures
            r <==> forall|q: int|
                0 <= q < statuses@.len() ==> !((#[trigger] statuses@[q]) is InProgress),
    {
        let mut k: usize = 0;
        let n = statuses.len();
        while k < n
            invariant
                n == statuses@.len(),
                k <= n,
                forall|q: int| 0 <= q < k ==> !((#[trigger] statuses@[q]) is InProgress),
            decreases n - k,
        {
            if statuses[k].is_in_progress() {
                return false;
            }
            k += 1;
        }
        true
    }

    /// Wait for every handle to reach a terminal status, and report one per
    /// handle, at the index the handle holds in the caller's list, whatever
    /// order completions happen in. The call always succeeds: every handle's
    /// message leaves the registry, messages outside the list are untouched,
    /// and an empty list succeeds at once. Every receive reported complete
    /// leaves its delivery record — the matched submission's bytes, under the
    /// receive's own handle and tag — in the pickup lists. A status is
    /// erroneous only for a cause the contract names: a datatype fault, a
    /// payload too large for the address space, a truncated or mismatched
    /// submission — or a receive that is starved, no envelope in flight
    /// towards this rank carrying a tag that matches it. The call sweeps all
    /// handles, progressing the transport once per sweep, until only starved
    /// receives remain; those are then reported erroneous rather than spun on
    /// forever, and the starvation clause is checked against the transport as
    /// the call leaves it.
    pub fn waitall(&mut self, t: &mut Transport, handles: &[usize]) -> (r: Result<Vec<Status>>)
        requires
            old(self).wf(),
            old(self).wf_with(*old(t)),
            old(t).wf(),
            forall|a: int, b: int| 0 <= a < b < handles@.len() ==> handles@[a] != handles@[b],
            forall|i: int|
                0 <= i < handles@.len() ==> old(self).registry.occupied(
                    (#[trigger] handles@[i]) as int,
                ),
        ensures
            final(self).wf(),
            final(self).wf_with(*final(t)),
            final(t).wf(),
            evolves(*old(t), *final(t)),
            final(self).rank == old(self).rank,
            final(self).size == old(self).size,
            final(self).registry.slots().len() == old(self).registry.slots().len(),
            r is Ok,
            r matches Ok(sts) ==> {
                &&& sts@.len() == handles@.len()
                &&& forall|q: int|
                    0 <= q < sts@.len() ==> !((#[trigger] sts@[q]) is InProgress)
                &&& forall|i: int|
                    0 <= i < handles@.len() ==> !final(self).registry.occupied(
                        (#[trigger] handles@[i]) as int,
                    )
                &&& forall|i: int|
                    0 <= i < handles@.len() && (#[trigger] sts@[i]) is Complete ==> spec_delivery(
                        old(self).registry.value_at(handles@[i] as int),
                        handles@[i],
                        *final(self),
                        *final(t),
                    )
                &&& forall|i: int|
                    0 <= i < handles@.len() && (#[trigger] sts@[i]) is Error ==> (spec_msg_fault(
                        old(self).registry.value_at(handles@[i] as int),
                        *final(t),
                    ) || spec_msg_stalled(
                        old(self).registry.value_at(handles@[i] as int),
                        *final(t),
                    ))
            },
            forall|s: int|
                old(self).registry.occupied(s) && !spec_in_handles(handles@, s) ==> final(self).registry.occupied(s) && final(self).registry.value_at(s) == old(self).registry.value_at(s),
            final(self).recv_bytes@.len() >= old(self).recv_bytes@.len(),
            forall|k: int|
                0 <= k < old(self).recv_bytes@.len() ==> final(self).recv_bytes@[k] == old(self).recv_bytes@[k],
            final(self).recv_unpacks@.len() >= old(self).recv_unpacks@.len(),
            forall|k: int|
                0 <= k < old(self).recv_unpacks@.len() ==> final(self).recv_unpacks@[k] == old(self).recv_unpacks@[k],
            forall|r2: int, j2: int|
                0 <= r2 < old(t).spec_size() && 0 <= j2 < final(t).mailbox(r2).len()
                    ==> crate::transport::env_from(
                    crate::transport::mailboxes_view(*old(t)),
                    r2,
                    #[trigger] final(t).mailbox(r2)[j2],
                ) || spec_handle_tagged(*old(self), handles@, (final(t).mailbox(r2)[j2]).0),
    {
        let mut statuses: Vec<Status> = Vec::new();
        let mut k: usize = 0;
        let n = handles.len();
        while k < n
            invariant
                n == handles@.len(),
                k <= n,
                statuses@.len() == k,
                forall|q: int| 0 <= q < k ==> (#[trigger] statuses@[q]) is InProgress,
            decreases n - k,
        {
            statuses.push(Status::InProgress);
            k += 1;
        }
        proof {
            crate::transport::lemma_env_self(*t);
        }
        let mut done = Context::all_done(&statuses);
        let mut rounds: usize = if n <= usize::MAX - 8 {
            n + 8
        } else {
            n
        };
        let ghost rounds0 = rounds as int;
        let ghost mut swept: int = 0;
        while !done && rounds > 0
            invariant
                self.wf(),
                self.wf_with(*t),
                t.wf(),
                evolves(*old(t), *t),
                self.rank == old(self).rank,
                self.size == old(self).size,
                self.registry.slots().len() == old(self).registry.slots().len(),
                n == handles@.len(),
                statuses@.len() == handles@.len(),
                rounds0 >= 8,
                swept >= 0,
                rounds as int + swept == rounds0,
                forall|i: int|
                    0 <= i < handles@.len() ==> old(self).registry.occupied(
                        (#[trigger] handles@[i]) as int,
                    ),
                forall|a: int, b: int| 0 <= a < b < handles@.len() ==> handles@[a] != handles@[b],
                forall|q: int|
                    0 <= q < handles@.len() ==> ((#[trigger] statuses@[q]) is InProgress <==> self
                        .registry.occupied(handles@[q] as int)),
                forall|s: int|
                    old(self).registry.occupied(s) && !spec_in_handles(handles@, s) ==> self
                        .registry.occupied(s) && self.registry.value_at(s) == old(self).registry.value_at(s),
                forall|q: int|
                    0 <= q < handles@.len() && self.registry.occupied(
                        (#[trigger] handles@[q]) as int,
                    ) ==> message_carries(
                        old(self).registry.value_at(handles@[q] as int),
                        self.registry.value_at(handles@[q] as int),
                    ),
                forall|q: int|
                    0 <= q < handles@.len() && (#[trigger] statuses@[q]) is Complete ==>
                        spec_delivery(
                        old(self).registry.value_at(handles@[q] as int),
                        handles@[q],
                        *self,
                        *t,
                    ),
                forall|q: int|
                    0 <= q < handles@.len() && (#[trigger] statuses@[q]) is Error ==>
                        spec_msg_fault(old(self).registry.value_at(handles@[q] as int), *t),
                swept >= 1 ==> forall|q: int|
                    0 <= q < handles@.len() && self.registry.occupied(
                        (#[trigger] handles@[q]) as int,
                    ) ==> msg_posted(self.registry.value_at(handles@[q] as int)),
                swept >= 2 ==> forall|q: int|
                    0 <= q < handles@.len() && self.registry.occupied(
                        (#[trigger] handles@[q]) as int,
                    ) ==> msg_submitted(self.registry.value_at(handles@[q] as int)),
                swept >= 3 ==> forall|q: int|
                    0 <= q < handles@.len() && self.registry.occupied(
                        (#[trigger] handles@[q]) as int,
                    ) ==> (self.registry.value_at(handles@[q] as int) is PackRecv || self.registry.value_at(
                        handles@[q] as int,
                    ) is ContigRecv),
                done ==> forall|q: int|
                    0 <= q < statuses@.len() ==> !((#[trigger] statuses@[q]) is InProgress),
                self.recv_bytes@.len() >= old(self).recv_bytes@.len(),
                forall|k: int|
                    0 <= k < old(self).recv_bytes@.len() ==> self.recv_bytes@[k] == old(self).recv_bytes@[k],
                self.recv_unpacks@.len() >= old(self).recv_unpacks@.len(),
                forall|k: int|
                    0 <= k < old(self).recv_unpacks@.len() ==> self.recv_unpacks@[k] == old(self).recv_unpacks@[k],
                forall|r2: int, j2: int|
                    0 <= r2 < old(t).spec_size() && 0 <= j2 < t.mailbox(r2).len()
                        ==> crate::transport::env_from(
                        crate::transport::mailboxes_view(*old(t)),
                        r2,
                        #[trigger] t.mailbox(r2)[j2],
                    ) || spec_handle_tagged(*old(self), handles@, (t.mailbox(r2)[j2]).0),
            decreases rounds,
        {
            let ghost ctx_pre = *self;
            let ghost st_pre = statuses@;
            let ghost t_pre = *t;
            self.sweep(t, handles, &mut statuses);
            let ghost ctx_mid = *self;
            let ghost t_mid = *t;
            t.progress();
            proof {
                assert(evolves(t_mid, *t));
                lemma_evolves_trans(t_pre, t_mid, *t);
                lemma_evolves_trans(*old(t), t_pre, *t);
                self.lemma_wf_with_evolves(t_mid, *t);
                // Each still-registered handle still carries its entry
                // message's kind, tag and flags.
                assert forall|q: int|
                    0 <= q < handles@.len() && self.registry.occupied(
                        (#[trigger] handles@[q]) as int,
                    ) implies message_carries(
                    old(self).registry.value_at(handles@[q] as int),
                    self.registry.value_at(handles@[q] as int),
                ) by {
                    assert(ctx_pre.registry.occupied(handles@[q] as int));
                    assert(message_carries(
                        ctx_pre.registry.value_at(handles@[q] as int),
                        self.registry.value_at(handles@[q] as int),
                    ));
                    assert(message_carries(
                        old(self).registry.value_at(handles@[q] as int),
                        ctx_pre.registry.value_at(handles@[q] as int),
                    ));
                }
                // Every completed handle has its delivery record, old and
                // new alike.
                assert forall|q: int|
                    0 <= q < handles@.len() && (#[trigger] statuses@[q]) is Complete implies
                    spec_delivery(
                    old(self).registry.value_at(handles@[q] as int),
                    handles@[q],
                    *self,
                    *t,
                ) by {
                    if st_pre[q] is InProgress {
                        // Settled in this sweep: the sweep's record, carried
                        // to the progressed transport.
                        assert(spec_delivery(
                            ctx_pre.registry.value_at(handles@[q] as int),
                            handles@[q],
                            ctx_mid,
                            t_mid,
                        ));
                        assert(ctx_pre.registry.value_at(handles@[q] as int).wire_tag() == old(
                            self,
                        ).registry.value_at(handles@[q] as int).wire_tag());
                        lemma_delivery_carries(
                            old(self).registry.value_at(handles@[q] as int),
                            ctx_pre.registry.value_at(handles@[q] as int),
                            handles@[q],
                            ctx_mid,
                            t_mid,
                        );
                        lemma_delivery_stable(
                            old(self).registry.value_at(handles@[q] as int),
                            handles@[q],
                            ctx_mid,
                            *self,
                            t_mid,
                            *t,
                        );
                    } else {
                        assert(statuses@[q] == st_pre[q]);
                        lemma_delivery_stable(
                            old(self).registry.value_at(handles@[q] as int),
                            handles@[q],
                            ctx_pre,
                            *self,
                            t_pre,
                            *t,
                        );
                    }
                }
                // An erroneous status always has a named fault behind it.
                assert forall|q: int|
                    0 <= q < handles@.len() && (#[trigger] statuses@[q]) is Error implies
                    spec_msg_fault(old(self).registry.value_at(handles@[q] as int), *t) by {
                    if st_pre[q] is InProgress {
                        assert(spec_msg_fault(
                            ctx_pre.registry.value_at(handles@[q] as int),
                            t_mid,
                        ));
                        lemma_fault_carries(
                            old(self).registry.value_at(handles@[q] as int),
                            ctx_pre.registry.value_at(handles@[q] as int),
                            t_mid,
                        );
                        lemma_msg_fault_evolves(
                            old(self).registry.value_at(handles@[q] as int),
                            t_mid,
                            *t,
                        );
                    } else {
                        assert(statuses@[q] == st_pre[q]);
                        lemma_msg_fault_evolves(
                            old(self).registry.value_at(handles@[q] as int),
                            t_pre,
                            *t,
                        );
                    }
                }
                // Stage bookkeeping: each sweep advances every surviving
                // message; after three, only submitted receives remain.
                assert forall|q: int|
                    0 <= q < handles@.len() && self.registry.occupied(
                        (#[trigger] handles@[q]) as int,
                    ) implies {
                    let m0 = ctx_pre.registry.value_at(handles@[q] as int);
                    let m1 = self.registry.value_at(handles@[q] as int);
                    &&& msg_posted(m1)
                    &&& (msg_posted(m0) ==> msg_submitted(m1))
                    &&& ((m0 is ContigSend || m0 is PackSend) ==> !msg_submitted(m0))
                } by {
                    assert(statuses@[q] is InProgress);
                    assert(st_pre[q] is InProgress);
                }
                // New envelopes always trace to a listed handle's own tag.
                assert forall|r2: int, j2: int|
                    0 <= r2 < old(t).spec_size() && 0 <= j2 < t.mailbox(r2).len()
                        implies crate::transport::env_from(
                    crate::transport::mailboxes_view(*old(t)),
                    r2,
                    #[trigger] t.mailbox(r2)[j2],
                ) || spec_handle_tagged(*old(self), handles@, (t.mailbox(r2)[j2]).0) by {
                    let e = t.mailbox(r2)[j2];
                    assert(crate::transport::env_from(
                        crate::transport::mailboxes_view(t_mid),
                        r2,
                        e,
                    ));
                    let u = choose|u: int|
                        0 <= u < crate::transport::mailboxes_view(t_mid)[r2].len()
                            && crate::transport::mailboxes_view(t_mid)[r2][u] == e;
                    assert(t_mid.mailbox(r2)[u] == e);
                    if !crate::transport::env_from(
                        crate::transport::mailboxes_view(t_pre),
                        r2,
                        e,
                    ) {
                        assert(spec_handle_tagged(ctx_pre, handles@, e.0));
                        let q = choose|q: int|
                            0 <= q < handles@.len() && ctx_pre.registry.occupied(
                                handles@[q] as int,
                            ) && ctx_pre.registry.value_at(handles@[q] as int).wire_tag() == e.0;
                        assert(0 <= q < handles@.len());
                        let hv = handles@[q];
                        assert(old(self).registry.occupied(hv as int));
                        assert(message_carries(
                            old(self).registry.value_at(handles@[q] as int),
                            ctx_pre.registry.value_at(handles@[q] as int),
                        ));
                        assert(old(self).registry.value_at(handles@[q] as int).wire_tag() == e.0);
                        assert(spec_handle_tagged(*old(self), handles@, e.0));
                    } else {
                        let u2 = choose|u2: int|
                            0 <= u2 < crate::transport::mailboxes_view(t_pre)[r2].len()
                                && crate::transport::mailboxes_view(t_pre)[r2][u2] == e;
                        assert(t_pre.mailbox(r2)[u2] == e);
                    }
                }
            }
            done = Context::all_done(&statuses);
            rounds = rounds - 1;
            proof {
                swept = swept + 1;
            }
        }
        if !done {
            // Only starved receives can remain: sends complete within three
            // sweeps once their staging is done, and a receive that a sweep
            // leaves pending after the transport's matching pass has no
            // matching envelope in flight. One more sweep certifies that for
            // every survivor, which is then reported erroneous rather than
            // spun on forever.
            let ghost ctx_pre = *self;
            let ghost st_pre = statuses@;
            let ghost t_pre = *t;
            proof {
                assert(all_submitted_recvs(*self, handles@));
            }
            self.sweep(t, handles, &mut statuses);
            proof {
                lemma_evolves_trans(*old(t), t_pre, *t);
                assert forall|q: int|
                    0 <= q < handles@.len() && self.registry.occupied(
                        (#[trigger] handles@[q]) as int,
                    ) implies message_carries(
                    old(self).registry.value_at(handles@[q] as int),
                    self.registry.value_at(handles@[q] as int),
                ) && msg_starved(self.registry.value_at(handles@[q] as int), *t) by {
                    assert(ctx_pre.registry.occupied(handles@[q] as int));
                    assert(message_carries(
                        old(self).registry.value_at(handles@[q] as int),
                        ctx_pre.registry.value_at(handles@[q] as int),
                    ));
                }
                assert forall|q: int|
                    0 <= q < handles@.len() && (#[trigger] statuses@[q]) is Complete implies
                    spec_delivery(
                    old(self).registry.value_at(handles@[q] as int),
                    handles@[q],
                    *self,
                    *t,
                ) by {
                    if st_pre[q] is InProgress {
                        lemma_delivery_carries(
                            old(self).registry.value_at(handles@[q] as int),
                            ctx_pre.registry.value_at(handles@[q] as int),
                            handles@[q],
                            *self,
                            *t,
                        );
                    } else {
                        assert(statuses@[q] == st_pre[q]);
                        lemma_delivery_stable(
                            old(self).registry.value_at(handles@[q] as int),
                            handles@[q],
                            ctx_pre,
                            *self,
                            t_pre,
                            *t,
                        );
                    }
                }
                assert forall|q: int|
                    0 <= q < handles@.len() && (#[trigger] statuses@[q]) is Error implies
                    spec_msg_fault(old(self).registry.value_at(handles@[q] as int), *t) by {
                    if st_pre[q] is InProgress {
                        lemma_fault_carries(
                            old(self).registry.value_at(handles@[q] as int),
                            ctx_pre.registry.value_at(handles@[q] as int),
                            *t,
                        );
                    } else {
                        assert(statuses@[q] == st_pre[q]);
                        lemma_msg_fault_evolves(
                            old(self).registry.value_at(handles@[q] as int),
                            t_pre,
                            *t,
                        );
                    }
                }
                assert forall|r2: int, j2: int|
                    0 <= r2 < old(t).spec_size() && 0 <= j2 < t.mailbox(r2).len()
                        implies crate::transport::env_from(
                    crate::transport::mailboxes_view(*old(t)),
                    r2,
                    #[trigger] t.mailbox(r2)[j2],
                ) || spec_handle_tagged(*old(self), handles@, (t.mailbox(r2)[j2]).0) by {
                    let e = t.mailbox(r2)[j2];
                    if !crate::transport::env_from(
                        crate::transport::mailboxes_view(t_pre),
                        r2,
                        e,
                    ) {
                        assert(spec_handle_tagged(ctx_pre, handles@, e.0));
                        let q = choose|q: int|
                            0 <= q < handles@.len() && ctx_pre.registry.occupied(
                                handles@[q] as int,
                            ) && ctx_pre.registry.value_at(handles@[q] as int).wire_tag() == e.0;
                        assert(0 <= q < handles@.len());
                        let hv = handles@[q];
                        assert(old(self).registry.occupied(hv as int));
                        assert(message_carries(
                            old(self).registry.value_at(handles@[q] as int),
                            ctx_pre.registry.value_at(handles@[q] as int),
                        ));
                        assert(old(self).registry.value_at(handles@[q] as int).wire_tag() == e.0);
                        assert(spec_handle_tagged(*old(self), handles@, e.0));
                    } else {
                        let u2 = choose|u2: int|
                            0 <= u2 < crate::transport::mailboxes_view(t_pre)[r2].len()
                                && crate::transport::mailboxes_view(t_pre)[r2][u2] == e;
                        assert(t_pre.mailbox(r2)[u2] == e);
                    }
                }
            }
            let mut k2: usize = 0;
            while k2 < n
                invariant
                    n == handles@.len(),
                    k2 <= n,
                    statuses@.len() == n,
                    self.wf(),
                    self.wf_with(*t),
                    t.wf(),
                    evolves(*old(t), *t),
                    self.rank == old(self).rank,
                    self.size == old(self).size,
                    self.registry.slots().len() == old(self).registry.slots().len(),
                    forall|a: int, b: int|
                        0 <= a < b < handles@.len() ==> handles@[a] != handles@[b],
                    forall|q: int| 0 <= q < k2 ==> !((#[trigger] statuses@[q]) is InProgress),
                    forall|q: int|
                        0 <= q < handles@.len() ==> ((#[trigger] statuses@[q]) is InProgress <==>
                            self.registry.occupied(handles@[q] as int)),
                    forall|s: int|
                        old(self).registry.occupied(s) && !spec_in_handles(handles@, s) ==> self
                            .registry.occupied(s) && self.registry.value_at(s) == old(self).registry.value_at(s),
                    forall|q: int|
                        0 <= q < handles@.len() && self.registry.occupied(
                            (#[trigger] handles@[q]) as int,
                        ) ==> message_carries(
                            old(self).registry.value_at(handles@[q] as int),
                            self.registry.value_at(handles@[q] as int),
                        ) && msg_starved(self.registry.value_at(handles@[q] as int), *t),
                    forall|q: int|
                        0 <= q < handles@.len() && (#[trigger] statuses@[q]) is Complete ==>
                            spec_delivery(
                            old(self).registry.value_at(handles@[q] as int),
                            handles@[q],
                            *self,
                            *t,
                        ),
                    forall|q: int|
                        0 <= q < handles@.len() && (#[trigger] statuses@[q]) is Error ==> (
                        spec_msg_fault(old(self).registry.value_at(handles@[q] as int), *t)
                            || spec_msg_stalled(
                            old(self).registry.value_at(handles@[q] as int),
                            *t,
                        )),
                    self.recv_bytes@.len() >= old(self).recv_bytes@.len(),
                    forall|k: int|
                        0 <= k < old(self).recv_bytes@.len() ==> self.recv_bytes@[k] == old(self).recv_bytes@[k],
                    self.recv_unpacks@.len() >= old(self).recv_unpacks@.len(),
                    forall|k: int|
                        0 <= k < old(self).recv_unpacks@.len() ==> self.recv_unpacks@[k] == old(self).recv_unpacks@[k],
                    forall|r2: int, j2: int|
                        0 <= r2 < old(t).spec_size() && 0 <= j2 < t.mailbox(r2).len()
                            ==> crate::transport::env_from(
                            crate::transport::mailboxes_view(*old(t)),
                            r2,
                            #[trigger] t.mailbox(r2)[j2],
                        ) || spec_handle_tagged(*old(self), handles@, (t.mailbox(r2)[j2]).0),
                decreases n - k2,
            {
                let h = handles[k2];
                if statuses[k2].is_in_progress() {
                    proof {
                        if self.registry.in_free(h as int) {
                            let idx = choose|i: int|
                                0 <= i < self.registry.free().len() && self.registry.free()[i]
                                    == h;
                            assert(self.registry.slots()[h as int] is None);
                        }
                    }
                    let ghost lists_pre = *self;
                    let msg = self.registry.take(h);
                    self.registry.release(h);
                    statuses[k2] = Status::Error("receive matches nothing in flight".to_string());
                    proof {
                        assert(handles@[k2 as int] == h);
                        assert(spec_in_handles(handles@, h as int));
                        assert(msg_starved(msg, *t));
                        assert(spec_msg_stalled(msg, *t));
                        lemma_stalled_carries(
                            old(self).registry.value_at(h as int),
                            msg,
                            *t,
                        );
                        assert(self.registry.slots() == lists_pre.registry.slots().update(
                            h as int,
                            Option::<Message>::None,
                        ));
                        assert forall|hh: int| self.registry.occupied(hh) implies (
                        #[trigger] self.registry.value_at(hh)).wf() && self.registry.value_at(
                            hh,
                        ).peer() < self.size && self.registry.value_at(hh).wf_req(*t) by {
                            assert(hh != h as int);
                            assert(self.registry.slots()[hh] == lists_pre.registry.slots()[hh]);
                            assert(lists_pre.registry.occupied(hh));
                            assert(self.registry.value_at(hh) == lists_pre.registry.value_at(hh));
                            assert(lists_pre.registry.value_at(hh).wf());
                            assert(lists_pre.registry.value_at(hh).peer() < lists_pre.size);
                            assert(lists_pre.registry.value_at(hh).wf_req(*t));
                        }
                        assert forall|q: int|
                            0 <= q < handles@.len() && q != k2 as int && self.registry.occupied(
                                (#[trigger] handles@[q]) as int,
                            ) implies self.registry.value_at(handles@[q] as int)
                            == lists_pre.registry.value_at(handles@[q] as int) by {
                            if q < k2 as int {
                                assert(handles@[q] != handles@[k2 as int]);
                            } else {
                                assert(handles@[k2 as int] != handles@[q]);
                            }
                            assert(self.registry.slots()[handles@[q] as int]
                                == lists_pre.registry.slots()[handles@[q] as int]);
                        }
                        assert forall|q: int|
                            0 <= q < handles@.len() && (#[trigger] statuses@[q]) is Complete
                            implies spec_delivery(
                            old(self).registry.value_at(handles@[q] as int),
                            handles@[q],
                            *self,
                            *t,
                        ) by {
                            lemma_delivery_stable(
                                old(self).registry.value_at(handles@[q] as int),
                                handles@[q],
                                lists_pre,
                                *self,
                                *t,
                                *t,
                            );
                        }
                    }
                } else {
                    proof {
                        assert(!(statuses@[k2 as int] is InProgress));
                    }
                }
                k2 += 1;
            }
        }
        proof {
            assert forall|i: int|
                0 <= i < handles@.len() implies !self.registry.occupied(
                (#[trigger] handles@[i]) as int,
            ) by {
                assert(!(statuses@[i] is InProgress));
            }
        }
        Ok(statuses)
    }

    /// Post the opening round of a barrier: rank zero sends one byte to
    /// every other rank; every other rank posts its receive from rank zero.
    /// All barrier traffic travels under the barrier opcode, so it never
    /// matches user traffic.
    pub fn barrier_begin(&mut self) -> (r: Result<BarrierState>)
        requires
            old(self).wf(),
            old(self).registry.slots().len() + old(self).size <= usize::MAX,
        ensures
            final(self).wf(),
            final(self).rank == old(self).rank,
            final(self).size == old(self).size,
            final(self).registry.slots().len() <= old(self).registry.slots().len() + old(
                self,
            ).size,
            forall|t: Transport| old(self).wf_with(t) ==> final(self).wf_with(t),
            r is Ok,
            r matches Ok(bs) ==> bs.wf_in(*final(self)) && !bs.finished && !bs.second && (old(
                self,
            ).size == 1 ==> bs.handles@.len() == 0) && foreign_kept(
                *old(self),
                *final(self),
                bs.handles@,
            ),
            r matches Ok(bs) ==> {
                &&& bs.handles@.len() == (if old(self).rank == 0 {
                    old(self).size - 1
                } else {
                    1int
                })
                &&& forall|q: int|
                    0 <= q < bs.handles@.len() ==> {
                        let m = final(self).registry.value_at((#[trigger] bs.handles@[q]) as int);
                        &&& final(self).registry.occupied(bs.handles@[q] as int)
                        &&& (old(self).rank == 0 ==> (m matches Message::ContigSend(cs)
                            && cs.dest as int == q + 1 && cs.tag == crate::tag::spec_encode_tag(
                            crate::tag::BARRIER_TAG,
                            0,
                            0,
                        )))
                        &&& (old(self).rank != 0 ==> (m matches Message::ContigRecv(cr) && cr.rank
                            == old(self).rank && cr.tag == crate::tag::spec_encode_tag(
                            crate::tag::BARRIER_TAG,
                            0,
                            0,
                        )))
                    }
            },
    {
        let rank = self.rank;
        let size = self.size;
        let mut handles: Vec<usize> = Vec::new();
        if rank == 0 {
            let mut i: usize = 1;
            while i < size
                invariant
                    1 <= i <= size,
                    self.wf(),
                    self.rank == old(self).rank,
                    self.size == old(self).size,
                    size == self.size,
                    rank == self.rank,
                    self.registry.slots().len() <= old(self).registry.slots().len() + i - 1,
                    old(self).registry.slots().len() + size <= usize::MAX,
                    forall|t: Transport| old(self).wf_with(t) ==> self.wf_with(t),
                    handles@.len() == i - 1,
                    foreign_kept(*old(self), *self, handles@),
                    forall|a: int, b: int|
                        0 <= a < b < handles@.len() ==> handles@[a] != handles@[b],
                    forall|a: int|
                        0 <= a < handles@.len() ==> self.registry.occupied(
                            (#[trigger] handles@[a]) as int,
                        ) && crate::tag::spec_tag_opcode(
                            self.registry.value_at(handles@[a] as int).wire_tag(),
                        ) == crate::tag::BARRIER_TAG,
                    forall|a: int|
                        0 <= a < handles@.len() ==> (self.registry.value_at(
                            (#[trigger] handles@[a]) as int,
                        ) matches Message::ContigSend(cs) && cs.dest as int == a + 1 && cs.tag
                            == crate::tag::spec_encode_tag(crate::tag::BARRIER_TAG, 0, 0)),
                decreases size - i,
            {
                let buf = crate::datatype::ByteBuffer(one_byte());
                let wire = encode_tag(crate::tag::BARRIER_TAG, 0, 0);
                let ghost hs_pre = handles@;
                let ghost reg_pre = *self;
                match self.internal_isend(&buf, i, wire) {
                    Ok(h) => {
                        handles.push(h);
                        proof {
                            assert forall|a: int|
                                0 <= a < handles@.len() implies self.registry.occupied(
                                (#[trigger] handles@[a]) as int,
                            ) && crate::tag::spec_tag_opcode(
                                self.registry.value_at(handles@[a] as int).wire_tag(),
                            ) == crate::tag::BARRIER_TAG && (self.registry.value_at(
                                handles@[a] as int,
                            ) matches Message::ContigSend(cs) && cs.dest as int == a + 1 && cs.tag
                                == crate::tag::spec_encode_tag(
                                crate::tag::BARRIER_TAG,
                                0,
                                0,
                            )) by {
                                if a < hs_pre.len() {
                                    assert(reg_pre.registry.occupied(hs_pre[a] as int));
                                    assert(hs_pre[a] != h);
                                    assert(self.registry.value_at(hs_pre[a] as int)
                                        == reg_pre.registry.value_at(hs_pre[a] as int));
                                } else {
                                    crate::tag::lemma_tag_round_trip(
                                        crate::tag::BARRIER_TAG,
                                        0,
                                        0,
                                    );
                                }
                            }
                            assert forall|a: int, b: int|
                                0 <= a < b < handles@.len() implies handles@[a]
                                != handles@[b] by {
                                if b == handles@.len() - 1 {
                                    assert(reg_pre.registry.occupied(hs_pre[a] as int));
                                }
                            }
                            assert forall|s: int|
                                old(self).registry.occupied(s) implies (
                            #[trigger] self.registry.occupied(s)) && self.registry.value_at(s)
                                == old(self).registry.value_at(s) && !spec_in_handles(
                                handles@,
                                s,
                            ) by {
                                assert(reg_pre.registry.occupied(s));
                                assert(reg_pre.registry.value_at(s) == old(
                                    self,
                                ).registry.value_at(s));
                                assert(s != h as int);
                                assert(self.registry.slots()[s] == reg_pre.registry.slots()[s]);
                                assert(!spec_in_handles(hs_pre, s));
                            }
                        }
                    },
                    Err(e) => {
                        // A byte buffer yields no pack method, so enrollment
                        // cannot fail.
                        proof {
                            assert(false);
                        }
                        return Err(e);
                    },
                }
                i += 1;
            }
        } else {
            let mut buf = crate::datatype::ByteBuffer(one_byte());
            let wire = encode_tag(crate::tag::BARRIER_TAG, 0, 0);
            match self.internal_irecv(&mut buf, wire) {
                Ok(h) => {
                    handles.push(h);
                    proof {
                        crate::tag::lemma_tag_round_trip(crate::tag::BARRIER_TAG, 0, 0);
                    }
                },
                Err(e) => {
                    // A byte buffer yields no pack method, so enrollment
                    // cannot fail.
                    proof {
                        assert(false);
                    }
                    return Err(e);
                },
            }
        }
        let statuses = in_progress_statuses(handles.len());
        Ok(BarrierState { second: false, finished: false, handles, statuses })
    }

    /// Drive the barrier one step: sweep its handles and progress the
    /// transport; when every message of a round is complete — complete, not
    /// merely terminal, so a faulted round can never finish — post the mirror
    /// round: rank zero turns to receiving from every other rank, each under
    /// that sender's own barrier tag, every other rank turns to sending its
    /// byte to rank zero. When both rounds are complete, finish.
    pub fn barrier_step(&mut self, t: &mut Transport, bs: &mut BarrierState) -> (done: bool)
        requires
            old(self).wf(),
            old(self).wf_with(*old(t)),
            old(t).wf(),
            old(bs).wf_in(*old(self)),
            old(self).registry.slots().len() + old(self).size <= usize::MAX,
        ensures
            final(self).wf(),
            final(self).wf_with(*final(t)),
            final(t).wf(),
            evolves(*old(t), *final(t)),
            final(self).rank == old(self).rank,
            final(self).size == old(self).size,
            final(self).registry.slots().len() <= old(self).registry.slots().len() + old(
                self,
            ).size,
            old(bs).second ==> final(bs).second && final(self).registry.slots().len() == old(
                self,
            ).registry.slots().len(),
            (!old(bs).second && !final(bs).second) ==> final(self).registry.slots().len() == old(
                self,
            ).registry.slots().len(),
            final(bs).wf_in(*final(self)),
            done == final(bs).finished,
            (!old(bs).finished && final(bs).finished) ==> (old(bs).second && final(bs).second
                && final(bs).handles@ == old(bs).handles@ && forall|q: int|
                0 <= q < final(bs).statuses@.len() ==> (#[trigger] final(bs).statuses@[q])
                    is Complete),
            (!old(bs).second && final(bs).second) ==> forall|q: int|
                0 <= q < final(bs).statuses@.len() ==> (#[trigger] final(bs).statuses@[q])
                    is InProgress,
            forall|s: int|
                old(self).registry.occupied(s) && !spec_in_handles(old(bs).handles@, s) ==> (
                #[trigger] final(self).registry.occupied(s)) && final(self).registry.value_at(s)
                    == old(self).registry.value_at(s) && !spec_in_handles(final(bs).handles@, s),
            (old(self).size == 1 && !old(bs).finished && old(bs).handles@.len() == 0) ==> {
                &&& final(bs).handles@.len() == 0
                &&& (done <==> old(bs).second)
                &&& (!old(bs).second ==> final(bs).second)
            },
            forall|r2: int, j2: int|
                0 <= r2 < old(t).spec_size() && 0 <= j2 < final(t).mailbox(r2).len()
                    ==> crate::transport::env_from(
                    crate::transport::mailboxes_view(*old(t)),
                    r2,
                    #[trigger] final(t).mailbox(r2)[j2],
                ) || crate::tag::spec_tag_opcode((final(t).mailbox(r2)[j2]).0)
                    == crate::tag::BARRIER_TAG,
    {
        if bs.finished {
            proof {
                crate::transport::lemma_env_self(*t);
            }
            return true;
        }
        self.sweep(t, bs.handles.as_slice(), &mut bs.statuses);
        let ghost t_mid = *t;
        t.progress();
        proof {
            self.lemma_wf_with_evolves(t_mid, *t);
            lemma_evolves_trans(*old(t), t_mid, *t);
            assert forall|q: int|
                0 <= q < bs.handles@.len() && self.registry.occupied(
                    (#[trigger] bs.handles@[q]) as int,
                ) implies crate::tag::spec_tag_opcode(
                self.registry.value_at(bs.handles@[q] as int).wire_tag(),
            ) == crate::tag::BARRIER_TAG by {
                assert(old(self).registry.occupied(bs.handles@[q] as int));
                assert(message_carries(
                    old(self).registry.value_at(bs.handles@[q] as int),
                    self.registry.value_at(bs.handles@[q] as int),
                ));
            }
            assert forall|r2: int, j2: int|
                0 <= r2 < old(t).spec_size() && 0 <= j2 < t.mailbox(r2).len()
                    implies crate::transport::env_from(
                crate::transport::mailboxes_view(*old(t)),
                r2,
                #[trigger] t.mailbox(r2)[j2],
            ) || crate::tag::spec_tag_opcode((t.mailbox(r2)[j2]).0)
                == crate::tag::BARRIER_TAG by {
                let e = t.mailbox(r2)[j2];
                assert(crate::transport::env_from(
                    crate::transport::mailboxes_view(t_mid),
                    r2,
                    e,
                ));
                let u = choose|u: int|
                    0 <= u < crate::transport::mailboxes_view(t_mid)[r2].len()
                        && crate::transport::mailboxes_view(t_mid)[r2][u] == e;
                assert(t_mid.mailbox(r2)[u] == e);
                if spec_handle_tagged(*old(self), old(bs).handles@, e.0) {
                    let q = choose|q: int|
                        0 <= q < old(bs).handles@.len() && old(self).registry.occupied(
                            old(bs).handles@[q] as int,
                        ) && old(self).registry.value_at(old(bs).handles@[q] as int).wire_tag()
                            == e.0;
                    assert(crate::tag::spec_tag_opcode(e.0) == crate::tag::BARRIER_TAG);
                }
            }
        }
        if Context::all_complete(&bs.statuses) {
            if !bs.second {
                let rank = self.rank;
                let size = self.size;
                let mut handles: Vec<usize> = Vec::new();
                if rank == 0 {
                    let mut i: usize = 1;
                    while i < size
                        invariant
                            1 <= i <= size,
                            self.wf(),
                            self.wf_with(*t),
                            t.wf(),
                            size == self.size,
                            rank == self.rank,
                            self.rank == old(self).rank,
                            self.size == old(self).size,
                            self.registry.slots().len() <= old(self).registry.slots().len() + i
                                - 1,
                            old(self).registry.slots().len() + size <= usize::MAX,
                            handles@.len() == i - 1,
                            forall|s: int|
                                old(self).registry.occupied(s) && !spec_in_handles(
                                    old(bs).handles@,
                                    s,
                                ) ==> (#[trigger] self.registry.occupied(s))
                                    && self.registry.value_at(s) == old(self).registry.value_at(s)
                                    && !spec_in_handles(handles@, s),
                            forall|a: int, b: int|
                                0 <= a < b < handles@.len() ==> handles@[a] != handles@[b],
                            forall|a: int|
                                0 <= a < handles@.len() ==> self.registry.occupied(
                                    (#[trigger] handles@[a]) as int,
                                ) && crate::tag::spec_tag_opcode(
                                    self.registry.value_at(handles@[a] as int).wire_tag(),
                                ) == crate::tag::BARRIER_TAG,
                        decreases size - i,
                    {
                        let mut buf = crate::datatype::ByteBuffer(one_byte());
                        let wire = encode_tag(crate::tag::BARRIER_TAG, i as i32, 0);
                        let ghost hs_pre = handles@;
                        let ghost reg_pre = *self;
                        match self.internal_irecv(&mut buf, wire) {
                            Ok(h) => {
                                handles.push(h);
                                proof {
                                    assert forall|a: int|
                                        0 <= a < handles@.len() implies self.registry.occupied(
                                        (#[trigger] handles@[a]) as int,
                                    ) && crate::tag::spec_tag_opcode(
                                        self.registry.value_at(handles@[a] as int).wire_tag(),
                                    ) == crate::tag::BARRIER_TAG by {
                                        if a < hs_pre.len() {
                                            assert(reg_pre.registry.occupied(hs_pre[a] as int));
                                            assert(hs_pre[a] != h);
                                            assert(self.registry.value_at(hs_pre[a] as int)
                                                == reg_pre.registry.value_at(hs_pre[a] as int));
                                        } else {
                                            crate::tag::lemma_tag_round_trip(
                                                crate::tag::BARRIER_TAG,
                                                i as i32,
                                                0,
                                            );
                                        }
                                    }
                                    assert forall|a: int, b: int|
                                        0 <= a < b < handles@.len() implies handles@[a]
                                        != handles@[b] by {
                                        if b == handles@.len() - 1 {
                                            assert(reg_pre.registry.occupied(hs_pre[a] as int));
                                        }
                                    }
                                    assert forall|s: int|
                                        old(self).registry.occupied(s) && !spec_in_handles(
                                            old(bs).handles@,
                                            s,
                                        ) implies (#[trigger] self.registry.occupied(s))
                                        && self.registry.value_at(s) == old(
                                        self,
                                    ).registry.value_at(s) && !spec_in_handles(handles@, s) by {
                                        assert(reg_pre.registry.occupied(s));
                                        assert(s != h as int);
                                        assert(self.registry.slots()[s]
                                            == reg_pre.registry.slots()[s]);
                                        assert(!spec_in_handles(hs_pre, s));
                                    }
                                }
                            },
                            Err(_) => {
                                // A byte buffer yields no pack method, so
                                // enrollment cannot fail.
                                proof {
                                    assert(false);
                                }
                                return true;
                            },
                        }
                        i += 1;
                    }
                } else {
                    let buf = crate::datatype::ByteBuffer(one_byte());
                    let wire = encode_tag(crate::tag::BARRIER_TAG, rank as i32, 0);
                    match self.internal_isend(&buf, 0, wire) {
                        Ok(h) => {
                            handles.push(h);
                            proof {
                                crate::tag::lemma_tag_round_trip(
                                    crate::tag::BARRIER_TAG,
                                    rank as i32,
                                    0,
                                );
                            }
                        },
                        Err(_) => {
                            // A byte buffer yields no pack method, so
                            // enrollment cannot fail.
                            proof {
                                assert(false);
                            }
                            return true;
                        },
                    }
                }
                let statuses = in_progress_statuses(handles.len());
                bs.handles = handles;
                bs.statuses = statuses;
                bs.second = true;
                false
            } else {
                bs.finished = true;
                true
            }
        } else {
            false
        }
    }

    /// Whether every status is complete.
    fn all_complete(statuses: &Vec<Status>) -> (r: bool)
        ensures
            r <==> forall|q: int|
                0 <= q < statuses@.len() ==> (#[trigger] statuses@[q]) is Complete,
    {
        let mut k: usize = 0;
        let n = statuses.len();
        while k < n
            invariant
                n == statuses@.len(),
                k <= n,
                forall|q: int| 0 <= q < k ==> (#[trigger] statuses@[q]) is Complete,
            decreases n - k,
        {
            if !statuses[k].is_complete() {
                return false;
            }
            k += 1;
        }
        true
    }

    /// The barrier: every rank returns only after every rank has entered.
    /// Rank zero sends a byte to every other rank and then collects one from
    /// each; every other rank receives, then answers, in mirror order. Built
    /// on the ordinary message path: every envelope it adds to any mailbox
    /// travels under the barrier opcode, so user traffic is never disturbed,
    /// and every message registered before the call is still registered,
    /// unchanged, after it. A one-rank world always succeeds. Success is
    /// evidence of mutual entry: rank zero returns with a matched answer from
    /// every peer, under that peer''s own barrier tag, in its pickup list, and
    /// every other rank with rank zero''s barrier byte. Within one process a
    /// barrier of a larger world cannot complete by itself; a round that
    /// cannot complete reports an internal error rather than spinning
    /// forever.
    #[verifier::rlimit(100)]
    pub fn barrier(&mut self, t: &mut Transport) -> (r: Result<()>)
        requires
            old(self).wf(),
            old(self).wf_with(*old(t)),
            old(t).wf(),
            old(self).registry.slots().len() + 3 * old(self).size <= usize::MAX,
        ensures
            final(self).wf(),
            final(self).wf_with(*final(t)),
            final(t).wf(),
            evolves(*old(t), *final(t)),
            final(self).rank == old(self).rank,
            final(self).size == old(self).size,
            old(self).size == 1 ==> r is Ok,
            registry_kept(*old(self), *final(self)),
            forall|r2: int, j2: int|
                0 <= r2 < old(t).spec_size() && 0 <= j2 < final(t).mailbox(r2).len()
                    ==> crate::transport::env_from(
                    crate::transport::mailboxes_view(*old(t)),
                    r2,
                    #[trigger] final(t).mailbox(r2)[j2],
                ) || crate::tag::spec_tag_opcode((final(t).mailbox(r2)[j2]).0)
                    == crate::tag::BARRIER_TAG,
            (r is Ok && old(self).rank == 0) ==> forall|p: int|
                1 <= p < old(self).size ==> #[trigger] spec_barrier_answer(
                    *final(self),
                    p,
                    *final(t),
                ),
            (r is Ok && old(self).rank != 0) ==> spec_barrier_answer(*final(self), 0, *final(t)),
    {
        proof {
            crate::transport::lemma_env_self(*t);
        }
        let ghost t0 = *t;
        let bs = match self.barrier_begin() {
            Ok(bs) => bs,
            Err(e) => {
                proof {
                    assert(false);
                }
                return Err(e);
            },
        };
        let ghost ctx1 = *self;
        let sts1 = match self.waitall(t, bs.handles.as_slice()) {
            Ok(v) => v,
            Err(e) => {
                proof {
                    assert(false);
                }
                return Err(e);
            },
        };
        let ghost ctx2 = *self;
        let ghost t1 = *t;
        proof {
            // Every new envelope so far travels under the barrier opcode.
            assert forall|r2: int, j2: int|
                0 <= r2 < old(t).spec_size() && 0 <= j2 < t.mailbox(r2).len()
                    implies crate::transport::env_from(
                crate::transport::mailboxes_view(*old(t)),
                r2,
                #[trigger] t.mailbox(r2)[j2],
            ) || crate::tag::spec_tag_opcode((t.mailbox(r2)[j2]).0)
                == crate::tag::BARRIER_TAG by {
                let e = t.mailbox(r2)[j2];
                if spec_handle_tagged(ctx1, bs.handles@, e.0) {
                    let q = choose|q: int|
                        0 <= q < bs.handles@.len() && ctx1.registry.occupied(
                            bs.handles@[q] as int,
                        ) && ctx1.registry.value_at(bs.handles@[q] as int).wire_tag() == e.0;
                }
            }
            // Messages from before the call are untouched.
            assert forall|s: int|
                old(self).registry.occupied(s) implies (#[trigger] self.registry.occupied(s))
                && self.registry.value_at(s) == old(self).registry.value_at(s) by {
                assert(foreign_kept(*old(self), ctx1, bs.handles@));
                assert(ctx1.registry.occupied(s));
                assert(ctx1.registry.value_at(s) == old(self).registry.value_at(s));
                assert(!spec_in_handles(bs.handles@, s));
            }
        }
        if !Context::all_complete(&sts1) {
            return Err(Error::InternalError);
        }
        proof {
            if self.rank != 0 {
                assert(sts1@[0] is Complete);
                assert(spec_delivery(
                    ctx1.registry.value_at(bs.handles@[0] as int),
                    bs.handles@[0],
                    *self,
                    *t,
                ));
                assert(spec_delivered_bytes(
                    self.recv_bytes@,
                    bs.handles@[0],
                    crate::tag::spec_encode_tag(crate::tag::BARRIER_TAG, 0, 0),
                    *t,
                ));
            }
        }
        // The mirror round: rank zero now collects one byte from every other
        // rank, each under the sender''s own barrier tag; every other rank
        // answers rank zero.
        let ghost ctx2b = *self;
        let rank = self.rank;
        let size = self.size;
        let mut handles2: Vec<usize> = Vec::new();
        if rank == 0 {
            let mut i: usize = 1;
            while i < size
                invariant
                    1 <= i <= size,
                    self.wf(),
                    self.wf_with(*t),
                    t.wf(),
                    *t == t1,
                    size == self.size,
                    rank == self.rank,
                    rank == 0,
                    self.rank == ctx2b.rank,
                    self.size == ctx2b.size,
                    self.recv_bytes == ctx2b.recv_bytes,
                    self.recv_unpacks == ctx2b.recv_unpacks,
                    self.registry.slots().len() <= ctx2b.registry.slots().len() + i - 1,
                    ctx2b.registry.slots().len() + size <= usize::MAX,
                    handles2@.len() == i - 1,
                    foreign_kept(ctx2b, *self, handles2@),
                    forall|a: int, b: int|
                        0 <= a < b < handles2@.len() ==> handles2@[a] != handles2@[b],
                    forall|a: int|
                        0 <= a < handles2@.len() ==> self.registry.occupied(
                            (#[trigger] handles2@[a]) as int,
                        ) && (self.registry.value_at(handles2@[a] as int) matches
                            Message::ContigRecv(cr) && cr.rank == rank && cr.tag
                            == crate::tag::spec_encode_tag(
                            crate::tag::BARRIER_TAG,
                            (a + 1) as i32,
                            0,
                        )),
                decreases size - i,
            {
                let mut buf = crate::datatype::ByteBuffer(one_byte());
                let wire = encode_tag(crate::tag::BARRIER_TAG, i as i32, 0);
                let ghost hs_pre = handles2@;
                let ghost reg_pre = *self;
                match self.internal_irecv(&mut buf, wire) {
                    Ok(h) => {
                        handles2.push(h);
                        proof {
                            assert forall|a: int|
                                0 <= a < handles2@.len() implies self.registry.occupied(
                                (#[trigger] handles2@[a]) as int,
                            ) && (self.registry.value_at(handles2@[a] as int) matches
                                Message::ContigRecv(cr) && cr.rank == rank && cr.tag
                                == crate::tag::spec_encode_tag(
                                crate::tag::BARRIER_TAG,
                                (a + 1) as i32,
                                0,
                            )) by {
                                if a < hs_pre.len() {
                                    assert(reg_pre.registry.occupied(hs_pre[a] as int));
                                    assert(hs_pre[a] != h);
                                    assert(self.registry.value_at(hs_pre[a] as int)
                                        == reg_pre.registry.value_at(hs_pre[a] as int));
                                } else {
                                    assert(i as i32 == (a + 1) as i32);
                                }
                            }
                            assert forall|a: int, b: int|
                                0 <= a < b < handles2@.len() implies handles2@[a]
                                != handles2@[b] by {
                                if b == handles2@.len() - 1 {
                                    assert(reg_pre.registry.occupied(hs_pre[a] as int));
                                }
                            }
                            assert forall|s: int|
                                ctx2b.registry.occupied(s) implies (
                            #[trigger] self.registry.occupied(s)) && self.registry.value_at(s)
                                == ctx2b.registry.value_at(s) && !spec_in_handles(
                                handles2@,
                                s,
                            ) by {
                                assert(reg_pre.registry.occupied(s));
                                assert(reg_pre.registry.value_at(s) == ctx2b.registry.value_at(s));
                                assert(s != h as int);
                                assert(self.registry.slots()[s] == reg_pre.registry.slots()[s]);
                                assert(!spec_in_handles(hs_pre, s));
                            }
                        }
                    },
                    Err(_) => {
                        // A byte buffer yields no pack method, so enrollment
                        // cannot fail.
                        proof {
                            assert(false);
                        }
                        return Err(Error::InternalError);
                    },
                }
                i += 1;
            }
        } else {
            let buf = crate::datatype::ByteBuffer(one_byte());
            let wire = encode_tag(crate::tag::BARRIER_TAG, rank as i32, 0);
            match self.internal_isend(&buf, 0, wire) {
                Ok(h) => {
                    handles2.push(h);
                },
                Err(_) => {
                    // A byte buffer yields no pack method, so enrollment
                    // cannot fail.
                    proof {
                        assert(false);
                    }
                    return Err(Error::InternalError);
                },
            }
        }
        let ghost ctx3 = *self;
        let sts2 = match self.waitall(t, handles2.as_slice()) {
            Ok(v) => v,
            Err(e) => {
                proof {
                    assert(false);
                }
                return Err(e);
            },
        };
        proof {
            lemma_evolves_trans(*old(t), t1, *t);
            // Provenance of every envelope, across both rounds.
            assert forall|r2: int, j2: int|
                0 <= r2 < old(t).spec_size() && 0 <= j2 < t.mailbox(r2).len()
                    implies crate::transport::env_from(
                crate::transport::mailboxes_view(*old(t)),
                r2,
                #[trigger] t.mailbox(r2)[j2],
            ) || crate::tag::spec_tag_opcode((t.mailbox(r2)[j2]).0)
                == crate::tag::BARRIER_TAG by {
                let e = t.mailbox(r2)[j2];
                if spec_handle_tagged(ctx3, handles2@, e.0) {
                    let q = choose|q: int|
                        0 <= q < handles2@.len() && ctx3.registry.occupied(
                            handles2@[q] as int,
                        ) && ctx3.registry.value_at(handles2@[q] as int).wire_tag() == e.0;
                    if rank == 0 {
                        crate::tag::lemma_tag_round_trip(
                            crate::tag::BARRIER_TAG,
                            (q + 1) as i32,
                            0,
                        );
                    } else {
                        crate::tag::lemma_tag_round_trip(crate::tag::BARRIER_TAG, rank as i32, 0);
                    }
                } else if crate::transport::env_from(
                    crate::transport::mailboxes_view(t1),
                    r2,
                    e,
                ) {
                    let u = choose|u: int|
                        0 <= u < crate::transport::mailboxes_view(t1)[r2].len()
                            && crate::transport::mailboxes_view(t1)[r2][u] == e;
                    assert(t1.mailbox(r2)[u] == e);
                    if spec_handle_tagged(ctx1, bs.handles@, e.0) {
                        let q2 = choose|q2: int|
                            0 <= q2 < bs.handles@.len() && ctx1.registry.occupied(
                                bs.handles@[q2] as int,
                            ) && ctx1.registry.value_at(bs.handles@[q2] as int).wire_tag() == e.0;
                    }
                }
            }
            // Messages from before the call are untouched.
            assert(foreign_kept(*old(self), ctx1, bs.handles@));
            assert(foreign_kept(ctx2b, ctx3, handles2@));
            assert forall|s: int|
                old(self).registry.occupied(s) implies (#[trigger] self.registry.occupied(s))
                && self.registry.value_at(s) == old(self).registry.value_at(s) by {
                assert(foreign_kept(*old(self), ctx1, bs.handles@));
                assert(ctx1.registry.occupied(s));
                assert(ctx1.registry.value_at(s) == old(self).registry.value_at(s));
                assert(!spec_in_handles(bs.handles@, s));
                assert(ctx2b.registry.occupied(s) && ctx2b.registry.value_at(s) == old(
                    self,
                ).registry.value_at(s));
                assert(foreign_kept(ctx2b, ctx3, handles2@));
                assert(ctx3.registry.occupied(s));
                assert(ctx3.registry.value_at(s) == old(self).registry.value_at(s));
                assert(!spec_in_handles(handles2@, s));
            }
        }
        if !Context::all_complete(&sts2) {
            return Err(Error::InternalError);
        }
        proof {
            if rank == 0 {
                assert forall|p: int| 1 <= p < old(self).size implies #[trigger] spec_barrier_answer(
                    *self,
                    p,
                    *t,
                ) by {
                    let q = p - 1;
                    assert(sts2@[q] is Complete);
                    assert(spec_delivery(
                        ctx3.registry.value_at(handles2@[q] as int),
                        handles2@[q],
                        *self,
                        *t,
                    ));
                    assert((q + 1) as i32 == p as i32);
                    assert(spec_delivered_bytes(
                        self.recv_bytes@,
                        handles2@[q],
                        crate::tag::spec_encode_tag(crate::tag::BARRIER_TAG, p as i32, 0),
                        *t,
                    ));
                }
            } else {
                lemma_delivered_bytes_stable(
                    ctx2b.recv_bytes@,
                    self.recv_bytes@,
                    bs.handles@[0],
                    crate::tag::spec_encode_tag(crate::tag::BARRIER_TAG, 0, 0),
                    t1,
                    *t,
                );
                assert(spec_delivered_bytes(
                    self.recv_bytes@,
                    bs.handles@[0],
                    crate::tag::spec_encode_tag(crate::tag::BARRIER_TAG, (0int) as i32, 0),
                    *t,
                ));
                assert(spec_barrier_answer(*self, 0, *t));
            }
            assert forall|s: int|
                old(self).registry.occupied(s) implies (#[trigger] self.registry.occupied(s))
                && self.registry.value_at(s) == old(self).registry.value_at(s) by {
                assert(foreign_kept(*old(self), ctx1, bs.handles@));
                assert(ctx1.registry.occupied(s));
                assert(ctx1.registry.value_at(s) == old(self).registry.value_at(s));
                assert(!spec_in_handles(bs.handles@, s));
                assert(ctx2b.registry.occupied(s));
                assert(ctx2b.registry.value_at(s) == old(self).registry.value_at(s));
                assert(foreign_kept(ctx2b, ctx3, handles2@));
                assert(ctx3.registry.occupied(s));
                assert(ctx3.registry.value_at(s) == old(self).registry.value_at(s));
                assert(!spec_in_handles(handles2@, s));
            }
        }
        Ok(())
    }

    /// Probe for an incoming message without receiving it: with a source,
    /// the exact wire tag must match under the full mask; without one, the
    /// source-rank bits are masked out and any sender matches. Something is
    /// reported exactly when a matching message is in flight to this rank,
    /// and what is reported is the oldest matching message's payload size and
    /// its sender's rank, decoded from the matched wire tag.
    pub fn probe(&self, t: &Transport, source: Option<i32>, tag: i32) -> (r: Result<ProbeResult>)
        requires
            self.wf(),
            self.size as int == t.spec_size(),
            t.wf(),
            source matches Some(s) ==> 0 <= s < self.size,
        ensures
            ({
                let want = match source {
                    Some(s) => crate::tag::spec_encode_tag(0, s, tag),
                    None => crate::tag::spec_encode_tag(0, 0, tag),
                };
                let mask = if source is Some {
                    TAG_MASK
                } else {
                    PROBE_TAG_MASK
                };
                let mb = t.mailbox(self.rank as int);
                let j = spec_first_match(mb, want, mask);
                &&& (r is Ok <==> j < mb.len())
                &&& (r matches Ok(p) ==> p.size == mb[j].1.len() && p.source
                    == crate::tag::spec_tag_rank(mb[j].0))
                &&& (r matches Err(e) ==> e == Error::NoProbeMessage)
            }),
    {
        let (want, mask): (u64, u64) = match source {
            Some(s) => (encode_tag(0, s, tag), TAG_MASK),
            None => (encode_tag(0, 0, tag), PROBE_TAG_MASK),
        };
        match t.probe(self.rank, want, mask) {
            Some((len, sender_tag)) => {
                let (_, src, _) = decode_tag(sender_tag);
                Ok(ProbeResult { size: len, source: src })
            },
            None => Err(Error::NoProbeMessage),
        }
    }
}

/// Whether some registered message under the given handles travels under
/// this wire tag.
pub open spec fn spec_handle_tagged(ctx: Context, hs: Seq<usize>, tag: u64) -> bool {
    exists|q: int|
        0 <= q < hs.len() && ctx.registry.occupied(hs[q] as int) && ctx.registry.value_at(
            hs[q] as int,
        ).wire_tag() == tag
}

/// Messages registered before an operation are all still registered,
/// unchanged.
pub open spec fn registry_kept(pre: Context, post: Context) -> bool {
    forall|s: int|
        pre.registry.occupied(s) ==> (#[trigger] post.registry.occupied(s))
            && post.registry.value_at(s) == pre.registry.value_at(s)
}

/// Messages registered before an operation are still registered, unchanged,
/// and none of the operation's own handles points at them.
pub open spec fn foreign_kept(pre: Context, post: Context, own: Seq<usize>) -> bool {
    forall|s: int|
        pre.registry.occupied(s) ==> (#[trigger] post.registry.occupied(s))
            && post.registry.value_at(s) == pre.registry.value_at(s) && !spec_in_handles(own, s)
}

/// The progress of one rank through the barrier: the handles and statuses of
/// the current round, whether the second round has been posted, and whether
/// the barrier has finished.
pub struct BarrierState {
    /// Whether the mirror round has been posted.
    pub second: bool,
    /// Whether the barrier is complete.
    pub finished: bool,
    /// Handles of the current round.
    pub handles: Vec<usize>,
    /// Status of each handle, at its index.
    pub statuses: Vec<Status>,
}

impl BarrierState {
    /// The round's records agree with the context: one status per handle, no
    /// handle twice, and a status is in progress exactly while its message is
    /// registered.
    pub open spec fn wf_in(self, ctx: Context) -> bool {
        &&& self.statuses@.len() == self.handles@.len()
        &&& forall|a: int, b: int|
            0 <= a < b < self.handles@.len() ==> self.handles@[a] != self.handles@[b]
        &&& forall|q: int|
            0 <= q < self.handles@.len() ==> ((#[trigger] self.statuses@[q]) is InProgress <==>
                ctx.registry.occupied(self.handles@[q] as int))
        &&& forall|q: int|
            0 <= q < self.handles@.len() && ctx.registry.occupied(
                (#[trigger] self.handles@[q]) as int,
            ) ==> crate::tag::spec_tag_opcode(
                ctx.registry.value_at(self.handles@[q] as int).wire_tag(),
            ) == crate::tag::BARRIER_TAG
    }
}

/// A one-byte payload for barrier traffic.
fn one_byte() -> (r: Vec<u8>)
    ensures
        r@ =~= seq![0u8],
{
    let mut v: Vec<u8> = Vec::new();
    v.push(0);
    v
}

/// A vector of `n` in-progress statuses.
fn in_progress_statuses(n: usize) -> (r: Vec<Status>)
    ensures
        r@.len() == n,
        forall|q: int| 0 <= q < n ==> (#[trigger] r@[q]) is InProgress,
{
    let mut statuses: Vec<Status> = Vec::new();
    let mut k: usize = 0;
    while k < n
        invariant
            k <= n,
            statuses@.len() == k,
            forall|q: int| 0 <= q < k ==> (#[trigger] statuses@[q]) is InProgress,
        decreases n - k,
    {
        statuses.push(Status::InProgress);
        k += 1;
    }
    statuses
}

} // verus!
