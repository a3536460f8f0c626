//! An in-memory reliable tag-matched transport.
//!
//! The message engine assumes a transport that offers tagged sends, tagged
//! receives with a match mask, a non-blocking tagged probe and a progress
//! call. This module gives those operations to every rank of one world within
//! a single process: each rank has a mailbox of in-flight envelopes, sends
//! complete as soon as they are enqueued, and posted receives are matched
//! against their rank's mailbox, in arrival order, when progress runs.
//!
//! Matching follows the tag-mask rule: an envelope matches a posted receive
//! when the wire tags agree on every bit the mask keeps.
use vstd::prelude::*;
use crate::Status;

verus! {

/// A message in flight: its wire tag and its payload.
pub struct Envelope {
    /// The sender's wire tag.
    pub tag: u64,
    /// The payload bytes.
    pub payload: Vec<u8>,
}

/// One transport submission.
pub enum TransportReq {
    /// A send; sends complete at submission.
    SendDone,
    /// A posted receive that has not matched yet.
    RecvPending { rank: usize, tag: u64, mask: u64, cap: usize },
    /// A matched receive holding its payload and the sender's wire tag.
    RecvDone { payload: Vec<u8>, sender_tag: u64 },
    /// A matched receive whose payload exceeded the posted capacity.
    RecvError,
}

/// The state of one submission, as contracts speak of it.
pub enum ReqView {
    SendDone,
    RecvPending { rank: int, tag: u64, mask: u64, cap: int },
    RecvDone { payload: Seq<u8>, sender_tag: u64 },
    RecvError,
}

impl ReqView {
    /// Whether the submission can no longer change.
    pub open spec fn is_terminal(self) -> bool {
        !(self is RecvPending)
    }
}

/// The state a submission record denotes.
pub open spec fn req_view(r: TransportReq) -> ReqView {
    match r {
        TransportReq::SendDone => ReqView::SendDone,
        TransportReq::RecvPending { rank, tag, mask, cap } => ReqView::RecvPending {
            rank: rank as int,
            tag,
            mask,
            cap: cap as int,
        },
        TransportReq::RecvDone { payload, sender_tag } => ReqView::RecvDone {
            payload: payload@,
            sender_tag,
        },
        TransportReq::RecvError => ReqView::RecvError,
    }
}

/// An envelope matches a posted receive when the tags agree on every bit the
/// mask keeps.
pub open spec fn spec_matches(want_tag: u64, mask: u64, env_tag: u64) -> bool {
    want_tag & mask == env_tag & mask
}

/// How a pending receive may settle in one round of progress: it stays
/// pending, or it becomes a matched receive whose sender's tag matches under
/// the posted mask and whose payload fits the posted capacity, or it errs.
pub open spec fn req_settles(pending: ReqView, after: ReqView) -> bool {
    ||| after == pending
    ||| {
        &&& after matches ReqView::RecvDone { payload, sender_tag }
        &&& spec_matches(pending->RecvPending_tag, pending->RecvPending_mask, sender_tag)
        &&& payload.len() <= pending->RecvPending_cap
    }
    ||| after is RecvError
}

/// Whether an envelope with the given tag matches a posted receive.
pub fn tag_matches(want_tag: u64, mask: u64, env_tag: u64) -> (r: bool)
    ensures
        r == spec_matches(want_tag, mask, env_tag),
{
    (want_tag & mask) == (env_tag & mask)
}

/// The position of the oldest envelope matching a tag under a mask, or the
/// mailbox length when nothing matches.
pub open spec fn spec_first_match(mb: Seq<(u64, Seq<u8>)>, tag: u64, mask: u64) -> int
    decreases mb.len(),
{
    if mb.len() == 0 {
        0int
    } else if spec_matches(tag, mask, mb[0].0) {
        0int
    } else {
        1 + spec_first_match(mb.drop_first(), tag, mask)
    }
}

/// The oldest match lies within the mailbox exactly when something matches,
/// it does match, and nothing before it does.
pub proof fn lemma_first_match(mb: Seq<(u64, Seq<u8>)>, tag: u64, mask: u64)
    ensures
        0 <= spec_first_match(mb, tag, mask) <= mb.len(),
        spec_first_match(mb, tag, mask) < mb.len() ==> spec_matches(
            tag,
            mask,
            mb[spec_first_match(mb, tag, mask)].0,
        ),
        forall|t: int|
            0 <= t < spec_first_match(mb, tag, mask) ==> !spec_matches(
                tag,
                mask,
                (#[trigger] mb[t]).0,
            ),
    decreases mb.len(),
{
    if mb.len() > 0 && !spec_matches(tag, mask, mb[0].0) {
        lemma_first_match(mb.drop_first(), tag, mask);
        assert forall|t: int|
            0 <= t < spec_first_match(mb, tag, mask) implies !spec_matches(
            tag,
            mask,
            (#[trigger] mb[t]).0,
        ) by {
            if t > 0 {
                assert(mb.drop_first()[t - 1] == mb[t]);
            }
        }
    }
}

/// A match at a position before which nothing matches is the oldest match.
pub proof fn lemma_first_match_at(mb: Seq<(u64, Seq<u8>)>, tag: u64, mask: u64, j: int)
    requires
        0 <= j < mb.len(),
        spec_matches(tag, mask, mb[j].0),
        forall|t: int| 0 <= t < j ==> !spec_matches(tag, mask, (#[trigger] mb[t]).0),
    ensures
        spec_first_match(mb, tag, mask) == j,
{
    lemma_first_match(mb, tag, mask);
    let fm = spec_first_match(mb, tag, mask);
    if fm < j {
        assert(!spec_matches(tag, mask, mb[fm].0));
    }
}

/// Whether an envelope was in flight to a rank in the given mailboxes.
pub open spec fn env_from(mbs: Seq<Seq<(u64, Seq<u8>)>>, r: int, e: (u64, Seq<u8>)) -> bool {
    exists|u: int| 0 <= u < mbs[r].len() && mbs[r][u] == e
}

/// Every envelope of a transport is in flight in its own mailboxes.
pub proof fn lemma_env_self(t: Transport)
    ensures
        forall|r: int, j: int|
            0 <= r < t.spec_size() && 0 <= j < t.mailbox(r).len() ==> env_from(
                mailboxes_view(t),
                r,
                #[trigger] t.mailbox(r)[j],
            ),
{
    assert forall|r: int, j: int|
        0 <= r < t.spec_size() && 0 <= j < t.mailbox(r).len() implies env_from(
        mailboxes_view(t),
        r,
        #[trigger] t.mailbox(r)[j],
    ) by {
        assert(mailboxes_view(t)[r] == t.mailbox(r));
        assert(mailboxes_view(t)[r][j] == t.mailbox(r)[j]);
    }
}

/// After one envelope joins one mailbox, every envelope in flight either was
/// in flight before or is the new one, recognizable by its tag.
pub proof fn lemma_env_after_push(
    pre: Transport,
    post: Transport,
    dest: int,
    tag: u64,
    payload: Seq<u8>,
)
    requires
        post.spec_size() == pre.spec_size(),
        0 <= dest < pre.spec_size(),
        post.mailbox(dest) == pre.mailbox(dest).push((tag, payload)),
        forall|r: int|
            0 <= r < pre.spec_size() && r != dest ==> post.mailbox(r) == pre.mailbox(r),
    ensures
        forall|r: int, j: int|
            0 <= r < pre.spec_size() && 0 <= j < post.mailbox(r).len() ==> env_from(
                mailboxes_view(pre),
                r,
                #[trigger] post.mailbox(r)[j],
            ) || (post.mailbox(r)[j]).0 == tag,
{
    assert forall|r: int, j: int|
        0 <= r < pre.spec_size() && 0 <= j < post.mailbox(r).len() implies env_from(
        mailboxes_view(pre),
        r,
        #[trigger] post.mailbox(r)[j],
    ) || (post.mailbox(r)[j]).0 == tag by {
        assert(mailboxes_view(pre)[r] == pre.mailbox(r));
        if r == dest {
            if j < pre.mailbox(dest).len() {
                assert(post.mailbox(r)[j] == pre.mailbox(r)[j]);
                assert(mailboxes_view(pre)[r][j] == post.mailbox(r)[j]);
            } else {
                assert(post.mailbox(r)[j] == (tag, payload));
            }
        } else {
            assert(post.mailbox(r)[j] == pre.mailbox(r)[j]);
            assert(mailboxes_view(pre)[r][j] == post.mailbox(r)[j]);
        }
    }
}

/// All mailboxes of a transport, by rank.
pub open spec fn mailboxes_view(t: Transport) -> Seq<Seq<(u64, Seq<u8>)>> {
    Seq::new(t.spec_size() as nat, |r: int| t.mailbox(r))
}

/// What one submission's matching step does to the mailboxes: a pending
/// receive takes the oldest matching envelope of its rank, settling complete
/// when the payload fits the posted capacity and in error otherwise; with no
/// match, and for settled submissions, nothing changes.
pub open spec fn spec_settle(mbs: Seq<Seq<(u64, Seq<u8>)>>, req: ReqView) -> (
    Seq<Seq<(u64, Seq<u8>)>>,
    ReqView,
) {
    match req {
        ReqView::RecvPending { rank, tag, mask, cap } => {
            let mb = mbs[rank];
            let j = spec_first_match(mb, tag, mask);
            if j < mb.len() {
                (
                    mbs.update(rank, mb.remove(j)),
                    if mb[j].1.len() <= cap {
                        ReqView::RecvDone { payload: mb[j].1, sender_tag: mb[j].0 }
                    } else {
                        ReqView::RecvError
                    },
                )
            } else {
                (mbs, req)
            }
        },
        _ => (mbs, req),
    }
}

/// The mailboxes and submissions after the first `k` submissions have taken
/// their matching step, in submission order.
pub open spec fn spec_sweep(mbs: Seq<Seq<(u64, Seq<u8>)>>, reqs: Seq<ReqView>, k: int) -> (
    Seq<Seq<(u64, Seq<u8>)>>,
    Seq<ReqView>,
)
    decreases k,
{
    if k <= 0 {
        (mbs, reqs)
    } else {
        let prev = spec_sweep(mbs, reqs, k - 1);
        let stepped = spec_settle(prev.0, prev.1[k - 1]);
        (stepped.0, prev.1.update(k - 1, stepped.1))
    }
}

/// A matching pass only removes envelopes: every envelope still in flight
/// after it was in flight before.
pub proof fn lemma_sweep_provenance(
    mbs: Seq<Seq<(u64, Seq<u8>)>>,
    reqs: Seq<ReqView>,
    k: int,
)
    requires
        0 <= k <= reqs.len(),
        forall|q: int|
            0 <= q < reqs.len() ==> ((#[trigger] reqs[q]) matches ReqView::RecvPending {
                rank,
                ..
            } ==> 0 <= rank < mbs.len()),
    ensures
        spec_sweep(mbs, reqs, k).0.len() == mbs.len(),
        forall|r: int, j: int|
            0 <= r < mbs.len() && 0 <= j < spec_sweep(mbs, reqs, k).0[r].len() ==> env_from(
                mbs,
                r,
                #[trigger] spec_sweep(mbs, reqs, k).0[r][j],
            ),
    decreases k,
{
    if k <= 0 {
        assert forall|r: int, j: int|
            0 <= r < mbs.len() && 0 <= j < spec_sweep(mbs, reqs, k).0[r].len() implies env_from(
            mbs,
            r,
            #[trigger] spec_sweep(mbs, reqs, k).0[r][j],
        ) by {
            assert(mbs[r][j] == spec_sweep(mbs, reqs, k).0[r][j]);
        }
    } else {
        lemma_sweep_provenance(mbs, reqs, k - 1);
        lemma_sweep_frame(mbs, reqs, k - 1);
        let prev = spec_sweep(mbs, reqs, k - 1);
        let cur = spec_sweep(mbs, reqs, k).0;
        assert(prev.1[k - 1] == reqs[k - 1]);
        assert(cur.len() == mbs.len());
        assert forall|r: int, j: int|
            0 <= r < mbs.len() && 0 <= j < spec_sweep(mbs, reqs, k).0[r].len() implies env_from(
            mbs,
            r,
            #[trigger] spec_sweep(mbs, reqs, k).0[r][j],
        ) by {
            assert(spec_sweep(mbs, reqs, k).0 == cur);
            // The step keeps the envelope where it is or, on the settled
            // rank, shifts the ones past the removed envelope down by one.
            match prev.1[k - 1] {
                ReqView::RecvPending { rank, tag, mask, cap } => {
                    let mb = prev.0[rank];
                    let j0 = spec_first_match(mb, tag, mask);
                    if j0 < mb.len() && r == rank {
                        lemma_first_match(mb, tag, mask);
                        mb.remove_ensures(j0);
                        let v = if j < j0 {
                            j
                        } else {
                            j + 1
                        };
                        assert(cur[r] == mb.remove(j0));
                        assert(cur[r][j] == prev.0[r][v]);
                        assert(env_from(mbs, r, prev.0[r][v]));
                    } else {
                        assert(cur[r][j] == prev.0[r][j]);
                        assert(env_from(mbs, r, prev.0[r][j]));
                    }
                },
                _ => {
                    assert(cur[r][j] == prev.0[r][j]);
                    assert(env_from(mbs, r, prev.0[r][j]));
                },
            }
        }
    }
}

/// Whether nothing in flight to a rank matches a tag under a mask.
pub open spec fn spec_no_match(mb: Seq<(u64, Seq<u8>)>, tag: u64, mask: u64) -> bool {
    forall|u: int| 0 <= u < mb.len() ==> !spec_matches(tag, mask, (#[trigger] mb[u]).0)
}

/// A matching pass cannot wake a starved receive: a pending receive that the
/// pass leaves pending has no matching envelope left in its rank's mailbox,
/// and one whose mailbox already had no match stays pending with none.
pub proof fn lemma_sweep_pending_no_match(
    mbs: Seq<Seq<(u64, Seq<u8>)>>,
    reqs: Seq<ReqView>,
    k: int,
    i: int,
)
    requires
        0 <= k <= reqs.len(),
        forall|q: int|
            0 <= q < reqs.len() ==> ((#[trigger] reqs[q]) matches ReqView::RecvPending {
                rank,
                ..
            } ==> 0 <= rank < mbs.len()),
        0 <= i < reqs.len(),
        reqs[i] is RecvPending,
    ensures
        ({
            let rank = reqs[i]->RecvPending_rank;
            let tag = reqs[i]->RecvPending_tag;
            let mask = reqs[i]->RecvPending_mask;
            let out = spec_sweep(mbs, reqs, k);
            &&& (i < k && out.1[i] == reqs[i]) ==> spec_no_match(out.0[rank], tag, mask)
            &&& spec_no_match(mbs[rank], tag, mask) ==> out.1[i] == reqs[i] && spec_no_match(
                out.0[rank],
                tag,
                mask,
            )
        }),
    decreases k,
{
    let rank = reqs[i]->RecvPending_rank;
    let tag = reqs[i]->RecvPending_tag;
    let mask = reqs[i]->RecvPending_mask;
    if k > 0 {
        lemma_sweep_pending_no_match(mbs, reqs, k - 1, i);
        lemma_sweep_frame(mbs, reqs, k - 1);
        lemma_sweep_provenance(mbs, reqs, k - 1);
        let prev = spec_sweep(mbs, reqs, k - 1);
        let out = spec_sweep(mbs, reqs, k);
        assert(prev.0.len() == mbs.len());
        assert(prev.1[k - 1] == reqs[k - 1]);
        let stepped = spec_settle(prev.0, prev.1[k - 1]);
        // The step at k-1 can only remove envelopes from one mailbox, so a
        // match-free mailbox stays match-free.
        assert forall|rk: int, tg: u64, mk: u64|
            0 <= rk < mbs.len() && spec_no_match(prev.0[rk], tg, mk) implies spec_no_match(
            stepped.0[rk],
            tg,
            mk,
        ) by {
            match prev.1[k - 1] {
                ReqView::RecvPending { rank: r2, tag: t2, mask: m2, cap: c2 } => {
                    assert(reqs[k - 1] matches ReqView::RecvPending { rank, .. } ==> 0 <= rank
                        < mbs.len());
                    assert(0 <= r2 < mbs.len());
                    let mb = prev.0[r2];
                    let j0 = spec_first_match(mb, t2, m2);
                    if j0 < mb.len() && rk == r2 {
                        lemma_first_match(mb, t2, m2);
                        mb.remove_ensures(j0);
                        assert forall|u: int|
                            0 <= u < stepped.0[rk].len() implies !spec_matches(
                            tg,
                            mk,
                            (#[trigger] stepped.0[rk][u]).0,
                        ) by {
                            assert(stepped.0[rk] == mb.remove(j0));
                            if u < j0 {
                                assert(stepped.0[rk][u] == mb[u]);
                            } else {
                                assert(stepped.0[rk][u] == mb[u + 1]);
                            }
                        }
                    } else {
                        assert(stepped.0[rk] == prev.0[rk]);
                    }
                },
                _ => {
                    assert(stepped.0[rk] == prev.0[rk]);
                },
            }
        }
        // Stayed pending through step k-1.
        if i < k && out.1[i] == reqs[i] {
            if i == k - 1 {
                // Its own step found nothing: no match then, and later steps
                // are this one.
                let mb = prev.0[rank];
                let j0 = spec_first_match(mb, tag, mask);
                assert(out.1[i] == stepped.1);
                if j0 < mb.len() {
                    lemma_first_match(mb, tag, mask);
                    assert(!(stepped.1 == prev.1[k - 1]));
                    assert(false);
                }
                lemma_first_match(mb, tag, mask);
                assert(spec_no_match(prev.0[rank], tag, mask));
                assert(spec_no_match(out.0[rank], tag, mask));
            } else {
                assert(out.1[i] == prev.1.update(k - 1, stepped.1)[i]);
                assert(prev.1[i] == reqs[i]);
                assert(spec_no_match(prev.0[rank], tag, mask));
                assert(spec_no_match(out.0[rank], tag, mask));
            }
        }
        if spec_no_match(mbs[rank], tag, mask) {
            assert(prev.1[i] == reqs[i]);
            assert(spec_no_match(prev.0[rank], tag, mask));
            if i == k - 1 {
                let mb = prev.0[rank];
                lemma_first_match(mb, tag, mask);
                assert(spec_first_match(mb, tag, mask) == mb.len());
            }
            assert(out.1[i] == reqs[i]);
            assert(spec_no_match(out.0[rank], tag, mask));
        }
    }
}

/// A starved receive stays starved: every pending receive whose mailbox holds
/// no matching envelope is still pending afterwards, with still no match.
pub open spec fn keeps_starved(pre: Transport, post: Transport) -> bool {
    forall|rq: int|
        0 <= rq < pre.reqs().len() && (match pre.reqs()[rq] {
            ReqView::RecvPending { rank: rr, tag: tt, mask: mm, .. } => spec_no_match(
                pre.mailbox(rr),
                tt,
                mm,
            ),
            _ => false,
        }) ==> #[trigger] post.reqs()[rq] == pre.reqs()[rq] && (match pre.reqs()[rq] {
            ReqView::RecvPending { rank: rr, tag: tt, mask: mm, .. } => spec_no_match(
                post.mailbox(rr),
                tt,
                mm,
            ),
            _ => false,
        })
}

/// Nothing starves or wakes while submissions are only appended and every
/// mailbox stays as it is.
pub proof fn lemma_keeps_starved_frame(pre: Transport, post: Transport)
    requires
        pre.wf(),
        post.reqs().len() >= pre.reqs().len(),
        forall|q: int| 0 <= q < pre.reqs().len() ==> post.reqs()[q] == pre.reqs()[q],
        forall|r: int| 0 <= r < pre.spec_size() ==> post.mailbox(r) == pre.mailbox(r),
    ensures
        keeps_starved(pre, post),
{
    assert forall|rq: int|
        0 <= rq < pre.reqs().len() && (match pre.reqs()[rq] {
            ReqView::RecvPending { rank: rr, tag: tt, mask: mm, .. } => spec_no_match(
                pre.mailbox(rr),
                tt,
                mm,
            ),
            _ => false,
        }) implies #[trigger] post.reqs()[rq] == pre.reqs()[rq] && (match pre.reqs()[rq] {
        ReqView::RecvPending { rank: rr, tag: tt, mask: mm, .. } => spec_no_match(
            post.mailbox(rr),
            tt,
            mm,
        ),
        _ => false,
    }) by {
        match pre.reqs()[rq] {
            ReqView::RecvPending { rank: rr, tag: tt, mask: mm, cap } => {
                assert(0 <= rr < pre.spec_size());
                assert(post.mailbox(rr) == pre.mailbox(rr));
            },
            _ => {},
        }
    }
}

/// A matching pass keeps starved receives starved.
pub proof fn lemma_keeps_starved_progress(pre: Transport, post: Transport)
    requires
        pre.wf(),
        post.spec_size() == pre.spec_size(),
        post.reqs() == spec_sweep(
            mailboxes_view(pre),
            pre.reqs(),
            pre.reqs().len() as int,
        ).1,
        mailboxes_view(post) == spec_sweep(
            mailboxes_view(pre),
            pre.reqs(),
            pre.reqs().len() as int,
        ).0,
    ensures
        keeps_starved(pre, post),
{
    let mbs = mailboxes_view(pre);
    let reqs = pre.reqs();
    let n = reqs.len() as int;
    assert forall|rq: int|
        0 <= rq < pre.reqs().len() && (match pre.reqs()[rq] {
            ReqView::RecvPending { rank: rr, tag: tt, mask: mm, .. } => spec_no_match(
                pre.mailbox(rr),
                tt,
                mm,
            ),
            _ => false,
        }) implies #[trigger] post.reqs()[rq] == pre.reqs()[rq] && (match pre.reqs()[rq] {
        ReqView::RecvPending { rank: rr, tag: tt, mask: mm, .. } => spec_no_match(
            post.mailbox(rr),
            tt,
            mm,
        ),
        _ => false,
    }) by {
        match pre.reqs()[rq] {
            ReqView::RecvPending { rank: rr, tag: tt, mask: mm, cap } => {
                assert(0 <= rr < pre.spec_size());
                assert(mbs[rr] == pre.mailbox(rr));
                lemma_sweep_pending_no_match(mbs, reqs, n, rq);
                assert(mailboxes_view(post)[rr] == post.mailbox(rr));
            },
            _ => {},
        }
    }
}

/// A receive a matching pass leaves pending is starved afterwards.
pub proof fn lemma_progress_stalled(pre: Transport, post: Transport, i: int)
    requires
        pre.wf(),
        post.spec_size() == pre.spec_size(),
        post.reqs() == spec_sweep(
            mailboxes_view(pre),
            pre.reqs(),
            pre.reqs().len() as int,
        ).1,
        mailboxes_view(post) == spec_sweep(
            mailboxes_view(pre),
            pre.reqs(),
            pre.reqs().len() as int,
        ).0,
        0 <= i < pre.reqs().len(),
        pre.reqs()[i] is RecvPending,
        post.reqs()[i] == pre.reqs()[i],
    ensures
        spec_no_match(
            post.mailbox(pre.reqs()[i]->RecvPending_rank),
            pre.reqs()[i]->RecvPending_tag,
            pre.reqs()[i]->RecvPending_mask,
        ),
{
    let mbs = mailboxes_view(pre);
    let reqs = pre.reqs();
    let n = reqs.len() as int;
    let rr = reqs[i]->RecvPending_rank;
    assert(0 <= rr < pre.spec_size());
    lemma_sweep_pending_no_match(mbs, reqs, n, i);
    assert(mailboxes_view(post)[rr] == post.mailbox(rr));
}

/// A sweep touches no submission at or past its bound.
pub proof fn lemma_sweep_frame(mbs: Seq<Seq<(u64, Seq<u8>)>>, reqs: Seq<ReqView>, k: int)
    requires
        0 <= k <= reqs.len(),
    ensures
        spec_sweep(mbs, reqs, k).1.len() == reqs.len(),
        forall|q: int| k <= q < reqs.len() ==> spec_sweep(mbs, reqs, k).1[q] == reqs[q],
    decreases k,
{
    if k > 0 {
        lemma_sweep_frame(mbs, reqs, k - 1);
    }
}

/// Concatenation of an ordered sequence of byte strings.
pub open spec fn spec_concat(parts: Seq<Seq<u8>>) -> Seq<u8>
    decreases parts.len(),
{
    if parts.len() == 0 {
        Seq::empty()
    } else {
        spec_concat(parts.drop_last()) + parts.last()
    }
}

/// Concatenating one more part appends it.
pub proof fn lemma_concat_take_snoc(parts: Seq<Seq<u8>>, k: int)
    requires
        0 <= k < parts.len(),
    ensures
        spec_concat(parts.take(k + 1)) == spec_concat(parts.take(k)) + parts[k],
{
    assert(parts.take(k + 1).drop_last() =~= parts.take(k));
}

/// The tag-matched transport of one world: per-rank mailboxes of in-flight
/// envelopes and the table of submissions.
pub struct Transport {
    size: usize,
    mailboxes: Vec<Vec<Envelope>>,
    reqs: Vec<TransportReq>,
}

impl Transport {
    /// Number of ranks.
    pub closed spec fn spec_size(self) -> int {
        self.size as int
    }

    /// The mailbox of one rank: the envelopes in flight to it, oldest first,
    /// each as a tag and a payload.
    pub closed spec fn mailbox(self, r: int) -> Seq<(u64, Seq<u8>)> {
        self.mailboxes@[r]@.map_values(|e: Envelope| (e.tag, e.payload@))
    }

    /// The submissions, oldest first.
    pub closed spec fn reqs(self) -> Seq<ReqView> {
        self.reqs@.map_values(|r: TransportReq| req_view(r))
    }

    /// One mailbox per rank; every pending receive watches a real rank.
    pub closed spec fn wf(self) -> bool {
        &&& self.mailboxes@.len() == self.size as int
        &&& forall|i: int|
            0 <= i < self.reqs().len() ==> ((#[trigger] self.reqs()[i]) matches
                ReqView::RecvPending { rank, .. } ==> 0 <= rank < self.size as int)
    }

    /// A fresh transport for `size` ranks, with empty mailboxes and no
    /// submissions.
    pub fn new(size: usize) -> (t: Transport)
        ensures
            t.wf(),
            t.spec_size() == size,
            t.reqs() =~= Seq::<ReqView>::empty(),
            forall|r: int| 0 <= r < size ==> t.mailbox(r) =~= Seq::<(u64, Seq<u8>)>::empty(),
    {
        let mut mailboxes: Vec<Vec<Envelope>> = Vec::new();
        let mut i: usize = 0;
        while i < size
            invariant
                i <= size,
                mailboxes@.len() == i,
                forall|r: int| 0 <= r < i ==> (#[trigger] mailboxes@[r])@.len() == 0,
            decreases size - i,
        {
            mailboxes.push(Vec::new());
            i += 1;
        }
        Transport { size, mailboxes, reqs: Vec::new() }
    }

    /// Number of ranks.
    pub fn size(&self) -> (r: usize)
        ensures
            r == self.spec_size(),
    {
        self.size
    }

    /// Submit a tagged send of one contiguous payload. The envelope joins the
    /// destination's mailbox and the send completes at once.
    pub fn send_tagged(&mut self, dest: usize, tag: u64, payload: Vec<u8>) -> (req: usize)
        requires
            old(self).wf(),
            0 <= dest < old(self).spec_size(),
        ensures
            final(self).wf(),
            final(self).spec_size() == old(self).spec_size(),
            req == old(self).reqs().len(),
            final(self).reqs() == old(self).reqs().push(ReqView::SendDone),
            final(self).mailbox(dest as int) == old(self).mailbox(dest as int).push(
                (tag, payload@),
            ),
            forall|r: int|
                0 <= r < old(self).spec_size() && r != dest ==> final(self).mailbox(r) == old(self).mailbox(r),
    {
        let ghost pre = self.mailboxes@[dest as int]@;
        let req = self.reqs.len();
        self.mailboxes[dest].push(Envelope { tag, payload });
        self.reqs.push(TransportReq::SendDone);
        proof {
            assert(self.reqs() =~= old(self).reqs().push(ReqView::SendDone));
            assert(self.mailbox(dest as int) =~= old(self).mailbox(dest as int).push(
                (tag, payload@),
            ));
        }
        req
    }

    /// Submit a tagged send of a vectored payload: the wire carries the
    /// concatenation of the parts, in order, with no framing between them.
    pub fn send_vectored(&mut self, dest: usize, tag: u64, iov: Vec<Vec<u8>>) -> (req: usize)
        requires
            old(self).wf(),
            0 <= dest < old(self).spec_size(),
            spec_concat(iov.deep_view()).len() <= usize::MAX,
        ensures
            final(self).wf(),
            final(self).spec_size() == old(self).spec_size(),
            req == old(self).reqs().len(),
            final(self).reqs() == old(self).reqs().push(ReqView::SendDone),
            final(self).mailbox(dest as int) == old(self).mailbox(dest as int).push(
                (tag, spec_concat(iov.deep_view())),
            ),
            forall|r: int|
                0 <= r < old(self).spec_size() && r != dest ==> final(self).mailbox(r) == old(self).mailbox(r),
    {
        let mut payload: Vec<u8> = Vec::new();
        let mut k: usize = 0;
        proof {
            assert(iov.deep_view().take(0) =~= Seq::<Seq<u8>>::empty());
            lemma_concat_len_bound(iov.deep_view(), 0);
        }
        while k < iov.len()
            invariant
                k <= iov@.len(),
                iov.deep_view().len() == iov@.len(),
                payload@ == spec_concat(iov.deep_view().take(k as int)),
                spec_concat(iov.deep_view()).len() <= usize::MAX,
            decreases iov@.len() - k,
        {
            payload.extend_from_slice(iov[k].as_slice());
            proof {
                lemma_concat_take_snoc(iov.deep_view(), k as int);
                assert(iov.deep_view()[k as int] == iov@[k as int]@);
            }
            k += 1;
        }
        proof {
            assert(iov.deep_view().take(iov@.len() as int) =~= iov.deep_view());
        }
        self.send_tagged(dest, tag, payload)
    }

    /// Post a tagged receive for a rank, with a match mask and a capacity.
    /// It stays pending until progress matches an envelope to it.
    pub fn recv_tagged(&mut self, rank: usize, tag: u64, mask: u64, cap: usize) -> (req: usize)
        requires
            old(self).wf(),
            0 <= rank < old(self).spec_size(),
        ensures
            final(self).wf(),
            final(self).spec_size() == old(self).spec_size(),
            req == old(self).reqs().len(),
            final(self).reqs() == old(self).reqs().push(
                ReqView::RecvPending { rank: rank as int, tag, mask, cap: cap as int },
            ),
            forall|r: int|
                0 <= r < old(self).spec_size() ==> final(self).mailbox(r) == old(self).mailbox(r),
    {
        let req = self.reqs.len();
        self.reqs.push(TransportReq::RecvPending { rank, tag, mask, cap });
        proof {
            assert(self.reqs() =~= old(self).reqs().push(
                ReqView::RecvPending { rank: rank as int, tag, mask, cap: cap as int },
            ));
        }
        req
    }

    /// Drive matching: each pending receive, in submission order, takes the
    /// oldest matching envelope of its rank's mailbox, if one is there; the
    /// delivered envelope leaves the mailbox, and nothing else changes. The
    /// whole pass is exactly the in-order composition of those steps,
    /// [`spec_sweep`]; settled submissions never change, and a pending
    /// receive settles only as [`req_settles`] allows.
    pub fn progress(&mut self)
        requires
            old(self).wf(),
        ensures
            final(self).wf(),
            final(self).spec_size() == old(self).spec_size(),
            final(self).reqs().len() == old(self).reqs().len(),
            mailboxes_view(*final(self)) == spec_sweep(
                mailboxes_view(*old(self)),
                old(self).reqs(),
                old(self).reqs().len() as int,
            ).0,
            final(self).reqs() == spec_sweep(
                mailboxes_view(*old(self)),
                old(self).reqs(),
                old(self).reqs().len() as int,
            ).1,
            forall|i: int|
                0 <= i < old(self).reqs().len() && (#[trigger] old(self).reqs()[i]).is_terminal()
                    ==> final(self).reqs()[i] == old(self).reqs()[i],
            forall|i: int|
                0 <= i < old(self).reqs().len() && !(#[trigger] old(
                    self,
                ).reqs()[i]).is_terminal() ==> req_settles(old(self).reqs()[i], final(self).reqs()[i]),
            forall|r: int, j: int|
                0 <= r < old(self).spec_size() && 0 <= j < final(self).mailbox(r).len()
                    ==> env_from(
                    mailboxes_view(*old(self)),
                    r,
                    #[trigger] final(self).mailbox(r)[j],
                ),
    {
        let ghost orig = *self;
        let ghost mbs0 = mailboxes_view(orig);
        let ghost reqs0 = orig.reqs();
        let n = self.reqs.len();
        let mut i: usize = 0;
        while i < n
            invariant
                self.wf(),
                n == self.reqs@.len(),
                i <= n,
                self.spec_size() == orig.spec_size(),
                self.reqs().len() == orig.reqs().len(),
                mbs0 == mailboxes_view(orig),
                reqs0 == orig.reqs(),
                n == reqs0.len(),
                mailboxes_view(*self) == spec_sweep(mbs0, reqs0, i as int).0,
                self.reqs() == spec_sweep(mbs0, reqs0, i as int).1,
                forall|q: int|
                    0 <= q < n && (#[trigger] orig.reqs()[q]).is_terminal() ==> self.reqs()[q]
                        == orig.reqs()[q],
                forall|q: int|
                    0 <= q < n && !(#[trigger] orig.reqs()[q]).is_terminal() ==> req_settles(
                        orig.reqs()[q],
                        self.reqs()[q],
                    ),
            decreases n - i,
        {
            proof {
                lemma_sweep_frame(mbs0, reqs0, i as int);
                assert(self.reqs()[i as int] == reqs0[i as int]);
            }
            let is_pending = match &self.reqs[i] {
                TransportReq::RecvPending { .. } => true,
                _ => false,
            };
            if is_pending {
                let ghost before = *self;
                self.match_one(i);
                proof {
                    let prev = spec_sweep(mbs0, reqs0, i as int);
                    let stepped = spec_settle(prev.0, prev.1[i as int]);
                    assert(mailboxes_view(*self) == stepped.0);
                    assert(self.reqs() =~= prev.1.update(i as int, stepped.1));
                }
            } else {
                proof {
                    let prev = spec_sweep(mbs0, reqs0, i as int);
                    let stepped = spec_settle(prev.0, prev.1[i as int]);
                    assert(stepped == (prev.0, prev.1[i as int]));
                    assert(self.reqs() =~= prev.1.update(i as int, stepped.1));
                }
            }
            i += 1;
        }
        proof {
            lemma_sweep_provenance(mbs0, reqs0, n as int);
            assert forall|r: int, j: int|
                0 <= r < orig.spec_size() && 0 <= j < self.mailbox(r).len() implies env_from(
                mbs0,
                r,
                #[trigger] self.mailbox(r)[j],
            ) by {
                assert(mailboxes_view(*self)[r] == self.mailbox(r));
                assert(env_from(mbs0, r, spec_sweep(mbs0, reqs0, n as int).0[r][j]));
            }
        }
    }

    /// Match one pending receive against its rank's mailbox: it takes the
    /// oldest matching envelope, which leaves the mailbox, and nothing else
    /// changes; with no match, nothing changes at all.
    fn match_one(&mut self, i: usize)
        requires
            old(self).wf(),
            0 <= i < old(self).reqs().len(),
            old(self).reqs()[i as int] is RecvPending,
        ensures
            final(self).wf(),
            final(self).spec_size() == old(self).spec_size(),
            final(self).reqs().len() == old(self).reqs().len(),
            forall|q: int|
                0 <= q < old(self).reqs().len() && q != i ==> final(self).reqs()[q] == old(
                    self,
                ).reqs()[q],
            req_settles(old(self).reqs()[i as int], final(self).reqs()[i as int]),
            ({
                let stepped = spec_settle(mailboxes_view(*old(self)), old(self).reqs()[i as int]);
                &&& mailboxes_view(*final(self)) == stepped.0
                &&& final(self).reqs() == old(self).reqs().update(i as int, stepped.1)
            }),
    {
        proof {
            assert(self.reqs@.len() == self.reqs().len());
        }
        let (rank, tag, mask, cap) = match &self.reqs[i] {
            TransportReq::RecvPending { rank, tag, mask, cap } => (*rank, *tag, *mask, *cap),
            _ => {
                proof {
                    assert(false);
                }
                return ;
            },
        };
        let ghost pre = *old(self);
        let ghost mb = pre.mailbox(rank as int);
        let mlen = self.mailboxes[rank].len();
        let mut j: usize = 0;
        while j < mlen
            invariant
                *self == pre,
                pre == *old(self),
                self.wf(),
                0 <= i < self.reqs@.len(),
                0 <= rank < self.spec_size(),
                self.reqs()[i as int] == (ReqView::RecvPending {
                    rank: rank as int,
                    tag,
                    mask,
                    cap: cap as int,
                }),
                mb == pre.mailbox(rank as int),
                mlen == self.mailbox(rank as int).len(),
                j <= mlen,
                forall|t: int| 0 <= t < j ==> !spec_matches(tag, mask, (#[trigger] mb[t]).0),
            decreases mlen - j,
        {
            let hit = tag_matches(tag, mask, self.mailboxes[rank][j].tag);
            if hit {
                proof {
                    lemma_first_match_at(mb, tag, mask, j as int);
                }
                let env = self.mailboxes[rank].remove(j);
                proof {
                    assert(mb[j as int] == (env.tag, env.payload@));
                    assert(self.mailbox(rank as int) =~= mb.remove(j as int));
                }
                if env.payload.len() <= cap {
                    self.reqs[i] = TransportReq::RecvDone {
                        payload: env.payload,
                        sender_tag: env.tag,
                    };
                } else {
                    self.reqs[i] = TransportReq::RecvError;
                }
                proof {
                    assert(self.reqs() =~= pre.reqs().update(
                        i as int,
                        req_view(self.reqs@[i as int]),
                    ));
                    let stepped = spec_settle(mailboxes_view(pre), pre.reqs()[i as int]);
                    assert(mailboxes_view(pre)[rank as int] == mb);
                    assert(mailboxes_view(*self) =~= stepped.0);
                    assert(req_view(self.reqs@[i as int]) == stepped.1);
                }
                return ;
            }
            j += 1;
        }
        proof {
            lemma_first_match(mb, tag, mask);
            assert(spec_first_match(mb, tag, mask) == mb.len());
            assert(mailboxes_view(pre)[rank as int] == mb);
            assert(mailboxes_view(*self) == spec_settle(
                mailboxes_view(pre),
                pre.reqs()[i as int],
            ).0);
            assert(self.reqs() =~= pre.reqs().update(i as int, pre.reqs()[i as int]));
        }
    }

    /// The status of one submission: sends and matched receives are complete,
    /// a pending receive is in progress, and a truncated receive is an error.
    pub fn req_status(&self, req: usize) -> (st: Status)
        requires
            self.wf(),
            0 <= req < self.reqs().len(),
        ensures
            st is Complete <==> (self.reqs()[req as int] is SendDone || self.reqs()[req as int]
                is RecvDone),
            st is InProgress <==> self.reqs()[req as int] is RecvPending,
            st is Error <==> self.reqs()[req as int] is RecvError,
    {
        match &self.reqs[req] {
            TransportReq::SendDone => Status::Complete,
            TransportReq::RecvPending { .. } => Status::InProgress,
            TransportReq::RecvDone { .. } => Status::Complete,
            TransportReq::RecvError => Status::Error("receive payload exceeded capacity".to_string()),
        }
    }

    /// A copy of the payload of a matched receive.
    pub fn payload_of(&self, req: usize) -> (r: Vec<u8>)
        requires
            self.wf(),
            0 <= req < self.reqs().len(),
            self.reqs()[req as int] is RecvDone,
        ensures
            r@ == self.reqs()[req as int]->RecvDone_payload,
    {
        match &self.reqs[req] {
            TransportReq::RecvDone { payload, .. } => crate::regions::copy_bytes(
                payload.as_slice(),
            ),
            _ => {
                proof {
                    assert(false);
                }
                Vec::new()
            },
        }
    }

    /// Probe a rank's mailbox for the oldest envelope matching a tag and
    /// mask, without removing it: something is reported exactly when a
    /// matching envelope is in flight, and what is reported is the oldest
    /// matching envelope's payload length and sender's wire tag.
    pub fn probe(&self, rank: usize, tag: u64, mask: u64) -> (r: Option<(usize, u64)>)
        requires
            self.wf(),
            0 <= rank < self.spec_size(),
        ensures
            ({
                let mb = self.mailbox(rank as int);
                let j = spec_first_match(mb, tag, mask);
                &&& (r is Some <==> j < mb.len())
                &&& (r matches Some(p) ==> p.0 == mb[j].1.len() && p.1 == mb[j].0)
            }),
    {
        let ghost mb = self.mailbox(rank as int);
        let mlen = self.mailboxes[rank].len();
        let mut j: usize = 0;
        while j < mlen
            invariant
                self.wf(),
                0 <= rank < self.spec_size(),
                mb == self.mailbox(rank as int),
                mlen == mb.len(),
                j <= mlen,
                forall|t: int| 0 <= t < j ==> !spec_matches(tag, mask, (#[trigger] mb[t]).0),
            decreases mlen - j,
        {
            let hit = tag_matches(tag, mask, self.mailboxes[rank][j].tag);
            if hit {
                proof {
                    lemma_first_match_at(mb, tag, mask, j as int);
                }
                return Some((self.mailboxes[rank][j].payload.len(), self.mailboxes[rank][j].tag));
            }
            j += 1;
        }
        proof {
            lemma_first_match(mb, tag, mask);
        }
        None
    }
}

/// How one transport value may grow out of another across any sequence of
/// operations: the world keeps its size, submissions are only appended, a
/// settled submission never changes, and a pending receive only settles as
/// [`req_settles`] allows.
pub open spec fn evolves(pre: Transport, post: Transport) -> bool {
    &&& post.spec_size() == pre.spec_size()
    &&& post.reqs().len() >= pre.reqs().len()
    &&& forall|i: int|
        0 <= i < pre.reqs().len() && (#[trigger] pre.reqs()[i]).is_terminal() ==> post.reqs()[i]
            == pre.reqs()[i]
    &&& forall|i: int|
        0 <= i < pre.reqs().len() && !(#[trigger] pre.reqs()[i]).is_terminal() ==> req_settles(
            pre.reqs()[i],
            post.reqs()[i],
        )
}

/// Evolution is transitive.
pub proof fn lemma_evolves_trans(a: Transport, b: Transport, c: Transport)
    requires
        evolves(a, b),
        evolves(b, c),
    ensures
        evolves(a, c),
{
    assert forall|i: int|
        0 <= i < a.reqs().len() && !(#[trigger] a.reqs()[i]).is_terminal() implies req_settles(
        a.reqs()[i],
        c.reqs()[i],
    ) by {
        if b.reqs()[i].is_terminal() {
            assert(c.reqs()[i] == b.reqs()[i]);
        }
    }
}

/// Partial concatenations never grow past the whole.
pub proof fn lemma_concat_len_bound(parts: Seq<Seq<u8>>, k: int)
    requires
        0 <= k <= parts.len(),
    ensures
        spec_concat(parts.take(k)).len() <= spec_concat(parts).len(),
    decreases parts.len() - k,
{
    if k < parts.len() {
        lemma_concat_take_snoc(parts, k);
        lemma_concat_len_bound(parts, k + 1);
    } else {
        assert(parts.take(k) =~= parts);
    }
}

} // verus!
