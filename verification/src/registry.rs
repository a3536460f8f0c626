//! The request registry.
//!
//! A dense vector of optional message slots together with a free-list of
//! vacated indices. A handle is the index of a slot; it stays valid, and no
//! other handle moves, until the message is removed. Removal returns the
//! slot's index to the free-list, from whose end the next addition takes it.
use vstd::prelude::*;

verus! {

/// The slot table after an addition, the free-list after it, and the handle
/// the addition yields: the last free index if one exists, else a fresh slot
/// at the end.
pub open spec fn model_add<M>(slots: Seq<Option<M>>, free: Seq<usize>, m: M) -> (
    Seq<Option<M>>,
    Seq<usize>,
    int,
) {
    if free.len() > 0 {
        (slots.update(free.last() as int, Some(m)), free.drop_last(), free.last() as int)
    } else {
        (slots.push(Some(m)), free, slots.len() as int)
    }
}

/// The slot table and free-list after a removal: the slot is cleared and its
/// index goes to the end of the free-list.
pub open spec fn model_remove<M>(slots: Seq<Option<M>>, free: Seq<usize>, h: int) -> (
    Seq<Option<M>>,
    Seq<usize>,
) {
    (slots.update(h, Option::<M>::None), free.push(h as usize))
}

/// A process-local table of in-flight messages keyed by opaque handle.
pub struct Registry<M> {
    slots: Vec<Option<M>>,
    free: Vec<usize>,
}

impl<M> Registry<M> {
    /// The slot table.
    pub closed spec fn slots(self) -> Seq<Option<M>> {
        self.slots@
    }

    /// The free-list of vacated slot indices.
    pub closed spec fn free(self) -> Seq<usize> {
        self.free@
    }

    /// Every free index names a vacant slot, and no index is free twice.
    pub open spec fn wf(self) -> bool {
        &&& forall|i: int|
            0 <= i < self.free().len() ==> (#[trigger] self.free()[i]) < self.slots().len()
                && self.slots()[self.free()[i] as int] is None
        &&& forall|i: int, j: int|
            0 <= i < j < self.free().len() ==> self.free()[i] != self.free()[j]
    }

    /// A live handle: it indexes an occupied slot.
    pub open spec fn occupied(self, h: int) -> bool {
        0 <= h < self.slots().len() && self.slots()[h] is Some
    }

    /// The message a live handle indexes.
    pub open spec fn value_at(self, h: int) -> M
        recommends
            self.occupied(h),
    {
        self.slots()[h]->Some_0
    }

    /// Whether an index sits on the free-list.
    pub open spec fn in_free(self, h: int) -> bool {
        exists|i: int| 0 <= i < self.free().len() && self.free()[i] == h
    }

    /// An empty registry.
    pub fn new() -> (r: Registry<M>)
        ensures
            r.wf(),
            r.slots() =~= Seq::<Option<M>>::empty(),
            r.free() =~= Seq::<usize>::empty(),
    {
        Registry { slots: Vec::new(), free: Vec::new() }
    }

    /// Number of slots, occupied or not.
    pub fn capacity(&self) -> (r: usize)
        ensures
            r == self.slots().len(),
    {
        self.slots.len()
    }

    /// Whether a handle is live.
    pub fn contains(&self, h: usize) -> (r: bool)
        ensures
            r == self.occupied(h as int),
    {
        h < self.slots.len() && self.slots[h].is_some()
    }

    /// Add a message, popping a free index or extending the table. Every
    /// other slot keeps its value, so existing handles stay stable.
    pub fn add(&mut self, m: M) -> (h: usize)
        requires
            old(self).wf(),
            old(self).slots().len() < usize::MAX,
        ensures
            final(self).wf(),
            final(self).slots() == model_add(old(self).slots(), old(self).free(), m).0,
            final(self).free() == model_add(old(self).slots(), old(self).free(), m).1,
            h as int == model_add(old(self).slots(), old(self).free(), m).2,
            final(self).occupied(h as int),
            final(self).value_at(h as int) == m,
            !old(self).occupied(h as int),
            forall|i: int|
                0 <= i < old(self).slots().len() && i != h ==> final(self).slots()[i] == old(self).slots()[i],
    {
        let ghost gslots = self.slots@;
        let ghost gfree = self.free@;
        if let Some(i) = self.free.pop() {
            proof {
                assert(gfree[gfree.len() - 1] == i);
                assert(self.slots@[i as int] is None);
            }
            self.slots[i] = Some(m);
            proof {
                assert(self.free@ =~= gfree.drop_last());
                assert(self.slots@ =~= gslots.update(i as int, Some(m)));
            }
            i
        } else {
            let i = self.slots.len();
            self.slots.push(Some(m));
            proof {
                assert(gfree.len() == 0);
                assert(self.slots@ =~= gslots.push(Some(m)));
            }
            i
        }
    }

    /// Remove a live message, clearing its slot and returning the index to
    /// the free-list. Every other slot keeps its value.
    pub fn remove(&mut self, h: usize) -> (m: M)
        requires
            old(self).wf(),
            old(self).occupied(h as int),
        ensures
            final(self).wf(),
            m == old(self).value_at(h as int),
            final(self).slots() == model_remove(old(self).slots(), old(self).free(), h as int).0,
            final(self).free() == model_remove(old(self).slots(), old(self).free(), h as int).1,
            !final(self).occupied(h as int),
            forall|i: int|
                0 <= i < old(self).slots().len() && i != h ==> final(self).slots()[i] == old(self).slots()[i],
    {
        let ghost gslots = self.slots@;
        proof {
            assert(!old(self).in_free(h as int));
        }
        let mut taken: Option<M> = None;
        core::mem::swap(&mut self.slots[h], &mut taken);
        self.free.push(h);
        proof {
            assert(self.slots@ =~= gslots.update(h as int, Option::<M>::None));
        }
        taken.unwrap()
    }

    /// Take a live message out for processing, leaving its slot vacant but
    /// not yet reusable; pair with [`Registry::put`] or [`Registry::release`].
    pub fn take(&mut self, h: usize) -> (m: M)
        requires
            old(self).wf(),
            old(self).occupied(h as int),
            !old(self).in_free(h as int),
        ensures
            final(self).wf(),
            m == old(self).value_at(h as int),
            final(self).slots() == old(self).slots().update(h as int, Option::<M>::None),
            final(self).free() == old(self).free(),
            !final(self).in_free(h as int),
    {
        let ghost gslots = self.slots@;
        let mut taken: Option<M> = None;
        core::mem::swap(&mut self.slots[h], &mut taken);
        proof {
            assert(self.slots@ =~= gslots.update(h as int, Option::<M>::None));
        }
        taken.unwrap()
    }

    /// Return a message taken with [`Registry::take`] to its slot.
    pub fn put(&mut self, h: usize, m: M)
        requires
            old(self).wf(),
            0 <= h < old(self).slots().len(),
            old(self).slots()[h as int] is None,
            !old(self).in_free(h as int),
        ensures
            final(self).wf(),
            final(self).slots() == old(self).slots().update(h as int, Some(m)),
            final(self).free() == old(self).free(),
    {
        let ghost gslots = self.slots@;
        self.slots[h] = Some(m);
        proof {
            assert(self.slots@ =~= gslots.update(h as int, Some(m)));
        }
    }

    /// Give a vacated slot's index back to the free-list.
    pub fn release(&mut self, h: usize)
        requires
            old(self).wf(),
            0 <= h < old(self).slots().len(),
            old(self).slots()[h as int] is None,
            !old(self).in_free(h as int),
        ensures
            final(self).wf(),
            final(self).slots() == old(self).slots(),
            final(self).free() == old(self).free().push(h),
    {
        self.free.push(h);
    }
}

/// Handle stability. After two additions, the removal of the first handle and
/// one more addition, the removed handle is reused for the new message, and
/// no slot of any other live handle changes its value at any step.
pub proof fn lemma_handle_reuse<M>(
    slots: Seq<Option<M>>,
    free: Seq<usize>,
    m1: M,
    m2: M,
    m3: M,
)
    requires
        slots.len() < usize::MAX,
        forall|i: int| 0 <= i < free.len() ==> (#[trigger] free[i]) < slots.len(),
    ensures
        ({
            let (s1, f1, h1) = model_add(slots, free, m1);
            let (s2, f2, h2) = model_add(s1, f1, m2);
            let (s3, f3) = model_remove(s2, f2, h1);
            let (s4, f4, h4) = model_add(s3, f3, m3);
            &&& h4 == h1
            &&& s4[h4] == Some(m3)
            &&& forall|i: int| 0 <= i < s3.len() && i != h1 ==> s4[i] == s3[i]
            &&& forall|i: int| 0 <= i < s2.len() && i != h1 ==> s3[i] == s2[i]
        }),
{
    let (s1, f1, h1) = model_add(slots, free, m1);
    let (s2, f2, h2) = model_add(s1, f1, m2);
    let (s3, f3) = model_remove(s2, f2, h1);
    assert(f3.last() == h1 as usize);
    assert(0 <= h1 < s2.len());
}

} // verus!
