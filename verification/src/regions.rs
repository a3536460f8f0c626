//! A memory-regions-only datatype.
//!
//! [`RegionBuffer`] holds an ordered sequence of byte regions. As a message
//! payload it streams nothing: its packed prefix is empty and the regions go
//! on the wire verbatim, in enumeration order. On receive, each region's
//! bytes are delivered back one region at a time.
use vstd::prelude::*;
use crate::datatype::{
    DatatypeError, DatatypeResult, MessageBuffer, MessageCount, PackMethod, PackState, PackedSize,
    UnpackMethod, UnpackState,
};

verus! {

/// Copy a byte slice into a fresh vector.
pub fn copy_bytes(src: &[u8]) -> (r: Vec<u8>)
    ensures
        r@ == src@,
{
    let mut out: Vec<u8> = Vec::new();
    out.extend_from_slice(src);
    proof {
        assert(out@ =~= src@);
    }
    out
}

/// An ordered sequence of byte regions transferred without transformation.
pub struct RegionBuffer(pub Vec<Vec<u8>>);

impl RegionBuffer {
    /// The regions as mathematical sequences.
    pub open spec fn rows(&self) -> Seq<Seq<u8>> {
        self.0@.map_values(|v: Vec<u8>| v@)
    }
}

impl MessageCount for RegionBuffer {
    /// For the regions datatype the count is the number of regions.
    fn count(&self) -> (r: usize)
        ensures
            r == self.rows().len(),
    {
        self.0.len()
    }
}

impl MessageBuffer for RegionBuffer {
    open spec fn has_pack(&self) -> bool {
        true
    }

    open spec fn contig(&self) -> Seq<u8> {
        Seq::empty()
    }

    open spec fn pack_prefix(&self) -> Seq<u8> {
        Seq::empty()
    }

    open spec fn pack_regions(&self) -> Seq<Seq<u8>> {
        self.rows()
    }

    fn pack(&self) -> (r: Option<DatatypeResult<PackState>>) {
        let mut rows: Vec<Vec<u8>> = Vec::new();
        let mut k: usize = 0;
        while k < self.0.len()
            invariant
                k <= self.0@.len(),
                rows@.len() == k,
                forall|t: int| 0 <= t < k ==> (#[trigger] rows@[t]@) == self.0@[t]@,
            decreases self.0@.len() - k,
        {
            rows.push(copy_bytes(self.0[k].as_slice()));
            k += 1;
        }
        let st = RegionPackState { rows };
        proof {
            assert(st.prefix() =~= self.pack_prefix());
            assert(st.regions() =~= self.pack_regions());
        }
        Some(Ok(PackState::Regions(st)))
    }

    fn unpack(&mut self) -> (r: Option<DatatypeResult<UnpackState>>) {
        let mut lens: Vec<usize> = Vec::new();
        let mut rows: Vec<Vec<u8>> = Vec::new();
        let mut k: usize = 0;
        while k < self.0.len()
            invariant
                k <= self.0@.len(),
                lens@.len() == k,
                rows@.len() == k,
                forall|t: int| 0 <= t < k ==> lens@[t] == (#[trigger] self.0@[t]@).len(),
            decreases self.0@.len() - k,
        {
            lens.push(self.0[k].len());
            rows.push(Vec::new());
            k += 1;
        }
        let st = RegionUnpackState { lens, rows };
        proof {
            assert(st.taken() =~= Seq::<u8>::empty());
            assert(st.spec_region_lens() =~= self.pack_regions().map_values(
                |s: Seq<u8>| s.len() as int,
            ));
        }
        Some(Ok(UnpackState::Regions(st)))
    }

    fn contig_bytes(&self) -> (r: Vec<u8>) {
        proof {
            assert(Seq::<u8>::empty() =~= self.contig());
        }
        Vec::new()
    }
}

/// Pack method of the regions datatype: an empty prefix, the regions as they
/// are.
pub struct RegionPackState {
    /// The regions, in enumeration order.
    pub rows: Vec<Vec<u8>>,
}

impl PackedSize for RegionPackState {
    open spec fn spec_packed_size(&self) -> int {
        0
    }

    fn packed_size(&self) -> (r: DatatypeResult<usize>)
        ensures
            r is Ok,
    {
        Ok(0)
    }
}

impl PackMethod for RegionPackState {
    open spec fn prefix(&self) -> Seq<u8> {
        Seq::empty()
    }

    open spec fn regions(&self) -> Seq<Seq<u8>> {
        self.rows@.map_values(|v: Vec<u8>| v@)
    }

    proof fn prefix_size(&self) {
    }

    fn pack(&mut self, offset: usize, dst: &mut Vec<u8>, dst_cap: usize) -> (r: DatatypeResult<
        usize,
    >)
        ensures
            r matches Ok(used) && used == dst_cap,
    {
        // The prefix is empty, so packing is never asked for.
        Err(DatatypeError::PackError)
    }

    fn memory_regions(&self) -> (r: DatatypeResult<Vec<Vec<u8>>>)
        ensures
            r is Ok,
    {
        let mut out: Vec<Vec<u8>> = Vec::new();
        let mut k: usize = 0;
        while k < self.rows.len()
            invariant
                k <= self.rows@.len(),
                out@.len() == k,
                forall|t: int| 0 <= t < k ==> (#[trigger] out@[t]@) == self.rows@[t]@,
            decreases self.rows@.len() - k,
        {
            out.push(copy_bytes(self.rows[k].as_slice()));
            k += 1;
        }
        proof {
            assert(out.deep_view() =~~= self.regions());
        }
        Ok(out)
    }
}

/// Unpack method of the regions datatype: region contents are received one
/// region at a time; no prefix bytes arrive.
pub struct RegionUnpackState {
    /// Expected length of each region.
    pub lens: Vec<usize>,
    /// Received contents, one entry per region.
    pub rows: Vec<Vec<u8>>,
}

impl RegionUnpackState {
    /// The received region contents, padded with empty entries where nothing
    /// has arrived.
    pub open spec fn data_view(&self) -> Seq<Seq<u8>> {
        Seq::new(
            self.lens@.len(),
            |i: int|
                if 0 <= i < self.rows@.len() {
                    self.rows@[i]@
                } else {
                    Seq::empty()
                },
        )
    }

    /// Give out the received regions, one vector per region.
    pub fn into_rows(self) -> (r: Vec<Vec<u8>>)
        ensures
            r.deep_view() == self.region_data(),
    {
        let ghost orig = self.rows@;
        let ghost want_g = self.lens@.len();
        let mut rows = self.rows;
        let want = self.lens.len();
        while rows.len() > want
            invariant
                want == want_g,
                rows@.len() <= orig.len(),
                rows@.len() >= want || rows@.len() == orig.len(),
                forall|t: int| 0 <= t < rows@.len() ==> (#[trigger] rows@[t]) == orig[t],
            decreases rows@.len(),
        {
            let _ = rows.pop();
        }
        while rows.len() < want
            invariant
                want == want_g,
                rows@.len() <= want,
                rows@.len() >= orig.len() || rows@.len() >= want,
                forall|t: int|
                    0 <= t < rows@.len() && t < orig.len() ==> (#[trigger] rows@[t]) == orig[t],
                forall|t: int|
                    0 <= t < rows@.len() && t >= orig.len() ==> (#[trigger] rows@[t]@)
                        == Seq::<u8>::empty(),
            decreases want - rows@.len(),
        {
            rows.push(Vec::new());
        }
        proof {
            assert(rows.deep_view() =~~= self.region_data());
        }
        rows
    }
}

impl PackedSize for RegionUnpackState {
    open spec fn spec_packed_size(&self) -> int {
        0
    }

    fn packed_size(&self) -> (r: DatatypeResult<usize>)
        ensures
            r is Ok,
    {
        Ok(0)
    }
}

impl UnpackMethod for RegionUnpackState {
    open spec fn taken(&self) -> Seq<u8> {
        Seq::empty()
    }

    open spec fn spec_region_lens(&self) -> Seq<int> {
        self.lens@.map_values(|x: usize| x as int)
    }

    open spec fn region_data(&self) -> Seq<Seq<u8>> {
        self.data_view()
    }

    proof fn region_shape(&self) {
    }

    fn region_lens(&self) -> (r: DatatypeResult<Vec<usize>>)
        ensures
            r is Ok,
    {
        let mut out: Vec<usize> = Vec::new();
        let mut k: usize = 0;
        while k < self.lens.len()
            invariant
                k <= self.lens@.len(),
                out@.len() == k,
                forall|t: int| 0 <= t < k ==> out@[t] == self.lens@[t],
            decreases self.lens@.len() - k,
        {
            out.push(self.lens[k]);
            k += 1;
        }
        proof {
            assert(out@.map_values(|x: usize| x as int) =~= self.spec_region_lens());
        }
        Ok(out)
    }

    fn unpack(&mut self, offset: usize, src: &[u8]) -> (r: DatatypeResult<()>)
        ensures
            r is Ok,
            final(self).rows@.len() == old(self).rows@.len(),
    {
        proof {
            assert(old(self).taken() + src@ =~= old(self).taken());
        }
        Ok(())
    }

    fn write_region(&mut self, i: usize, data: &[u8]) -> (r: DatatypeResult<()>)
        ensures
            r is Ok,
            old(self).rows@.len() > i ==> final(self).rows@.len() == old(self).rows@.len(),
    {
        // Grow the content table up to the written region, so a write within
        // the declared regions always lands.
        while self.rows.len() <= i
            invariant
                i < old(self).lens@.len(),
                old(self).rows@.len() > i ==> self.rows@.len() == old(self).rows@.len(),
                self.lens == old(self).lens,
                forall|t: int|
                    0 <= t < self.rows@.len() && t < old(self).rows@.len() ==> (
                    #[trigger] self.rows@[t]) == old(self).rows@[t],
                forall|t: int|
                    0 <= t < self.rows@.len() && t >= old(self).rows@.len() ==> (
                    #[trigger] self.rows@[t]@) == Seq::<u8>::empty(),
                self.rows@.len() >= old(self).rows@.len(),
            decreases i + 1 - self.rows@.len(),
        {
            self.rows.push(Vec::new());
        }
        let got = copy_bytes(data);
        self.rows[i] = got;
        proof {
            assert(self.region_data() =~= old(self).region_data().update(i as int, data@));
        }
        Ok(())
    }
}

} // verus!
