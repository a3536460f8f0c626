//! A mixed datatype: a streamed fixed-size head per element, and one memory
//! region per element.
//!
//! [`StructVec`] holds three 32-bit scalars, one 64-bit scalar and a byte
//! array. An array of them goes on the wire as a streamed packed prefix made
//! of the 20-byte big-endian heads, element after element, followed by each
//! element's byte array as a memory region, in element order. The bulk thus
//! travels verbatim while the scalars are streamed — the reason the engine
//! concatenates a packed prefix with a region tail.
use vstd::prelude::*;
use crate::codec::{
    i32_be_byte, lemma_i32_be_round_trip, lemma_u64_be_round_trip, read_i32_be, read_u64_be,
    spec_be_i32, spec_be_u64, spec_i32_be, spec_u64_be, u64_be_byte,
};
use crate::datatype::{
    DatatypeError, DatatypeResult, MessageBuffer, MessageCount, PackMethod, PackState, PackedSize,
    UnpackMethod, UnpackState,
};
use crate::regions::copy_bytes;

verus! {

/// Bytes of one element's streamed head.
pub const HEAD_SIZE: usize = 20;

/// An element: three 32-bit scalars, one 64-bit scalar, and a byte array
/// that travels as a memory region.
pub struct StructVec {
    pub a: i32,
    pub b: i32,
    pub c: i32,
    pub d: u64,
    /// The bulk bytes, transferred verbatim as a region.
    pub data: Vec<u8>,
}

/// The 20 big-endian bytes of one element's head.
pub open spec fn spec_head(e: StructVec) -> Seq<u8> {
    spec_i32_be(e.a) + spec_i32_be(e.b) + spec_i32_be(e.c) + spec_u64_be(e.d)
}

/// The scalars held by 20 big-endian head bytes.
pub open spec fn spec_head_values(s: Seq<u8>) -> (i32, i32, i32, u64)
    recommends
        s.len() == HEAD_SIZE,
{
    (
        spec_be_i32(s.subrange(0, 4)),
        spec_be_i32(s.subrange(4, 8)),
        spec_be_i32(s.subrange(8, 12)),
        spec_be_u64(s.subrange(12, 20)),
    )
}

/// Reading back an element's head bytes yields its scalars: the pack/unpack
/// inverse of the mixed datatype's streamed part.
pub proof fn lemma_head_round_trip(e: StructVec)
    ensures
        spec_head(e).len() == HEAD_SIZE,
        spec_head_values(spec_head(e)) == (e.a, e.b, e.c, e.d),
{
    lemma_i32_be_round_trip(e.a);
    lemma_i32_be_round_trip(e.b);
    lemma_i32_be_round_trip(e.c);
    lemma_u64_be_round_trip(e.d);
    assert(spec_head(e).subrange(0, 4) =~= spec_i32_be(e.a));
    assert(spec_head(e).subrange(4, 8) =~= spec_i32_be(e.b));
    assert(spec_head(e).subrange(8, 12) =~= spec_i32_be(e.c));
    assert(spec_head(e).subrange(12, 20) =~= spec_u64_be(e.d));
}

/// The streamed prefix of an array of elements: the heads, element after
/// element.
pub open spec fn spec_encode_heads(s: Seq<StructVec>) -> Seq<u8>
    decreases s.len(),
{
    if s.len() == 0 {
        Seq::empty()
    } else {
        spec_head(s[0]) + spec_encode_heads(s.drop_first())
    }
}

/// The head stream takes 20 bytes per element.
pub proof fn lemma_encode_heads_len(s: Seq<StructVec>)
    ensures
        spec_encode_heads(s).len() == HEAD_SIZE * s.len(),
    decreases s.len(),
{
    if s.len() > 0 {
        lemma_encode_heads_len(s.drop_first());
        lemma_head_round_trip(s[0]);
    }
}

/// Each byte of the head stream is the corresponding byte of its element's
/// own head.
pub proof fn lemma_encode_heads_index(s: Seq<StructVec>, p: int)
    requires
        0 <= p < HEAD_SIZE * s.len(),
    ensures
        spec_encode_heads(s)[p] == spec_head(s[p / (HEAD_SIZE as int)])[p % (HEAD_SIZE as int)],
    decreases s.len(),
{
    lemma_encode_heads_len(s);
    lemma_head_round_trip(s[0]);
    if p < HEAD_SIZE {
        lemma_encode_heads_len(s.drop_first());
    } else {
        lemma_encode_heads_index(s.drop_first(), p - HEAD_SIZE);
        assert((p - 20) / 20 == p / 20 - 1 && (p - 20) % 20 == p % 20) by (nonlinear_arith)
            requires
                p >= 20,
        ;
    }
}

/// Each element's head occupies its own 20-byte stretch of the head stream.
pub proof fn lemma_encode_heads_slice(s: Seq<StructVec>, k: int)
    requires
        0 <= k < s.len(),
    ensures
        spec_encode_heads(s).subrange(HEAD_SIZE * k, HEAD_SIZE * k + HEAD_SIZE as int)
            == spec_head(s[k]),
{
    lemma_encode_heads_len(s);
    lemma_head_round_trip(s[k]);
    assert forall|q: int|
        0 <= q < HEAD_SIZE implies spec_encode_heads(s)[HEAD_SIZE * k + q] == spec_head(s[k])[q] by {
        lemma_encode_heads_index(s, HEAD_SIZE * k + q);
        assert((20 * k + q) / 20 == k && (20 * k + q) % 20 == q) by (nonlinear_arith)
            requires
                0 <= q < 20,
                k >= 0,
        ;
    }
    assert(spec_encode_heads(s).subrange(HEAD_SIZE * k, HEAD_SIZE * k + HEAD_SIZE as int)
        =~= spec_head(s[k]));
}

/// The pack/unpack inverse of the mixed datatype's streamed part, across a
/// whole array: the scalars read back from element `k`'s stretch of the head
/// stream are element `k`'s own.
pub proof fn lemma_struct_pack_unpack_inverse(elems: Seq<StructVec>, k: int)
    requires
        0 <= k < elems.len(),
    ensures
        spec_head_values(
            spec_encode_heads(elems).subrange(HEAD_SIZE * k, HEAD_SIZE * k + HEAD_SIZE as int),
        ) == (elems[k].a, elems[k].b, elems[k].c, elems[k].d),
{
    lemma_encode_heads_slice(elems, k);
    lemma_head_round_trip(elems[k]);
}

/// Copy one element: same scalars, same bytes.
fn copy_rec(e: &StructVec) -> (r: StructVec)
    ensures
        r.a == e.a,
        r.b == e.b,
        r.c == e.c,
        r.d == e.d,
        r.data@ == e.data@,
        spec_head(r) == spec_head(*e),
{
    StructVec { a: e.a, b: e.b, c: e.c, d: e.d, data: copy_bytes(e.data.as_slice()) }
}

/// Element sequences with the same heads have the same head stream.
pub proof fn lemma_encode_heads_congruence(s1: Seq<StructVec>, s2: Seq<StructVec>)
    requires
        s1.len() == s2.len(),
        forall|i: int| 0 <= i < s1.len() ==> spec_head(#[trigger] s1[i]) == spec_head(s2[i]),
    ensures
        spec_encode_heads(s1) == spec_encode_heads(s2),
    decreases s1.len(),
{
    if s1.len() > 0 {
        assert forall|i: int|
            0 <= i < s1.drop_first().len() implies spec_head(#[trigger] s1.drop_first()[i])
            == spec_head(s2.drop_first()[i]) by {
            assert(s1.drop_first()[i] == s1[i + 1]);
        }
        lemma_encode_heads_congruence(s1.drop_first(), s2.drop_first());
    }
}

/// An array of [`StructVec`] elements: the mixed streamed-plus-regions
/// message payload.
pub struct StructVecArray(pub Vec<StructVec>);

impl StructVecArray {
    /// The elements.
    pub open spec fn elems(&self) -> Seq<StructVec> {
        self.0@
    }
}

impl MessageCount for StructVecArray {
    /// For the mixed datatype the count is the number of elements.
    fn count(&self) -> (r: usize)
        ensures
            r == self.elems().len(),
    {
        self.0.len()
    }
}


impl MessageBuffer for StructVecArray {
    open spec fn has_pack(&self) -> bool {
        true
    }

    open spec fn contig(&self) -> Seq<u8> {
        Seq::empty()
    }

    open spec fn pack_prefix(&self) -> Seq<u8> {
        spec_encode_heads(self.elems())
    }

    open spec fn pack_regions(&self) -> Seq<Seq<u8>> {
        self.elems().map_values(|e: StructVec| e.data@)
    }

    fn pack(&self) -> (r: Option<DatatypeResult<PackState>>) {
        let mut elems: Vec<StructVec> = Vec::new();
        let mut k: usize = 0;
        while k < self.0.len()
            invariant
                k <= self.0@.len(),
                elems@.len() == k,
                forall|t: int|
                    0 <= t < k ==> spec_head(#[trigger] elems@[t]) == spec_head(self.0@[t])
                        && elems@[t].data@ == self.0@[t].data@,
            decreases self.0@.len() - k,
        {
            elems.push(copy_rec(&self.0[k]));
            k += 1;
        }
        let st = StructPackState { elems };
        proof {
            lemma_encode_heads_congruence(st.elems@, self.elems());
            assert(st.regions() =~= self.pack_regions());
        }
        Some(Ok(PackState::Structured(st)))
    }

    fn unpack(&mut self) -> (r: Option<DatatypeResult<UnpackState>>) {
        let mut lens: Vec<usize> = Vec::new();
        let mut rows: Vec<Vec<u8>> = Vec::new();
        let mut k: usize = 0;
        while k < self.0.len()
            invariant
                k <= self.0@.len(),
                lens@.len() == k,
                rows@.len() == k,
                forall|t: int| 0 <= t < k ==> lens@[t] == (#[trigger] self.0@[t].data@).len(),
            decreases self.0@.len() - k,
        {
            lens.push(self.0[k].data.len());
            rows.push(Vec::new());
            k += 1;
        }
        let st = StructUnpackState { lens, taken: Vec::new(), rows };
        proof {
            lemma_encode_heads_len(self.elems());
            assert(st.spec_region_lens() =~= self.pack_regions().map_values(
                |s: Seq<u8>| s.len() as int,
            ));
        }
        Some(Ok(UnpackState::Structured(st)))
    }

    fn contig_bytes(&self) -> (r: Vec<u8>) {
        proof {
            assert(Seq::<u8>::empty() =~= self.contig());
        }
        Vec::new()
    }
}

/// Pack method of the mixed datatype: the heads stream out as the packed
/// prefix and each element's bytes follow as one region, in element order.
pub struct StructPackState {
    /// The elements, in wire order.
    pub elems: Vec<StructVec>,
}

impl PackedSize for StructPackState {
    open spec fn spec_packed_size(&self) -> int {
        HEAD_SIZE * self.elems@.len()
    }

    fn packed_size(&self) -> (r: DatatypeResult<usize>)
        ensures
            r is Ok <==> self.spec_packed_size() <= usize::MAX,
    {
        proof {
            assert(self.elems@.len() <= usize::MAX as int / (HEAD_SIZE as int) <==> (HEAD_SIZE
                as int) * self.elems@.len() <= usize::MAX) by (nonlinear_arith);
        }
        if self.elems.len() <= usize::MAX / HEAD_SIZE {
            Ok(HEAD_SIZE * self.elems.len())
        } else {
            Err(DatatypeError::PackedSizeError)
        }
    }
}

impl PackMethod for StructPackState {
    open spec fn prefix(&self) -> Seq<u8> {
        spec_encode_heads(self.elems@)
    }

    open spec fn regions(&self) -> Seq<Seq<u8>> {
        self.elems@.map_values(|e: StructVec| e.data@)
    }

    proof fn prefix_size(&self) {
        lemma_encode_heads_len(self.elems@);
    }

    fn pack(&mut self, offset: usize, dst: &mut Vec<u8>, dst_cap: usize) -> (r: DatatypeResult<
        usize,
    >)
        ensures
            r matches Ok(used) && used == dst_cap,
    {
        proof {
            lemma_encode_heads_len(self.elems@);
        }
        let ghost dst0 = old(dst)@;
        let ghost elems0 = self.elems@;
        let mut i: usize = 0;
        while i < dst_cap
            invariant
                i <= dst_cap,
                self.elems@ == elems0,
                self.prefix().len() == HEAD_SIZE * elems0.len(),
                offset + dst_cap <= HEAD_SIZE * elems0.len(),
                offset + dst_cap <= usize::MAX,
                dst@ == dst0 + self.prefix().subrange(offset as int, offset as int + i as int),
                dst0.len() == offset,
            decreases dst_cap - i,
        {
            let p = offset + i;
            proof {
                assert(p / 20 < elems0.len() && p % 20 < 20 && p / 20 >= 0) by (nonlinear_arith)
                    requires
                        p < 20 * elems0.len(),
                        p >= 0,
                ;
            }
            let e = p / HEAD_SIZE;
            let q = p % HEAD_SIZE;
            let b = head_byte(&self.elems[e], q);
            dst.push(b);
            proof {
                lemma_encode_heads_index(self.elems@, p as int);
                assert(dst@ =~= dst0 + self.prefix().subrange(
                    offset as int,
                    offset as int + i as int + 1,
                ));
            }
            i += 1;
        }
        Ok(dst_cap)
    }

    fn memory_regions(&self) -> (r: DatatypeResult<Vec<Vec<u8>>>)
        ensures
            r is Ok,
    {
        let mut out: Vec<Vec<u8>> = Vec::new();
        let mut k: usize = 0;
        while k < self.elems.len()
            invariant
                k <= self.elems@.len(),
                out@.len() == k,
                forall|t: int| 0 <= t < k ==> (#[trigger] out@[t]@) == self.elems@[t].data@,
            decreases self.elems@.len() - k,
        {
            out.push(copy_bytes(self.elems[k].data.as_slice()));
            k += 1;
        }
        proof {
            assert(out.deep_view() =~~= self.regions());
        }
        Ok(out)
    }
}

/// The byte at a given position of one element's head.
fn head_byte(e: &StructVec, q: usize) -> (r: u8)
    requires
        q < HEAD_SIZE,
    ensures
        r == spec_head(*e)[q as int],
{
    if q < 4 {
        i32_be_byte(e.a, q)
    } else if q < 8 {
        i32_be_byte(e.b, q - 4)
    } else if q < 12 {
        i32_be_byte(e.c, q - 8)
    } else {
        u64_be_byte(e.d, q - 12)
    }
}

/// Unpack method of the mixed datatype: head bytes accumulate from the
/// streamed prefix, region contents arrive one element at a time;
/// [`StructUnpackState::into_array`] then rebuilds the elements.
pub struct StructUnpackState {
    /// Expected length of each element's region.
    pub lens: Vec<usize>,
    /// Head-stream bytes received so far.
    pub taken: Vec<u8>,
    /// Received region contents, one entry per element.
    pub rows: Vec<Vec<u8>>,
}

impl StructUnpackState {
    /// The received region contents, padded with empty entries where nothing
    /// has arrived.
    pub open spec fn data_view(&self) -> Seq<Seq<u8>> {
        Seq::new(
            self.lens@.len(),
            |i: int|
                if 0 <= i < self.rows@.len() {
                    self.rows@[i]@
                } else {
                    Seq::empty()
                },
        )
    }

    /// Rebuild the elements once the whole head stream has been consumed:
    /// element `k` gets the scalars of head `k` and the bytes of region `k`.
    pub fn into_array(self) -> (r: StructVecArray)
        requires
            self.taken@.len() == HEAD_SIZE * self.lens@.len(),
            self.rows@.len() == self.lens@.len(),
        ensures
            r.elems().len() == self.lens@.len(),
            forall|k: int|
                0 <= k < r.elems().len() ==> {
                    let e = #[trigger] r.elems()[k];
                    &&& (e.a, e.b, e.c, e.d) == spec_head_values(
                        self.taken@.subrange(
                            HEAD_SIZE * k,
                            HEAD_SIZE * k + HEAD_SIZE as int,
                        ),
                    )
                    &&& e.data@ == self.region_data()[k]
                },
    {
        let n = self.lens.len();
        let taken_len = self.taken.len();
        let mut elems: Vec<StructVec> = Vec::new();
        let mut k: usize = 0;
        let mut rows = self.rows;
        let ghost rows0 = rows@;
        while k < n
            invariant
                k <= n,
                n == self.lens@.len(),
                taken_len == self.taken@.len(),
                self.taken@.len() == HEAD_SIZE * n,
                elems@.len() == k,
                rows0.len() == n,
                rows@ == rows0.skip(k as int),
                forall|t: int|
                    0 <= t < k ==> {
                        let e = #[trigger] elems@[t];
                        &&& (e.a, e.b, e.c, e.d) == spec_head_values(
                            self.taken@.subrange(
                                HEAD_SIZE * t,
                                HEAD_SIZE * t + HEAD_SIZE as int,
                            ),
                        )
                        &&& e.data@ == rows0[t]@
                    },
            decreases n - k,
        {
            proof {
                assert(20 * k + 20 <= 20 * n) by (nonlinear_arith)
                    requires
                        k < n,
                ;
            }
            let base = HEAD_SIZE * k;
            let a = read_i32_be(self.taken.as_slice(), base);
            let b = read_i32_be(self.taken.as_slice(), base + 4);
            let c = read_i32_be(self.taken.as_slice(), base + 8);
            let d = read_u64_be(self.taken.as_slice(), base + 12);
            let data = rows.remove(0);
            proof {
                let head = self.taken@.subrange(
                    HEAD_SIZE * k as int,
                    HEAD_SIZE * k as int + HEAD_SIZE as int,
                );
                assert(head.subrange(0, 4) =~= self.taken@.subrange(
                    base as int,
                    base as int + 4,
                ));
                assert(head.subrange(4, 8) =~= self.taken@.subrange(
                    base as int + 4,
                    base as int + 8,
                ));
                assert(head.subrange(8, 12) =~= self.taken@.subrange(
                    base as int + 8,
                    base as int + 12,
                ));
                assert(head.subrange(12, 20) =~= self.taken@.subrange(
                    base as int + 12,
                    base as int + 20,
                ));
                assert(data == rows0[k as int]);
                assert(rows@ =~= rows0.skip(k as int + 1));
            }
            elems.push(StructVec { a, b, c, d, data });
            k += 1;
        }
        let arr = StructVecArray(elems);
        proof {
            assert forall|k2: int| 0 <= k2 < arr.elems().len() implies (#[trigger] arr.elems()[k2]).data@
                == self.region_data()[k2] by {
                assert(arr.elems()[k2].data@ == rows0[k2]@);
            }
        }
        arr
    }
}

impl PackedSize for StructUnpackState {
    open spec fn spec_packed_size(&self) -> int {
        HEAD_SIZE * self.lens@.len()
    }

    fn packed_size(&self) -> (r: DatatypeResult<usize>)
        ensures
            r is Ok <==> self.spec_packed_size() <= usize::MAX,
    {
        proof {
            assert(self.lens@.len() <= usize::MAX as int / (HEAD_SIZE as int) <==> (HEAD_SIZE
                as int) * self.lens@.len() <= usize::MAX) by (nonlinear_arith);
        }
        if self.lens.len() <= usize::MAX / HEAD_SIZE {
            Ok(HEAD_SIZE * self.lens.len())
        } else {
            Err(DatatypeError::PackedSizeError)
        }
    }
}

impl UnpackMethod for StructUnpackState {
    open spec fn taken(&self) -> Seq<u8> {
        self.taken@
    }

    open spec fn spec_region_lens(&self) -> Seq<int> {
        self.lens@.map_values(|x: usize| x as int)
    }

    open spec fn region_data(&self) -> Seq<Seq<u8>> {
        self.data_view()
    }

    proof fn region_shape(&self) {
    }

    fn region_lens(&self) -> (r: DatatypeResult<Vec<usize>>)
        ensures
            r is Ok,
    {
        let mut out: Vec<usize> = Vec::new();
        let mut k: usize = 0;
        while k < self.lens.len()
            invariant
                k <= self.lens@.len(),
                out@.len() == k,
                forall|t: int| 0 <= t < k ==> out@[t] == self.lens@[t],
            decreases self.lens@.len() - k,
        {
            out.push(self.lens[k]);
            k += 1;
        }
        proof {
            assert(out@.map_values(|x: usize| x as int) =~= self.spec_region_lens());
        }
        Ok(out)
    }

    fn unpack(&mut self, offset: usize, src: &[u8]) -> (r: DatatypeResult<()>)
        ensures
            r is Ok,
            final(self).lens@ == old(self).lens@,
            final(self).rows@.len() == old(self).rows@.len(),
    {
        self.taken.extend_from_slice(src);
        Ok(())
    }

    fn write_region(&mut self, i: usize, data: &[u8]) -> (r: DatatypeResult<()>)
        ensures
            r is Ok,
            old(self).rows@.len() > i ==> final(self).rows@.len() == old(self).rows@.len(),
    {
        // Grow the content table up to the written region, so a write within
        // the declared regions always lands.
        while self.rows.len() <= i
            invariant
                i < old(self).lens@.len(),
                old(self).rows@.len() > i ==> self.rows@.len() == old(self).rows@.len(),
                self.lens == old(self).lens,
                self.taken == old(self).taken,
                forall|t: int|
                    0 <= t < self.rows@.len() && t < old(self).rows@.len() ==> (
                    #[trigger] self.rows@[t]) == old(self).rows@[t],
                forall|t: int|
                    0 <= t < self.rows@.len() && t >= old(self).rows@.len() ==> (
                    #[trigger] self.rows@[t]@) == Seq::<u8>::empty(),
                self.rows@.len() >= old(self).rows@.len(),
            decreases i + 1 - self.rows@.len(),
        {
            self.rows.push(Vec::new());
        }
        let got = copy_bytes(data);
        self.rows[i] = got;
        proof {
            assert(self.region_data() =~= old(self).region_data().update(i as int, data@));
        }
        Ok(())
    }
}

} // verus!
