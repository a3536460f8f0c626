//! A jagged sequence of 32-bit integers and its streaming datatype.
//!
//! [`ComplexVec`] is a vector of sub-vectors. As a message payload it is a
//! streaming datatype: the pack method puts every element on the wire in
//! order, big-endian, as the packed prefix, and exposes no memory regions.
//! The unpack method accumulates the incoming prefix and rebuilds a jagged
//! vector of the receiver's shape from it.
use vstd::prelude::*;
use crate::codec::{
    i32_be_byte, lemma_decode_i32s_index, lemma_decode_i32s_len, lemma_encode_i32s_index,
    lemma_encode_i32s_len, read_i32_be, spec_decode_i32s, spec_encode_i32s,
};
use crate::datatype::{
    DatatypeError, DatatypeResult, ManualPack, MessageBuffer, MessageCount, PackMethod, PackState,
    PackedSize, UnpackMethod, UnpackState,
};

verus! {

/// The rows of a jagged sequence laid end to end.
pub open spec fn spec_flat(rows: Seq<Seq<i32>>) -> Seq<i32>
    decreases rows.len(),
{
    if rows.len() == 0 {
        Seq::empty()
    } else {
        spec_flat(rows.drop_last()) + rows.last()
    }
}

/// The row lengths of a jagged sequence.
pub open spec fn spec_lens(rows: Seq<Seq<i32>>) -> Seq<int> {
    rows.map_values(|r: Seq<i32>| r.len() as int)
}

/// Total of a sequence of lengths.
pub open spec fn spec_sum(s: Seq<usize>) -> int
    decreases s.len(),
{
    if s.len() == 0 {
        0int
    } else {
        spec_sum(s.drop_last()) + s.last()
    }
}

/// The flattened sequence is as long as the rows together.
pub proof fn lemma_flat_len(rows: Seq<Seq<i32>>)
    ensures
        spec_flat(rows).len() == spec_lens_sum(rows),
    decreases rows.len(),
{
    if rows.len() > 0 {
        lemma_flat_len(rows.drop_last());
    }
}

/// Total of the row lengths of a jagged sequence.
pub open spec fn spec_lens_sum(rows: Seq<Seq<i32>>) -> int
    decreases rows.len(),
{
    if rows.len() == 0 {
        0int
    } else {
        spec_lens_sum(rows.drop_last()) + rows.last().len()
    }
}

/// Flattening one more row appends that row.
pub proof fn lemma_flat_take_snoc(rows: Seq<Seq<i32>>, k: int)
    requires
        0 <= k < rows.len(),
    ensures
        spec_flat(rows.take(k + 1)) == spec_flat(rows.take(k)) + rows[k],
{
    assert(rows.take(k + 1).drop_last() =~= rows.take(k));
    assert(spec_flat(rows.take(k + 1)) == spec_flat(rows.take(k)) + rows[k]);
}

/// Two jagged sequences with the same row lengths and the same flattening are
/// equal.
pub proof fn lemma_jagged_eq(a: Seq<Seq<i32>>, b: Seq<Seq<i32>>)
    requires
        spec_lens(a) == spec_lens(b),
        spec_flat(a) == spec_flat(b),
    ensures
        a == b,
    decreases a.len(),
{
    assert(spec_lens(a).len() == a.len());
    assert(spec_lens(b).len() == b.len());
    if a.len() == 0 {
        assert(a =~= b);
    } else {
        let n = a.last().len();
        assert(spec_lens(a)[a.len() - 1] == n);
        assert(b.last().len() == n);
        lemma_flat_len(a.drop_last());
        lemma_flat_len(b.drop_last());
        assert(spec_lens(a.drop_last()) =~= spec_lens(a).drop_last());
        assert(spec_lens(b.drop_last()) =~= spec_lens(b).drop_last());
        lemma_lens_sum_eq(a.drop_last(), b.drop_last());
        let m = spec_flat(a.drop_last()).len();
        assert(spec_flat(b.drop_last()).len() == m);
        assert(a.last() =~= spec_flat(a).skip(m as int));
        assert(b.last() =~= spec_flat(b).skip(m as int));
        assert(spec_flat(a.drop_last()) =~= spec_flat(a).take(m as int));
        assert(spec_flat(b.drop_last()) =~= spec_flat(b).take(m as int));
        lemma_jagged_eq(a.drop_last(), b.drop_last());
        assert forall|i: int| 0 <= i < a.len() implies a[i] == b[i] by {
            if i < a.len() - 1 {
                assert(a.drop_last()[i] == b.drop_last()[i]);
            }
        }
        assert(a =~= b);
    }
}

/// Equal row lengths give equal length totals.
proof fn lemma_lens_sum_eq(a: Seq<Seq<i32>>, b: Seq<Seq<i32>>)
    requires
        spec_lens(a) == spec_lens(b),
    ensures
        spec_lens_sum(a) == spec_lens_sum(b),
    decreases a.len(),
{
    assert(spec_lens(a).len() == a.len());
    assert(spec_lens(b).len() == b.len());
    if a.len() > 0 {
        assert(spec_lens(a.drop_last()) =~= spec_lens(a).drop_last());
        assert(spec_lens(b.drop_last()) =~= spec_lens(b).drop_last());
        assert(spec_lens(a)[a.len() - 1] == a.last().len());
        lemma_lens_sum_eq(a.drop_last(), b.drop_last());
    }
}

/// The pack/unpack inverse for the jagged datatype: a destination of the
/// source's shape whose flattening is the decoding of the source's packed
/// encoding is the source itself.
pub proof fn lemma_pack_unpack_inverse(src: Seq<Seq<i32>>, dst: Seq<Seq<i32>>)
    requires
        spec_lens(dst) == spec_lens(src),
        spec_flat(dst) == spec_decode_i32s(spec_encode_i32s(spec_flat(src))),
    ensures
        dst == src,
{
    crate::codec::lemma_decode_encode_i32s(spec_flat(src));
    lemma_jagged_eq(dst, src);
}

/// A jagged vector of 32-bit integers.
pub struct ComplexVec(pub Vec<Vec<i32>>);

impl ComplexVec {
    /// The rows as mathematical sequences.
    pub open spec fn rows(&self) -> Seq<Seq<i32>> {
        self.0@.map_values(|v: Vec<i32>| v@)
    }

    /// All elements in order.
    pub open spec fn flat(&self) -> Seq<i32> {
        spec_flat(self.rows())
    }

    /// The row lengths.
    pub open spec fn shape(&self) -> Seq<int> {
        spec_lens(self.rows())
    }

    /// Build a jagged vector holding `total_count` elements in sub-vectors of
    /// `subvector_count` elements, the last one holding the remainder; each
    /// row counts up from zero.
    pub fn new(total_count: usize, subvector_count: usize) -> (r: ComplexVec)
        requires
            total_count > 0 ==> subvector_count >= 1,
            total_count <= i32::MAX,
        ensures
            r.flat().len() == total_count,
            forall|k: int|
                0 <= k < r.rows().len() ==> (#[trigger] r.rows()[k]).len() <= subvector_count,
            forall|k: int|
                0 <= k < r.rows().len() - 1 ==> (#[trigger] r.rows()[k]).len() == subvector_count,
            forall|k: int, j: int|
                0 <= k < r.rows().len() && 0 <= j < r.rows()[k].len() ==> r.rows()[k][j] == j
                    as i32,
    {
        let mut data: Vec<Vec<i32>> = Vec::new();
        let mut total: usize = 0;
        while total < total_count
            invariant
                total <= total_count,
                total_count <= i32::MAX,
                total_count > 0 ==> subvector_count >= 1,
                spec_flat(data@.map_values(|v: Vec<i32>| v@)).len() == total,
                forall|k: int|
                    0 <= k < data@.len() ==> (#[trigger] data@[k]@).len() <= subvector_count,
                forall|k: int|
                    0 <= k < data@.len() - 1 ==> (#[trigger] data@[k]@).len() == subvector_count,
                total < total_count && data@.len() > 0 ==> data@[data@.len() - 1]@.len()
                    == subvector_count,
                forall|k: int, j: int|
                    0 <= k < data@.len() && 0 <= j < data@[k]@.len() ==> data@[k]@[j] == j as i32,
            decreases total_count - total,
        {
            let ghost prev = data@.map_values(|v: Vec<i32>| v@);
            let remain = total_count - total;
            let next_size = if remain > subvector_count {
                subvector_count
            } else {
                remain
            };
            let mut row: Vec<i32> = Vec::new();
            let mut j: usize = 0;
            while j < next_size
                invariant
                    j <= next_size,
                    next_size <= i32::MAX,
                    row@.len() == j,
                    forall|t: int| 0 <= t < j ==> row@[t] == t as i32,
                decreases next_size - j,
            {
                row.push(j as i32);
                j += 1;
            }
            data.push(row);
            total = total + next_size;
            proof {
                let cur = data@.map_values(|v: Vec<i32>| v@);
                assert(cur =~= prev.push(row@));
                assert(cur.drop_last() =~= prev);
            }
        }
        ComplexVec(data)
    }

    /// All elements, flattened into one vector in order.
    pub fn pack(&self) -> (r: Vec<i32>)
        ensures
            r@ == self.flat(),
    {
        let mut out: Vec<i32> = Vec::new();
        let mut k: usize = 0;
        while k < self.0.len()
            invariant
                k <= self.0@.len(),
                out@ == spec_flat(self.rows().take(k as int)),
            decreases self.0@.len() - k,
        {
            out.extend_from_slice(self.0[k].as_slice());
            proof {
                lemma_flat_take_snoc(self.rows(), k as int);
                assert(self.rows()[k as int] == self.0@[k as int]@);
            }
            k += 1;
        }
        proof {
            assert(self.rows().take(self.0@.len() as int) =~= self.rows());
        }
        out
    }

    /// Refill the rows, keeping the shape, from a flattened buffer of at
    /// least as many elements.
    pub fn unpack_from(&mut self, packed: &[i32])
        requires
            old(self).flat().len() <= packed@.len(),
        ensures
            final(self).shape() == old(self).shape(),
            final(self).flat() == packed@.take(old(self).flat().len() as int),
    {
        let ghost orig = self.rows();
        proof {
            lemma_flat_len(orig);
        }
        let packed_len = packed.len();
        let mut pos: usize = 0;
        let mut k: usize = 0;
        while k < self.0.len()
            invariant
                k <= self.0@.len(),
                self.0@.len() == orig.len(),
                pos == spec_lens_sum(orig.take(k as int)),
                spec_lens_sum(orig) <= packed@.len(),
                packed@.len() == packed_len,
                spec_lens(self.rows()) == spec_lens(orig),
                forall|t: int| k <= t < orig.len() ==> self.rows()[t] == orig[t],
                spec_flat(self.rows().take(k as int)) == packed@.take(pos as int),
            decreases self.0@.len() - k,
        {
            let ghost prows = self.rows();
            let len = self.0[k].len();
            proof {
                lemma_lens_sum_take_bound(orig, k as int);
                assert(orig[k as int].len() == len);
                assert(pos + len <= packed@.len());
            }
            let row = vstd::slice::slice_to_vec(&packed[pos..pos + len]);
            self.0[k] = row;
            proof {
                let cur = self.rows();
                assert(cur =~= prows.update(k as int, row@));
                assert(spec_lens(cur) =~= spec_lens(orig));
                assert(cur.take(k as int) =~= prows.take(k as int));
                lemma_flat_take_snoc(cur, k as int);
                lemma_lens_sum_take_snoc(orig, k as int);
                assert(spec_flat(cur.take(k as int + 1)) =~= packed@.take(pos as int + len as int));
            }
            pos = pos + len;
            k += 1;
        }
        proof {
            assert(orig.take(orig.len() as int) =~= orig);
            assert(self.rows().take(orig.len() as int) =~= self.rows());
            lemma_flat_len(orig);
        }
    }
}

impl ComplexVec {
    /// Refill an existing jagged vector to hold `total_count` elements in
    /// sub-vectors of `subvector_count`, reusing the rows already there: an
    /// undersized last row is grown to full size when it fits, and new rows
    /// are appended until the total is reached.
    pub fn update(&mut self, total_count: usize, subvector_count: usize)
        requires
            subvector_count >= 1,
            total_count <= i32::MAX,
            total_count >= subvector_count ==> {
                &&& forall|k: int|
                    0 <= k < old(self).rows().len() - 1 ==> (#[trigger] old(self).rows()[k]).len()
                        == subvector_count
                &&& (old(self).rows().len() > 0 ==> old(self).rows().last().len()
                    <= subvector_count)
                &&& old(self).flat().len() <= total_count
            },
        ensures
            final(self).flat().len() == total_count,
            forall|k: int|
                0 <= k < final(self).rows().len() ==> (#[trigger] final(self).rows()[k]).len()
                    <= subvector_count,
            total_count < subvector_count ==> final(self).rows().len() == 1 && final(self).flat()
                == Seq::new(total_count as nat, |k: int| k as i32),
    {
        proof {
            lemma_flat_len(old(self).rows());
        }
        if total_count < subvector_count {
            self.0.clear();
            let mut row: Vec<i32> = Vec::new();
            let mut j: usize = 0;
            while j < total_count
                invariant
                    j <= total_count,
                    total_count <= i32::MAX,
                    row@.len() == j,
                    row@ == Seq::new(j as nat, |k: int| k as i32),
                decreases total_count - j,
            {
                row.push(j as i32);
                proof {
                    assert(row@ =~= Seq::new(j as nat + 1, |k: int| k as i32));
                }
                j += 1;
            }
            self.0.push(row);
            proof {
                let cur = self.rows();
                assert(cur =~= Seq::<Seq<i32>>::empty().push(row@));
                assert(cur.drop_last() =~= Seq::<Seq<i32>>::empty());
                lemma_flat_len(cur);
                assert(spec_lens_sum(cur) == spec_lens_sum(Seq::<Seq<i32>>::empty())
                    + row@.len());
                assert(self.flat().len() == total_count);
                assert(self.flat() =~= Seq::new(total_count as nat, |k: int| k as i32));
            }
        } else {
            let n = self.0.len();
            let ghost orig = self.rows();
            let mut total: usize = 0;
            let mut k: usize = 0;
            while k < n
                invariant
                    k <= n,
                    n == self.rows().len(),
                    n == orig.len(),
                    subvector_count >= 1,
                    subvector_count <= total_count,
                    total_count <= i32::MAX,
                    spec_lens_sum(orig) <= total_count,
                    forall|t: int|
                        0 <= t < orig.len() - 1 ==> (#[trigger] orig[t]).len() == subvector_count,
                    orig.len() > 0 ==> orig.last().len() <= subvector_count,
                    forall|t: int|
                        0 <= t < self.rows().len() ==> (#[trigger] self.rows()[t]).len()
                            <= subvector_count,
                    forall|t: int| k <= t < orig.len() ==> self.rows()[t] == orig[t],
                    total as int == spec_lens_sum(self.rows().take(k as int)),
                    k < n ==> total as int == k * subvector_count,
                    total <= total_count,
                decreases n - k,
            {
                let ghost prows = self.rows();
                let row_len = self.0[k].len();
                proof {
                    lemma_lens_sum_take_snoc(self.rows(), k as int);
                    assert((k + 1) * subvector_count == k * subvector_count + subvector_count)
                        by (nonlinear_arith);
                }
                if row_len < subvector_count && total <= total_count - subvector_count {
                    let mut fresh: Vec<i32> = Vec::new();
                    let mut j: usize = 0;
                    while j < subvector_count
                        invariant
                            j <= subvector_count,
                            fresh@.len() == j,
                        decreases subvector_count - j,
                    {
                        fresh.push(0);
                        j += 1;
                    }
                    self.0[k] = fresh;
                    proof {
                        let cur = self.rows();
                        assert(cur =~= prows.update(k as int, fresh@));
                        assert(cur.take(k as int) =~= prows.take(k as int));
                        lemma_lens_sum_take_snoc(cur, k as int);
                        if k + 1 < n {
                            // A row short of full can only be the last one.
                            assert(orig[k as int].len() == subvector_count);
                            assert(false);
                        }
                    }
                    total = total + subvector_count;
                } else {
                    proof {
                        if k + 1 < n {
                            lemma_lens_sum_orig_bound(orig, k as int, subvector_count);
                        } else {
                            lemma_full_prefix_sum(orig, k as int, subvector_count);
                            lemma_lens_sum_take_snoc(orig, k as int);
                            assert(orig.take(n as int) =~= orig);
                        }
                    }
                    total = total + row_len;
                }
                k += 1;
            }
            proof {
                assert(self.rows().take(n as int) =~= self.rows());
            }
            while total < total_count
                invariant
                    total <= total_count,
                    total_count <= i32::MAX,
                    subvector_count >= 1,
                    total as int == spec_lens_sum(self.rows()),
                    forall|t: int|
                        0 <= t < self.rows().len() ==> (#[trigger] self.rows()[t]).len()
                            <= subvector_count,
                decreases total_count - total,
            {
                let ghost prows = self.rows();
                let remain = total_count - total;
                let next_size = if remain > subvector_count {
                    subvector_count
                } else {
                    remain
                };
                let mut row: Vec<i32> = Vec::new();
                let mut j: usize = 0;
                while j < next_size
                    invariant
                        j <= next_size,
                        next_size <= i32::MAX,
                        row@.len() == j,
                    decreases next_size - j,
                {
                    row.push(j as i32);
                    j += 1;
                }
                self.0.push(row);
                proof {
                    let cur = self.rows();
                    assert(cur =~= prows.push(row@));
                    assert(cur.drop_last() =~= prows);
                }
                total = total + next_size;
            }
            proof {
                lemma_flat_len(self.rows());
                assert(self.flat().len() == total_count);
            }
        }
    }
}

/// In a run of full rows, the processed total plus one more full row stays
/// within the whole.
proof fn lemma_lens_sum_orig_bound(orig: Seq<Seq<i32>>, k: int, sub: usize)
    requires
        0 <= k,
        k + 1 < orig.len(),
        forall|t: int| 0 <= t < orig.len() - 1 ==> (#[trigger] orig[t]).len() == sub,
    ensures
        (k + 1) * sub <= spec_lens_sum(orig),
    decreases orig.len(),
{
    lemma_full_prefix_sum(orig, k + 1, sub);
    lemma_lens_sum_take_bound(orig, k + 1);
}

/// The total of the first `m` rows of a run of full rows.
proof fn lemma_full_prefix_sum(orig: Seq<Seq<i32>>, m: int, sub: usize)
    requires
        0 <= m < orig.len(),
        forall|t: int| 0 <= t < orig.len() - 1 ==> (#[trigger] orig[t]).len() == sub,
    ensures
        spec_lens_sum(orig.take(m)) == m * sub,
    decreases m,
{
    if m == 0 {
        assert(orig.take(0) =~= Seq::<Seq<i32>>::empty());
    } else {
        lemma_full_prefix_sum(orig, m - 1, sub);
        lemma_lens_sum_take_snoc(orig, m - 1);
        assert(m * sub == (m - 1) * sub + sub) by (nonlinear_arith);
    }
}

impl ManualPack for ComplexVec {
    open spec fn manual_wire(&self) -> Seq<u8> {
        spec_encode_i32s(self.flat())
    }

    /// For the jagged datatype the manual packed size counts elements.
    open spec fn manual_count(&self) -> int {
        self.flat().len() as int
    }

    open spec fn manual_fits(&self, data: Seq<u8>) -> bool {
        data.len() >= 4 * self.flat().len()
    }

    open spec fn manual_unpack_post(pre: ComplexVec, data: Seq<u8>, post: ComplexVec) -> bool {
        &&& post.shape() == pre.shape()
        &&& post.flat() == spec_decode_i32s(data.take(4 * pre.flat().len() as int))
    }

    fn packed_size(&self) -> (r: usize) {
        proof {
            lemma_flat_len(self.rows());
        }
        let mut acc: usize = 0;
        let mut ok = true;
        let mut k: usize = 0;
        while k < self.0.len()
            invariant
                k <= self.0@.len(),
                ok ==> acc as int == spec_lens_sum(self.rows().take(k as int)),
                !ok ==> spec_lens_sum(self.rows()) > usize::MAX,
            decreases self.0@.len() - k,
        {
            let l = self.0[k].len();
            proof {
                lemma_lens_sum_take_snoc(self.rows(), k as int);
                lemma_lens_sum_take_bound(self.rows(), k as int);
            }
            if ok {
                if acc > usize::MAX - l {
                    ok = false;
                } else {
                    acc = acc + l;
                }
            }
            k += 1;
        }
        proof {
            assert(self.rows().take(self.0@.len() as int) =~= self.rows());
        }
        if ok {
            acc
        } else {
            usize::MAX
        }
    }

    fn manual_pack(&self) -> (r: Vec<u8>) {
        let flat = ComplexVec::pack(self);
        proof {
            lemma_encode_i32s_len(flat@);
        }
        let total = 4 * flat.len();
        let ghost wire = self.manual_wire();
        let mut out: Vec<u8> = Vec::new();
        let mut p: usize = 0;
        while p < total
            invariant
                p <= total,
                total == 4 * flat@.len(),
                total <= usize::MAX,
                flat@ == self.flat(),
                wire == self.manual_wire(),
                wire.len() == total,
                out@ == wire.take(p as int),
            decreases total - p,
        {
            proof {
                assert(p / 4 < flat@.len() && p % 4 < 4 && p / 4 >= 0) by (nonlinear_arith)
                    requires
                        p < 4 * flat@.len(),
                        p >= 0,
                ;
                lemma_encode_i32s_index(flat@, p as int);
            }
            let b = i32_be_byte(flat[p / 4], p % 4);
            out.push(b);
            proof {
                assert(out@ =~= wire.take(p as int + 1));
            }
            p += 1;
        }
        proof {
            assert(wire.take(total as int) =~= wire);
        }
        out
    }

    fn manual_unpack(&mut self, data: &[u8]) {
        proof {
            lemma_flat_len(self.rows());
        }
        let data_len = data.len();
        // Count the elements the shape holds; the buffer is at least that
        // large, so the total fits.
        let mut count: usize = 0;
        let mut k: usize = 0;
        while k < self.0.len()
            invariant
                k <= self.0@.len(),
                self.rows() == old(self).rows(),
                count as int == spec_lens_sum(self.rows().take(k as int)),
                4 * spec_lens_sum(self.rows()) <= data@.len(),
                data@.len() == data_len,
            decreases self.0@.len() - k,
        {
            let l = self.0[k].len();
            proof {
                lemma_lens_sum_take_snoc(self.rows(), k as int);
                lemma_lens_sum_take_bound(self.rows(), k as int);
                lemma_lens_sum_nonneg_pub(self.rows());
            }
            count = count + l;
            k += 1;
        }
        proof {
            assert(self.rows().take(self.0@.len() as int) =~= self.rows());
            lemma_flat_len(self.rows());
        }
        let ghost b = data@.take(4 * count as int);
        proof {
            lemma_decode_i32s_len(b);
        }
        let mut vals: Vec<i32> = Vec::new();
        let mut t: usize = 0;
        while t < count
            invariant
                t <= count,
                4 * count as int <= data@.len(),
                data@.len() == data_len,
                b == data@.take(4 * count as int),
                b.len() == 4 * count,
                vals@.len() == t,
                forall|q: int| 0 <= q < t ==> vals@[q] == spec_decode_i32s(b)[q],
            decreases count - t,
        {
            proof {
                assert(4 * (t as int) + 4 <= 4 * count as int) by (nonlinear_arith)
                    requires
                        t < count,
                ;
                lemma_decode_i32s_len(b);
                lemma_decode_i32s_index(b, t as int);
                assert(b.subrange(4 * t as int, 4 * t as int + 4) =~= data@.subrange(
                    (4 * t) as int,
                    (4 * t) as int + 4,
                ));
            }
            let e = read_i32_be(data, 4 * t);
            vals.push(e);
            t += 1;
        }
        proof {
            lemma_decode_i32s_len(b);
            assert(vals@ =~= spec_decode_i32s(b));
        }
        let ghost flat_len = self.flat().len();
        proof {
            assert(count as int == flat_len);
        }
        self.unpack_from(vals.as_slice());
        proof {
            assert(self.flat() =~= vals@.take(flat_len as int));
            assert(vals@.take(flat_len as int) =~= vals@);
            assert(b == data@.take(4 * old(self).flat().len() as int));
        }
    }
}

impl MessageCount for ComplexVec {
    /// For the jagged datatype the count is the number of sub-vectors.
    fn count(&self) -> (r: usize)
        ensures
            r == self.rows().len(),
    {
        self.0.len()
    }
}

impl MessageBuffer for ComplexVec {
    open spec fn has_pack(&self) -> bool {
        true
    }

    open spec fn contig(&self) -> Seq<u8> {
        Seq::empty()
    }

    open spec fn pack_prefix(&self) -> Seq<u8> {
        spec_encode_i32s(self.flat())
    }

    open spec fn pack_regions(&self) -> Seq<Seq<u8>> {
        Seq::empty()
    }

    fn pack(&self) -> (r: Option<DatatypeResult<PackState>>) {
        let data = ComplexVec::pack(self);
        proof {
            assert(Seq::<Seq<u8>>::empty() =~= self.pack_regions());
        }
        Some(Ok(PackState::Jagged(JaggedPackState { data })))
    }

    fn unpack(&mut self) -> (r: Option<DatatypeResult<UnpackState>>)
        ensures
            r matches Some(rr) ==> (rr matches Ok(u) ==> u is Jagged
                && u->Jagged_0.shape@.map_values(|x: usize| x as int) == old(self).shape()),
    {
        let mut shape: Vec<usize> = Vec::new();
        let mut k: usize = 0;
        while k < self.0.len()
            invariant
                k <= self.0@.len(),
                shape@.len() == k,
                forall|t: int| 0 <= t < k ==> shape@[t] == (#[trigger] self.0@[t]@).len(),
                4 * spec_sum(shape@) == 4 * spec_lens_sum(self.rows().take(k as int)),
            decreases self.0@.len() - k,
        {
            let ghost pshape = shape@;
            shape.push(self.0[k].len());
            proof {
                assert(shape@.drop_last() =~= pshape);
                lemma_lens_sum_take_snoc(self.rows(), k as int);
            }
            k += 1;
        }
        proof {
            assert(self.rows().take(self.0@.len() as int) =~= self.rows());
            lemma_flat_len(self.rows());
            lemma_encode_i32s_len(self.flat());
            assert(Seq::<int>::empty() =~= self.pack_regions().map_values(
                |s: Seq<u8>| s.len() as int,
            ));
            assert(shape@.map_values(|x: usize| x as int) =~= self.shape());
        }
        Some(Ok(UnpackState::Jagged(JaggedUnpackState { shape, taken: Vec::new() })))
    }

    fn contig_bytes(&self) -> (r: Vec<u8>) {
        proof {
            assert(Seq::<u8>::empty() =~= self.contig());
        }
        Vec::new()
    }
}

/// Streaming packer of a jagged vector: the flattened elements go out
/// big-endian as the packed prefix; there are no memory regions.
pub struct JaggedPackState {
    /// The flattened elements, in wire order.
    pub data: Vec<i32>,
}

impl PackedSize for JaggedPackState {
    open spec fn spec_packed_size(&self) -> int {
        4 * self.data@.len() as int
    }

    fn packed_size(&self) -> (r: DatatypeResult<usize>)
        ensures
            r is Ok <==> self.spec_packed_size() <= usize::MAX,
    {
        proof {
            assert(self.data@.len() <= usize::MAX as int / 4 <==> 4 * self.data@.len()
                <= usize::MAX) by (nonlinear_arith);
        }
        if self.data.len() <= usize::MAX / 4 {
            Ok(4 * self.data.len())
        } else {
            Err(DatatypeError::PackedSizeError)
        }
    }
}

impl PackMethod for JaggedPackState {
    open spec fn prefix(&self) -> Seq<u8> {
        spec_encode_i32s(self.data@)
    }

    open spec fn regions(&self) -> Seq<Seq<u8>> {
        Seq::empty()
    }

    proof fn prefix_size(&self) {
        lemma_encode_i32s_len(self.data@);
    }

    fn pack(&mut self, offset: usize, dst: &mut Vec<u8>, dst_cap: usize) -> (r: DatatypeResult<
        usize,
    >)
        ensures
            r matches Ok(used) && used == dst_cap,
    {
        proof {
            lemma_encode_i32s_len(self.data@);
        }
        let ghost dst0 = old(dst)@;
        let ghost data0 = self.data@;
        let mut i: usize = 0;
        while i < dst_cap
            invariant
                i <= dst_cap,
                self.data@ == data0,
                self.prefix().len() == 4 * data0.len(),
                offset + dst_cap <= 4 * data0.len(),
                offset + dst_cap <= usize::MAX,
                dst@ == dst0 + self.prefix().subrange(offset as int, offset as int + i as int),
                dst0.len() == offset,
            decreases dst_cap - i,
        {
            let p = offset + i;
            proof {
                assert(p / 4 < data0.len() && p % 4 < 4 && p / 4 >= 0) by (nonlinear_arith)
                    requires
                        p < 4 * data0.len(),
                        p >= 0,
                ;
            }
            let b = i32_be_byte(self.data[p / 4], p % 4);
            dst.push(b);
            proof {
                lemma_encode_i32s_index(self.data@, p as int);
                assert(dst@ =~= dst0 + self.prefix().subrange(
                    offset as int,
                    offset as int + i as int + 1,
                ));
            }
            i += 1;
        }
        Ok(dst_cap)
    }

    fn memory_regions(&self) -> (r: DatatypeResult<Vec<Vec<u8>>>)
        ensures
            r is Ok,
    {
        let v: Vec<Vec<u8>> = Vec::new();
        proof {
            assert(v.deep_view() =~= self.regions());
        }
        Ok(v)
    }
}

/// Streaming unpacker of a jagged vector: it accumulates the incoming packed
/// prefix; [`JaggedUnpackState::into_complex_vec`] then rebuilds the rows in
/// the receiver's shape.
pub struct JaggedUnpackState {
    /// Row lengths of the receiving jagged vector.
    pub shape: Vec<usize>,
    /// Prefix bytes received so far.
    pub taken: Vec<u8>,
}

impl PackedSize for JaggedUnpackState {
    open spec fn spec_packed_size(&self) -> int {
        4 * spec_sum(self.shape@)
    }

    fn packed_size(&self) -> (r: DatatypeResult<usize>)
        ensures
            r is Ok <==> self.spec_packed_size() <= usize::MAX,
    {
        let mut acc: usize = 0;
        let mut k: usize = 0;
        while k < self.shape.len()
            invariant
                k <= self.shape@.len(),
                acc == spec_sum(self.shape@.take(k as int)),
            decreases self.shape@.len() - k,
        {
            let l = self.shape[k];
            proof {
                lemma_sum_take_snoc(self.shape@, k as int);
                lemma_sum_take_bound(self.shape@, k as int);
            }
            if acc > usize::MAX - l {
                // The element total alone exceeds the address space, so four
                // bytes apiece certainly do.
                return Err(DatatypeError::PackedSizeError);
            }
            acc = acc + l;
            k += 1;
        }
        proof {
            assert(self.shape@.take(self.shape@.len() as int) =~= self.shape@);
            assert(acc <= usize::MAX as int / 4 <==> 4 * (acc as int) <= usize::MAX)
                by (nonlinear_arith);
        }
        if acc <= usize::MAX / 4 {
            Ok(4 * acc)
        } else {
            Err(DatatypeError::PackedSizeError)
        }
    }
}

impl UnpackMethod for JaggedUnpackState {
    open spec fn taken(&self) -> Seq<u8> {
        self.taken@
    }

    open spec fn spec_region_lens(&self) -> Seq<int> {
        Seq::empty()
    }

    open spec fn region_data(&self) -> Seq<Seq<u8>> {
        Seq::empty()
    }

    proof fn region_shape(&self) {
    }

    fn region_lens(&self) -> (r: DatatypeResult<Vec<usize>>)
        ensures
            r is Ok,
    {
        let v: Vec<usize> = Vec::new();
        proof {
            assert(v@.map_values(|x: usize| x as int) =~= self.spec_region_lens());
        }
        Ok(v)
    }

    fn unpack(&mut self, offset: usize, src: &[u8]) -> (r: DatatypeResult<()>)
        ensures
            r is Ok,
            final(self).shape@ == old(self).shape@,
    {
        self.taken.extend_from_slice(src);
        Ok(())
    }

    fn write_region(&mut self, i: usize, data: &[u8]) -> (r: DatatypeResult<()>)
        ensures
            r is Ok,
    {
        // There are no regions, so this is never reached.
        Err(DatatypeError::RegionError)
    }
}

impl JaggedUnpackState {
    /// Rebuild the jagged vector once the whole prefix has been consumed: the
    /// receiver's shape filled with the decoded elements, in order.
    pub fn into_complex_vec(self) -> (r: ComplexVec)
        requires
            self.taken@.len() == 4 * spec_sum(self.shape@),
        ensures
            r.shape() == self.shape@.map_values(|x: usize| x as int),
            r.flat() == spec_decode_i32s(self.taken@),
    {
        proof {
            lemma_decode_i32s_len(self.taken@);
        }
        let taken_len = self.taken.len();
        let ghost decoded = spec_decode_i32s(self.taken@);
        let mut data: Vec<Vec<i32>> = Vec::new();
        let mut pos: usize = 0;
        let mut k: usize = 0;
        while k < self.shape.len()
            invariant
                k <= self.shape@.len(),
                data@.len() == k,
                pos == spec_sum(self.shape@.take(k as int)),
                self.taken@.len() == 4 * spec_sum(self.shape@),
                self.taken@.len() == taken_len,
                decoded == spec_decode_i32s(self.taken@),
                decoded.len() == spec_sum(self.shape@),
                forall|t: int| 0 <= t < k ==> (#[trigger] data@[t]@).len() == self.shape@[t],
                spec_flat(data@.map_values(|v: Vec<i32>| v@)) == decoded.take(pos as int),
            decreases self.shape@.len() - k,
        {
            let ghost prev = data@.map_values(|v: Vec<i32>| v@);
            let l = self.shape[k];
            proof {
                lemma_sum_take_snoc(self.shape@, k as int);
                lemma_sum_take_bound(self.shape@, k as int);
            }
            let mut row: Vec<i32> = Vec::new();
            let mut j: usize = 0;
            while j < l
                invariant
                    j <= l,
                    row@.len() == j,
                    pos + l <= decoded.len(),
                    4 * decoded.len() == self.taken@.len(),
                    self.taken@.len() == taken_len,
                    decoded == spec_decode_i32s(self.taken@),
                    row@ == decoded.subrange(pos as int, pos as int + j as int),
                decreases l - j,
            {
                proof {
                    assert(4 * (pos + j) + 4 <= self.taken@.len()) by (nonlinear_arith)
                        requires
                            pos + j < decoded.len(),
                            4 * decoded.len() == self.taken@.len(),
                    ;
                    lemma_decode_i32s_index(self.taken@, pos as int + j as int);
                    lemma_decode_i32s_len(self.taken@);
                }
                let e = read_i32_be(self.taken.as_slice(), 4 * (pos + j));
                row.push(e);
                proof {
                    assert(self.taken@.subrange(
                        (4 * (pos + j)) as int,
                        (4 * (pos + j)) as int + 4,
                    ) =~= self.taken@.subrange(
                        4 * (pos as int + j as int),
                        4 * (pos as int + j as int) + 4,
                    ));
                    assert(row@ =~= decoded.subrange(pos as int, pos as int + j as int + 1));
                }
                j += 1;
            }
            data.push(row);
            proof {
                let cur = data@.map_values(|v: Vec<i32>| v@);
                assert(cur =~= prev.push(row@));
                assert(cur.drop_last() =~= prev);
                assert(spec_flat(cur) =~= decoded.take(pos as int + l as int));
            }
            pos = pos + l;
            k += 1;
        }
        proof {
            assert(self.shape@.take(self.shape@.len() as int) =~= self.shape@);
            let rows = data@.map_values(|v: Vec<i32>| v@);
            assert(decoded.take(pos as int) =~= decoded);
            assert(spec_lens(rows) =~= self.shape@.map_values(|x: usize| x as int));
        }
        ComplexVec(data)
    }
}

/// Taking one more length adds it to the total.
pub proof fn lemma_sum_take_snoc(s: Seq<usize>, k: int)
    requires
        0 <= k < s.len(),
    ensures
        spec_sum(s.take(k + 1)) == spec_sum(s.take(k)) + s[k],
{
    assert(s.take(k + 1).drop_last() =~= s.take(k));
}

/// Partial totals never exceed the whole.
pub proof fn lemma_sum_take_bound(s: Seq<usize>, k: int)
    requires
        0 <= k <= s.len(),
    ensures
        spec_sum(s.take(k)) + ({
            if k < s.len() {
                s[k] as int
            } else {
                0int
            }
        }) <= spec_sum(s),
        spec_sum(s.take(k)) >= 0,
    decreases s.len() - k,
{
    lemma_sum_nonneg(s.take(k));
    if k < s.len() {
        lemma_sum_take_snoc(s, k);
        lemma_sum_take_bound(s, k + 1);
    } else {
        assert(s.take(k) =~= s);
        lemma_sum_nonneg(s);
    }
}

/// A total of lengths is never negative.
pub proof fn lemma_sum_nonneg(s: Seq<usize>)
    ensures
        spec_sum(s) >= 0,
    decreases s.len(),
{
    if s.len() > 0 {
        lemma_sum_nonneg(s.drop_last());
    }
}

/// One more row adds its length to the total.
pub proof fn lemma_lens_sum_take_snoc(rows: Seq<Seq<i32>>, k: int)
    requires
        0 <= k < rows.len(),
    ensures
        spec_lens_sum(rows.take(k + 1)) == spec_lens_sum(rows.take(k)) + rows[k].len(),
{
    assert(rows.take(k + 1).drop_last() =~= rows.take(k));
}

/// Length totals grow with the rows taken and never exceed the whole.
pub proof fn lemma_lens_sum_take_bound(rows: Seq<Seq<i32>>, k: int)
    requires
        0 <= k <= rows.len(),
    ensures
        spec_lens_sum(rows.take(k)) + ({
            if k < rows.len() {
                rows[k].len() as int
            } else {
                0int
            }
        }) <= spec_lens_sum(rows),
        spec_lens_sum(rows.take(k)) >= 0,
    decreases rows.len() - k,
{
    lemma_lens_sum_nonneg(rows.take(k));
    if k < rows.len() {
        lemma_lens_sum_take_snoc(rows, k);
        lemma_lens_sum_take_bound(rows, k + 1);
    } else {
        assert(rows.take(k) =~= rows);
        lemma_lens_sum_nonneg(rows);
    }
}

/// A total of row lengths is never negative.
pub proof fn lemma_lens_sum_nonneg_pub(rows: Seq<Seq<i32>>)
    ensures
        spec_lens_sum(rows) >= 0,
{
    lemma_lens_sum_nonneg(rows);
}

/// A total of lengths is never negative.
proof fn lemma_lens_sum_nonneg(rows: Seq<Seq<i32>>)
    ensures
        spec_lens_sum(rows) >= 0,
    decreases rows.len(),
{
    if rows.len() > 0 {
        lemma_lens_sum_nonneg(rows.drop_last());
    }
}

} // verus!
