//! The datatype protocol: buffers and their pack/unpack methods.
//!
//! A message payload is described by a [`MessageBuffer`]. A buffer either
//! travels contiguously (it yields no pack method and its bytes go on the
//! wire as they are) or it yields a pack method for sending and an unpack
//! method for receiving. A pack method may stream a packed prefix, expose
//! memory regions whose bytes travel verbatim after the prefix, or both; the
//! wire stream of a message is always `prefix ‖ regions`, in enumeration
//! order.
//!
//! The methods work on plain byte values: packing appends prefix bytes to the
//! engine's staging buffer, and unpacking consumes prefix bytes and receives
//! region bytes. Every method here is dispatched through the closed variant
//! sets [`PackState`] and [`UnpackState`].
use vstd::prelude::*;
use crate::jagged::{JaggedPackState, JaggedUnpackState};
use crate::regions::{RegionPackState, RegionUnpackState};
use crate::structured::{StructPackState, StructUnpackState};

verus! {

/// Faults of the datatype layer. All are fatal for the owning message.
#[derive(Copy, Clone, Debug, PartialEq, Eq, Structural)]
pub enum DatatypeError {
    /// A pack call failed.
    PackError,
    /// An unpack call failed.
    UnpackError,
    /// The packed size could not be computed.
    PackedSizeError,
    /// Per-message state could not be built.
    StateError,
    /// Memory regions could not be enumerated or written.
    RegionError,
}

pub type DatatypeResult<T> = Result<T, DatatypeError>;

/// Element count of a message payload. For contiguous byte buffers this is
/// the byte count; for custom datatypes its meaning belongs to the datatype.
pub trait MessageCount {
    fn count(&self) -> usize;
}

/// Total size of the streamed packed prefix. The value is fixed for the life
/// of the method: every operation of the protocol preserves it.
pub trait PackedSize {
    /// Length in bytes of the streamed prefix.
    spec fn spec_packed_size(&self) -> int;

    /// Report the packed size. On success the result is exactly the
    /// mathematical prefix length; an error is reported when that length
    /// cannot be represented.
    fn packed_size(&self) -> (r: DatatypeResult<usize>)
        ensures
            r matches Ok(n) ==> n as int == self.spec_packed_size(),
    ;
}

/// The sending side of a datatype: a resumable streaming packer together
/// with the memory regions that follow the prefix on the wire.
pub trait PackMethod: PackedSize {
    /// The full streamed prefix.
    spec fn prefix(&self) -> Seq<u8>;

    /// The memory regions, each one the bytes it contributes to the wire, in
    /// enumeration order.
    spec fn regions(&self) -> Seq<Seq<u8>>;

    /// The prefix is as long as the packed size says.
    proof fn prefix_size(&self)
        ensures
            self.prefix().len() == self.spec_packed_size(),
    ;

    /// Append up to `dst_cap` bytes of `prefix()[offset..]` to `dst`, which
    /// already holds the first `offset` packed bytes. Returns the number of
    /// bytes written; the views of the method itself never change.
    fn pack(&mut self, offset: usize, dst: &mut Vec<u8>, dst_cap: usize) -> (r: DatatypeResult<
        usize,
    >)
        requires
            offset == old(dst)@.len(),
            dst_cap >= 1,
            offset + dst_cap <= old(self).spec_packed_size(),
            offset + dst_cap <= usize::MAX,
        ensures
            final(self).prefix() == old(self).prefix(),
            final(self).regions() == old(self).regions(),
            final(self).spec_packed_size() == old(self).spec_packed_size(),
            match r {
                Ok(used) => used <= dst_cap && final(dst)@ == old(dst)@ + old(self).prefix().subrange(offset as int, offset + used),
                Err(_) => final(dst)@ == old(dst)@,
            },
    ;

    /// Enumerate the memory regions by value.
    fn memory_regions(&self) -> (r: DatatypeResult<Vec<Vec<u8>>>)
        ensures
            r matches Ok(v) ==> v.deep_view() == self.regions(),
    ;
}

/// The receiving side of a datatype: it consumes the streamed prefix and
/// receives the bytes of each memory region.
pub trait UnpackMethod: PackedSize {
    /// Prefix bytes consumed so far, in order.
    spec fn taken(&self) -> Seq<u8>;

    /// Lengths of the writable regions, in enumeration order.
    spec fn spec_region_lens(&self) -> Seq<int>;

    /// Region contents received so far, one entry per region.
    spec fn region_data(&self) -> Seq<Seq<u8>>;

    /// There is one content entry per region.
    proof fn region_shape(&self)
        ensures
            self.region_data().len() == self.spec_region_lens().len(),
    ;

    /// Enumerate the region lengths.
    fn region_lens(&self) -> (r: DatatypeResult<Vec<usize>>)
        ensures
            r matches Ok(v) ==> v@.map_values(|x: usize| x as int) == self.spec_region_lens(),
    ;

    /// Consume the next fragment of the streamed prefix. Fragments arrive at
    /// monotonically increasing offsets and together cover the whole prefix.
    fn unpack(&mut self, offset: usize, src: &[u8]) -> (r: DatatypeResult<()>)
        requires
            offset == old(self).taken().len(),
            offset + src@.len() <= old(self).spec_packed_size(),
        ensures
            final(self).spec_packed_size() == old(self).spec_packed_size(),
            final(self).spec_region_lens() == old(self).spec_region_lens(),
            match r {
                Ok(u) => final(self).taken() == old(self).taken() + src@ && final(self).region_data() == old(self).region_data(),
                Err(_) => final(self).taken() == old(self).taken() && final(self).region_data()
                    == old(self).region_data(),
            },
    ;

    /// Receive the bytes of one region.
    fn write_region(&mut self, i: usize, data: &[u8]) -> (r: DatatypeResult<()>)
        requires
            i < old(self).spec_region_lens().len(),
            data@.len() == old(self).spec_region_lens()[i as int],
        ensures
            final(self).spec_packed_size() == old(self).spec_packed_size(),
            final(self).spec_region_lens() == old(self).spec_region_lens(),
            final(self).taken() == old(self).taken(),
            match r {
                Ok(u) => final(self).region_data() == old(self).region_data().update(
                    i as int,
                    data@,
                ),
                Err(_) => final(self).region_data() == old(self).region_data(),
            },
    ;
}

/// A message payload. Yielding no pack method selects the contiguous fast
/// path, on which [`MessageBuffer::contig`] is what goes on the wire.
pub trait MessageBuffer: MessageCount {
    /// Whether the buffer yields pack and unpack methods.
    spec fn has_pack(&self) -> bool;

    /// The bytes of the contiguous fast path.
    spec fn contig(&self) -> Seq<u8>;

    /// The streamed prefix of the pack method this buffer yields.
    spec fn pack_prefix(&self) -> Seq<u8>;

    /// The memory regions of the pack method this buffer yields.
    spec fn pack_regions(&self) -> Seq<Seq<u8>>;

    /// Yield the pack method, or nothing for the contiguous path.
    fn pack(&self) -> (r: Option<DatatypeResult<PackState>>)
        ensures
            r is Some <==> self.has_pack(),
            r matches Some(rr) ==> (rr matches Ok(p) ==> p.prefix() == self.pack_prefix()
                && p.regions() == self.pack_regions()),
    ;

    /// Yield the unpack method, or nothing for the contiguous path. The
    /// method starts with nothing consumed and expects a prefix and regions
    /// shaped like this buffer's own.
    fn unpack(&mut self) -> (r: Option<DatatypeResult<UnpackState>>)
        ensures
            final(self).has_pack() == old(self).has_pack(),
            final(self).contig() == old(self).contig(),
            final(self).pack_prefix() == old(self).pack_prefix(),
            final(self).pack_regions() == old(self).pack_regions(),
            r is Some <==> old(self).has_pack(),
            r matches Some(rr) ==> (rr matches Ok(u) ==> u.taken() == Seq::<u8>::empty()
                && u.spec_packed_size() == old(self).pack_prefix().len()
                && u.spec_region_lens() == old(self).pack_regions().map_values(
                |s: Seq<u8>| s.len() as int,
            )),
    ;

    /// The contiguous bytes by value.
    fn contig_bytes(&self) -> (r: Vec<u8>)
        ensures
            r@ == self.contig(),
    ;
}

/// The pack methods the engine can drive, one variant per datatype family.
pub enum PackState {
    /// Streaming packer over a jagged sequence of 32-bit integers.
    Jagged(JaggedPackState),
    /// Memory regions only, with an empty prefix.
    Regions(RegionPackState),
    /// A streamed fixed-size head per element, then one region per element.
    Structured(StructPackState),
}

impl PackedSize for PackState {
    open spec fn spec_packed_size(&self) -> int {
        match self {
            PackState::Jagged(s) => s.spec_packed_size(),
            PackState::Regions(s) => s.spec_packed_size(),
            PackState::Structured(s) => s.spec_packed_size(),
        }
    }

    fn packed_size(&self) -> (r: DatatypeResult<usize>)
        ensures
            r is Ok <==> self.spec_packed_size() <= usize::MAX,
    {
        match self {
            PackState::Jagged(s) => s.packed_size(),
            PackState::Regions(s) => s.packed_size(),
            PackState::Structured(s) => s.packed_size(),
        }
    }
}

impl PackMethod for PackState {
    open spec fn prefix(&self) -> Seq<u8> {
        match self {
            PackState::Jagged(s) => s.prefix(),
            PackState::Regions(s) => s.prefix(),
            PackState::Structured(s) => s.prefix(),
        }
    }

    open spec fn regions(&self) -> Seq<Seq<u8>> {
        match self {
            PackState::Jagged(s) => s.regions(),
            PackState::Regions(s) => s.regions(),
            PackState::Structured(s) => s.regions(),
        }
    }

    proof fn prefix_size(&self) {
        match self {
            PackState::Jagged(s) => s.prefix_size(),
            PackState::Regions(s) => s.prefix_size(),
            PackState::Structured(s) => s.prefix_size(),
        }
    }

    fn pack(&mut self, offset: usize, dst: &mut Vec<u8>, dst_cap: usize) -> (r: DatatypeResult<
        usize,
    >)
        ensures
            r matches Ok(used) && used == dst_cap,
    {
        match self {
            PackState::Jagged(s) => s.pack(offset, dst, dst_cap),
            PackState::Regions(s) => s.pack(offset, dst, dst_cap),
            PackState::Structured(s) => s.pack(offset, dst, dst_cap),
        }
    }

    fn memory_regions(&self) -> (r: DatatypeResult<Vec<Vec<u8>>>)
        ensures
            r is Ok,
    {
        match self {
            PackState::Jagged(s) => s.memory_regions(),
            PackState::Regions(s) => s.memory_regions(),
            PackState::Structured(s) => s.memory_regions(),
        }
    }
}

/// The unpack methods the engine can drive, one variant per datatype family.
pub enum UnpackState {
    /// Streaming unpacker for a jagged sequence of 32-bit integers.
    Jagged(JaggedUnpackState),
    /// Memory regions only.
    Regions(RegionUnpackState),
    /// A streamed head per element plus one region per element.
    Structured(StructUnpackState),
}

impl PackedSize for UnpackState {
    open spec fn spec_packed_size(&self) -> int {
        match self {
            UnpackState::Jagged(s) => s.spec_packed_size(),
            UnpackState::Regions(s) => s.spec_packed_size(),
            UnpackState::Structured(s) => s.spec_packed_size(),
        }
    }

    fn packed_size(&self) -> (r: DatatypeResult<usize>)
        ensures
            r is Ok <==> self.spec_packed_size() <= usize::MAX,
    {
        match self {
            UnpackState::Jagged(s) => s.packed_size(),
            UnpackState::Regions(s) => s.packed_size(),
            UnpackState::Structured(s) => s.packed_size(),
        }
    }
}

impl UnpackMethod for UnpackState {
    open spec fn taken(&self) -> Seq<u8> {
        match self {
            UnpackState::Jagged(s) => s.taken(),
            UnpackState::Regions(s) => s.taken(),
            UnpackState::Structured(s) => s.taken(),
        }
    }

    open spec fn spec_region_lens(&self) -> Seq<int> {
        match self {
            UnpackState::Jagged(s) => s.spec_region_lens(),
            UnpackState::Regions(s) => s.spec_region_lens(),
            UnpackState::Structured(s) => s.spec_region_lens(),
        }
    }

    open spec fn region_data(&self) -> Seq<Seq<u8>> {
        match self {
            UnpackState::Jagged(s) => s.region_data(),
            UnpackState::Regions(s) => s.region_data(),
            UnpackState::Structured(s) => s.region_data(),
        }
    }

    proof fn region_shape(&self) {
        match self {
            UnpackState::Jagged(s) => s.region_shape(),
            UnpackState::Regions(s) => s.region_shape(),
            UnpackState::Structured(s) => s.region_shape(),
        }
    }

    fn region_lens(&self) -> (r: DatatypeResult<Vec<usize>>)
        ensures
            r is Ok,
    {
        match self {
            UnpackState::Jagged(s) => s.region_lens(),
            UnpackState::Regions(s) => s.region_lens(),
            UnpackState::Structured(s) => s.region_lens(),
        }
    }

    fn unpack(&mut self, offset: usize, src: &[u8]) -> (r: DatatypeResult<()>)
        ensures
            r is Ok,
            (*old(self)) is Jagged ==> (*final(self)) is Jagged
                && (*final(self))->Jagged_0.shape@ == (*old(self))->Jagged_0.shape@,
            (*old(self)) is Structured ==> (*final(self)) is Structured
                && (*final(self))->Structured_0.rows@.len() == (*old(self))->Structured_0.rows@.len() && (*final(self))->Structured_0.lens@ == (*old(self))->Structured_0.lens@,
            (*old(self)) is Regions ==> (*final(self)) is Regions
                && (*final(self))->Regions_0.rows@.len() == (*old(self))->Regions_0.rows@.len(),
    {
        match self {
            UnpackState::Jagged(s) => s.unpack(offset, src),
            UnpackState::Regions(s) => s.unpack(offset, src),
            UnpackState::Structured(s) => s.unpack(offset, src),
        }
    }

    fn write_region(&mut self, i: usize, data: &[u8]) -> (r: DatatypeResult<()>)
        ensures
            r is Ok,
            (*old(self)) is Jagged ==> (*final(self)) is Jagged
                && (*final(self))->Jagged_0.shape@ == (*old(self))->Jagged_0.shape@,
            (*old(self)) is Structured ==> (*final(self)) is Structured
                && ((*old(self))->Structured_0.rows@.len() > i ==> (*final(self))->Structured_0.rows@.len() == (*old(self))->Structured_0.rows@.len()),
            (*old(self)) is Regions ==> (*final(self)) is Regions
                && ((*old(self))->Regions_0.rows@.len() > i ==> (*final(self))->Regions_0.rows@.len() == (*old(self))->Regions_0.rows@.len()),
    {
        match self {
            UnpackState::Jagged(s) => s.write_region(i, data),
            UnpackState::Regions(s) => s.write_region(i, data),
            UnpackState::Structured(s) => s.write_region(i, data),
        }
    }
}

/// Manual packing: the datatype serialized into one plain byte buffer by
/// hand, the reference against which the engine's streamed path is measured.
pub trait ManualPack: Sized {
    /// The bytes manual packing produces.
    spec fn manual_wire(&self) -> Seq<u8>;

    /// Whether a buffer is acceptable to unpack into a value of this shape.
    spec fn manual_fits(&self, data: Seq<u8>) -> bool;

    /// What unpacking `data` into a value shaped like `pre` leaves behind.
    spec fn manual_unpack_post(pre: Self, data: Seq<u8>, post: Self) -> bool;

    /// The size of the packed form, in the datatype's own unit.
    spec fn manual_count(&self) -> int;

    /// Report the packed size: exact whenever the count fits the address
    /// space.
    fn packed_size(&self) -> (r: usize)
        ensures
            self.manual_count() <= usize::MAX ==> r as int == self.manual_count(),
    ;

    /// Pack the value into one byte buffer.
    fn manual_pack(&self) -> (r: Vec<u8>)
        requires
            self.manual_wire().len() <= usize::MAX,
        ensures
            r@ == self.manual_wire(),
    ;

    /// Unpack a byte buffer into this value.
    fn manual_unpack(&mut self, data: &[u8])
        requires
            old(self).manual_fits(data@),
        ensures
            Self::manual_unpack_post(*old(self), data@, *final(self)),
    ;
}

/// A contiguous byte payload: no pack method, the bytes travel as they are.
pub struct ByteBuffer(pub Vec<u8>);

impl MessageCount for ByteBuffer {
    /// For a byte buffer the count is the byte length.
    fn count(&self) -> (r: usize)
        ensures
            r == self.0@.len(),
    {
        self.0.len()
    }
}

impl MessageBuffer for ByteBuffer {
    open spec fn has_pack(&self) -> bool {
        false
    }

    open spec fn contig(&self) -> Seq<u8> {
        self.0@
    }

    open spec fn pack_prefix(&self) -> Seq<u8> {
        Seq::empty()
    }

    open spec fn pack_regions(&self) -> Seq<Seq<u8>> {
        Seq::empty()
    }

    fn pack(&self) -> (r: Option<DatatypeResult<PackState>>) {
        None
    }

    fn unpack(&mut self) -> (r: Option<DatatypeResult<UnpackState>>) {
        None
    }

    fn contig_bytes(&self) -> (r: Vec<u8>) {
        let mut out: Vec<u8> = Vec::new();
        out.extend_from_slice(self.0.as_slice());
        proof {
            assert(out@ =~= self.0@);
        }
        out
    }
}

} // verus!
