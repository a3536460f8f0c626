//! The values and the datatype table behind the C-style surface.
//!
//! The foreign surface speaks in integers: a return status, a communicator
//! identifier (only the world is recognized), and datatype identifiers.
//! Identifiers up to [`MAX_PREDEFINED`] denote built-ins — [`BYTE`] is the
//! only one — and registered custom datatypes take identifiers above that,
//! assigned monotonically. The table owns whatever stands for a registered
//! datatype and answers lookups by identifier.
use vstd::prelude::*;

verus! {

/// Success, as the foreign surface reports it.
pub const SUCCESS: i32 = 0;

/// An internal fault, as the foreign surface reports it.
pub const ERR_INTERNAL: i32 = 1;

/// The world communicator's identifier, the only one recognized.
pub const COMM_WORLD: i32 = 1;

/// The built-in byte datatype's identifier.
pub const BYTE: i32 = 1;

/// Identifiers at or below this value are reserved for built-ins.
pub const MAX_PREDEFINED: i32 = 1;

/// The registry of custom datatypes, keyed by the integer identifiers the
/// foreign surface hands around.
pub struct CContext<T> {
    datatypes: Vec<T>,
}

impl<T> CContext<T> {
    /// The registered datatypes, oldest first.
    pub closed spec fn table(self) -> Seq<T> {
        self.datatypes@
    }

    /// The identifier of the entry at an index.
    pub open spec fn spec_id_of(index: int) -> int {
        index + MAX_PREDEFINED + 1
    }

    /// An empty table.
    pub fn new() -> (r: CContext<T>)
        ensures
            r.table() =~= Seq::<T>::empty(),
    {
        CContext { datatypes: Vec::new() }
    }

    /// Register a custom datatype and return its identifier: the next one
    /// above the predefined range, assigned monotonically.
    pub fn add_custom_datatype(&mut self, datatype: T) -> (id: i32)
        requires
            old(self).table().len() + MAX_PREDEFINED + 1 < i32::MAX,
        ensures
            final(self).table() == old(self).table().push(datatype),
            id == Self::spec_id_of(old(self).table().len() as int),
            id > MAX_PREDEFINED,
    {
        let id = (self.datatypes.len() as i32) + MAX_PREDEFINED + 1;
        self.datatypes.push(datatype);
        id
    }

    /// Look an identifier up: nothing for a built-in identifier, the
    /// registered datatype for an identifier the table has assigned, and
    /// nothing for one it has not.
    pub fn get_custom_datatype(&self, datatype: i32) -> (r: Option<&T>)
        ensures
            datatype <= BYTE ==> r is None,
            r matches Some(v) ==> {
                &&& datatype > MAX_PREDEFINED
                &&& 0 <= datatype - MAX_PREDEFINED - 1 < self.table().len()
                &&& *v == self.table()[datatype - MAX_PREDEFINED - 1]
            },
            (datatype > MAX_PREDEFINED && 0 <= datatype - MAX_PREDEFINED - 1
                < self.table().len()) ==> r is Some,
    {
        if datatype <= BYTE {
            None
        } else {
            let i = (datatype - MAX_PREDEFINED - 1) as usize;
            if i < self.datatypes.len() {
                Some(&self.datatypes[i])
            } else {
                None
            }
        }
    }

    /// A registered identifier looks up exactly the datatype registered
    /// under it, and registration moves no other entry.
    pub proof fn lemma_id_round_trip(self, pre: CContext<T>, datatype: T)
        requires
            pre.table().len() + MAX_PREDEFINED + 1 < i32::MAX,
            self.table() == pre.table().push(datatype),
        ensures
            self.table()[Self::spec_id_of(pre.table().len() as int) - MAX_PREDEFINED - 1]
                == datatype,
            forall|i: int|
                0 <= i < pre.table().len() ==> self.table()[i] == pre.table()[i],
    {
    }
}

} // verus!
