//! Errors and results of the point-to-point surface.
use vstd::prelude::*;

verus! {

/// Faults of the communication surface.
#[derive(Copy, Clone, Debug, PartialEq, Eq, Structural)]
pub enum Error {
    /// An internal fault: a datatype refused to yield its method.
    InternalError,
    /// A probe found no matching message; a distinguishable result rather
    /// than a fault.
    NoProbeMessage,
}

pub type Result<T> = core::result::Result<T, Error>;

/// What a successful probe reports.
#[derive(Copy, Clone, Debug)]
pub struct ProbeResult {
    /// Payload size in bytes of the matched message.
    pub size: usize,
    /// Rank of its sender, decoded from the matched wire tag.
    pub source: i32,
}

} // verus!
