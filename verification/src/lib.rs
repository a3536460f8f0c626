//! A point-to-point messaging runtime in the style of MPI, built around a
//! custom-datatype message engine.
//!
//! The engine lets a payload be transmitted without first flattening it into
//! one staging buffer: a datatype may stream a packed prefix, expose memory
//! regions that travel verbatim, or combine both. Messages are driven by
//! explicit state machines, registered in a process-local registry, and
//! completed through a tag-matched transport.
use vstd::prelude::*;

pub mod bench;
pub mod capi;
pub mod codec;
pub mod communicator;
pub mod context;
pub mod datatype;
pub mod jagged;
pub mod message;
pub mod regions;
pub mod registry;
pub mod structured;
pub mod transport;
pub mod tag;

verus! {

/// Status of an in-flight request or message.
///
/// Transitions are monotonic: once `Complete` or `Error`, a status never
/// reverts to `InProgress`.
#[derive(Clone, Debug)]
pub enum Status {
    /// The request is still in progress.
    InProgress,
    /// The request has completed.
    Complete,
    /// An error occurred; the string describes it.
    Error(String),
}

impl Status {
    /// True exactly on the `InProgress` variant.
    pub fn is_in_progress(&self) -> (r: bool)
        ensures
            r == (self is InProgress),
    {
        match self {
            Status::InProgress => true,
            _ => false,
        }
    }

    /// True exactly on the `Complete` variant.
    pub fn is_complete(&self) -> (r: bool)
        ensures
            r == (self is Complete),
    {
        match self {
            Status::Complete => true,
            _ => false,
        }
    }

    /// True on any terminal variant, that is on everything but `InProgress`.
    pub fn is_terminal(&self) -> (r: bool)
        ensures
            r == !(self is InProgress),
    {
        match self {
            Status::InProgress => false,
            _ => true,
        }
    }
}

} // verus!
