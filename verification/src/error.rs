//! The errors of the library.
use vstd::prelude::*;

verus! {

/// What can go wrong in a kernel or in setting up the network.
#[derive(Debug, PartialEq, Eq)]
pub enum Error {
    /// An operation was given arguments that it does not accept.
    InvalidArgument(String),
    /// The parts of a value do not agree on where the value is.
    MalformedPlacement,
    /// The network could not be set up or used as asked.
    Networking(String),
}

pub type Result<T> = core::result::Result<T, Error>;

} // verus!
