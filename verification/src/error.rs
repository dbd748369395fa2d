use vstd::prelude::*;

verus! {

/// Crate-level error kind.
#[derive(Copy, Clone, Debug, PartialEq, Eq, Structural)]
pub enum Error {
    /// Unknown data store error.
    Unknown,
}

} // verus!
