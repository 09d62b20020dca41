//! The error kinds of the store.

use vstd::prelude::*;

verus! {

/// The ways an operation on the store can fail.
#[derive(Clone, Copy, Debug, PartialEq, Eq, Structural)]
pub enum KvError {
    /// `remove` was asked for a key that the index does not hold.
    KeyNotFound,
    /// A record could not be read back whole, or its checksum does not match.
    Corruption,
    /// A segment that the operation needs is not in the directory, or no
    /// fresh generation number is left.
    Io,
    /// A command could not be turned into a payload, or a payload into a command.
    Codec,
}

} // verus!
