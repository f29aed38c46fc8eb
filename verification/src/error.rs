//! The ways in which an operation of the filesystem can fail.

use vstd::prelude::*;

verus! {

/// Why an operation was refused. Every failure is a value handed back to the
/// caller; nothing unwinds.
#[derive(Clone, Copy, Debug, PartialEq, Eq, Structural)]
pub enum FsError {
    /// A descriptor that is not open, an open mode that does not exist, or a
    /// write that starts beyond the end of the file.
    InvalidArgument,
    /// The file is open already.
    AlreadyOpen,
    /// No file has the name, and the mode did not ask to create one.
    NotFound,
    /// The directory region cannot take the record.
    CapacityExceeded,
    /// No descriptor is free, or the partition has no room for the blocks
    /// that a growing file needs.
    Exhausted,
}

} // verus!
