//! The failures that the library reports as values.

use vstd::prelude::*;

verus! {

/// A request that the library refused.
#[derive(Clone, Copy, Debug, PartialEq, Eq, Structural)]
pub enum Error {
    /// The allocator could not map a region of the requested size.
    OutOfMemory,
    /// An instance was asked to resume although it is not waiting for a host call.
    InvalidResume,
}

} // verus!
