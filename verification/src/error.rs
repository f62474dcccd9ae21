//! The store's error type.

use vstd::prelude::*;

verus! {

/// Error type.
#[derive(Copy, Clone, PartialEq, Eq, Structural, Debug)]
pub enum Error {
    /// An underlying storage failure, reported by the embedding program.
    Io,
    /// Metadata is bad.
    BadMetadata,
    /// Unsupported version.
    UnsupportedVersion,
    /// The index has become full.
    IndexFull,
}

} // verus!
