//! Shared index aliases for the content layer.

use vstd::prelude::*;

verus! {

/// Which table of a size class a datum lives in.
pub type TableIndex = usize;

/// Which slot of a table a datum lives in.
pub type EntryIndex = usize;

} // verus!
