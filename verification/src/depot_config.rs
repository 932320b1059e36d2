//! The record of installed depots.
use vstd::prelude::*;

verus! {

/// Stands in the record for a depot whose download is in progress.
pub const INVALID_MANIFEST_ID: u64 = 0xffff_ffff_ffff_ffff;

} // verus!
