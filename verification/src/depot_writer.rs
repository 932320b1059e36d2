//! Flags of a manifest file that decide how it is written.
use vstd::prelude::*;

verus! {

/// The entry is a directory.
pub const DEPOT_FILE_FLAG_DIRECTORY: u32 = 0x40;

/// The entry is an executable file.
pub const DEPOT_FILE_FLAG_EXECUTABLE: u32 = 0x20;

} // verus!
