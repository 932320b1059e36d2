//! Cleanup of the files that an old build of a depot left behind.
//!
//! A download only ever writes new content, so what a new build no longer
//! holds stays on disk. A pass takes it away: it reads what the installed
//! builds hold, and removes what old builds held and no installed build does.
//! The pass itself reads and removes nothing; it says what is to be read or
//! removed, and goes on with the answer.
//!
//! - [`paths`]: how manifest paths are compared, and which are safe to remove
//! - [`filelist`]: the file list of a build as a text
//! - [`builds`]: the names of a build's files
//! - [`records`]: what is written for a later pass
//! - [`dirs`]: ordered sets of directories
//! - [`steps`]: the states of a pass, and what follows each answer
//! - [`pass`]: the pass itself
//! - [`soundness`], [`laws`]: what holds of a pass whatever it is answered
//! - [`disk`], [`outcome`], [`emptied`]: what a pass does to a disk
//! - [`fates`]: the same in terms of what the disk holds
use vstd::prelude::*;

pub mod builds;
pub mod dirs;
pub mod disk;
pub mod emptied;
pub mod fates;
pub mod filelist;
pub mod laws;
pub mod outcome;
pub mod pass;
pub mod paths;
pub mod records;
pub mod soundness;
pub mod steps;

pub use crate::depot_cleanup::builds::{
    filelist_sidecar_path, pending_cleanup_markers, stale_cleanup_marker_name,
    stale_cleanup_marker_path,
};
pub use crate::depot_cleanup::filelist::{read_filelist_sidecar, FileEntry};
pub use crate::depot_cleanup::pass::{run_stale_file_cleanup, CleanupPass, Reply, Request};
pub use crate::depot_cleanup::paths::{normalized_key, sanitized_components};
pub use crate::depot_cleanup::records::{
    backfill_filelist_sidecar, record_aborted_build, record_pending_cleanup,
    write_filelist_sidecar, FileWrite,
};
pub use crate::depot_cleanup::steps::{Ending, NodeKind};

verus! {

} // verus!
