//! The parts of a Steam client that decide: which files of an old build are
//! taken away, and what the friends service says.
//!
//! - [`depot_cleanup`]: cleanup of the files that old builds left behind
//! - [`pb`]: messages of the friends service
//! - [`proto_wire`]: the wire format of these messages
//! - [`content_manifest`], [`depot_config`], [`depot_downloader`],
//!   [`depot_writer`]: what the cleanup knows of depots
//! - [`text`]: texts as sequences of characters
use vstd::prelude::*;

pub mod content_manifest;
pub mod depot_cleanup;
pub mod depot_config;
pub mod depot_downloader;
pub mod depot_writer;
pub mod pb;
pub mod proto_wire;
pub mod text;

verus! {

} // verus!
