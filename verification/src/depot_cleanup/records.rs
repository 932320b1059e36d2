//! What is written into the config directory for a later pass: file lists, and
//! markers of builds whose files are to be cleaned up.
use crate::content_manifest::{ContentManifest, ManifestFileView};
use crate::depot_cleanup::builds::{
    build_file, filelist_sidecar_path, marked_builds, path_in, stale_cleanup_marker_path,
    FILELIST_SUFFIX, STALE_CLEANUP_SUFFIX,
};
use crate::depot_cleanup::filelist::{filelist_of_manifest, filelist_text, listed, manifest_entries};
use crate::depot_config::INVALID_MANIFEST_ID;
use crate::depot_downloader::ResolvedDepotSpec;
use crate::text::{decimal, decimal_text};
use vstd::prelude::*;

verus! {

/// A file to be written, with its path and all that it is to hold.
#[derive(Clone, Debug, Eq, PartialEq)]
pub struct FileWrite {
    pub path: String,
    pub contents: String,
}

/// A file write by its values.
#[verifier::ext_equal]
pub struct FileWriteView {
    pub path: Seq<char>,
    pub contents: Seq<char>,
}

impl View for FileWrite {
    type V = FileWriteView;

    open spec fn view(&self) -> FileWriteView {
        FileWriteView { path: self.path@, contents: self.contents@ }
    }
}

/// The values of a write that may be left out.
pub open spec fn write_view(write: Option<FileWrite>) -> Option<FileWriteView> {
    match write {
        Some(write) => Some(write@),
        None => None,
    }
}

// ---------------------------------------------------------------------------
// File lists
// ---------------------------------------------------------------------------

/// The write that keeps a build's file list.
pub open spec fn filelist_write(
    config_dir: Seq<char>,
    depot_id: u32,
    manifest_id: u64,
    manifest: Seq<ManifestFileView>,
) -> FileWriteView {
    FileWriteView {
        path: path_in(config_dir, build_file(depot_id, manifest_id, FILELIST_SUFFIX@)),
        contents: filelist_text(listed(manifest_entries(manifest))),
    }
}

/// Keeps a manifest's decrypted file list next to its cache, so that a pass
/// can read a depot it holds no key for. The list is written for depots that
/// are downloaded; until each installed depot has one, or its key is at hand,
/// a pass cannot tell what is still in use and defers.
pub fn write_filelist_sidecar(
    config_dir: &str,
    depot_id: u32,
    manifest_id: u64,
    manifest: &ContentManifest,
) -> (write: FileWrite)
    ensures
        write@ == filelist_write(config_dir@, depot_id, manifest_id, manifest@),
{
    FileWrite {
        path: filelist_sidecar_path(config_dir, depot_id, manifest_id),
        contents: filelist_of_manifest(manifest),
    }
}

/// The bytes of a manifest cache that can be decoded: an unreadable or empty
/// one cannot.
pub open spec fn usable_bytes(raw: Option<Seq<u8>>) -> Option<Seq<u8>> {
    match raw {
        Some(raw) if raw.len() > 0 => Some(raw),
        _ => None,
    }
}

/// The values of bytes that may be absent.
pub open spec fn bytes_view(raw: Option<Vec<u8>>) -> Option<Seq<u8>> {
    match raw {
        Some(raw) => Some(raw@),
        None => None,
    }
}

/// The bytes of a manifest cache, where they can be decoded.
pub fn usable_manifest(raw: Option<Vec<u8>>) -> (usable: Option<Vec<u8>>)
    ensures
        bytes_view(usable) == usable_bytes(bytes_view(raw)),
{
    match raw {
        Some(raw) => if raw.len() > 0 {
            Some(raw)
        } else {
            None
        },
        None => None,
    }
}

/// Writes the file list of an installed depot that has none yet, from its
/// decoded manifest. Nothing is written where the list exists or the manifest
/// cannot be read.
pub fn backfill_filelist_sidecar(
    config_dir: &str,
    depot: &ResolvedDepotSpec,
    sidecar_exists: bool,
    manifest: Option<ContentManifest>,
) -> (write: Option<FileWrite>)
    ensures
        write_view(write) == match manifest {
            Some(manifest) if !sidecar_exists => Some(
                filelist_write(config_dir@, depot.depot_id, depot.manifest_id, manifest@),
            ),
            _ => None,
        },
{
    if sidecar_exists {
        return None;
    }
    match manifest {
        Some(manifest) => Some(
            write_filelist_sidecar(config_dir, depot.depot_id, depot.manifest_id, &manifest),
        ),
        None => None,
    }
}

// ---------------------------------------------------------------------------
// Markers
// ---------------------------------------------------------------------------

/// A manifest id that stands for a build.
pub open spec fn is_build(manifest_id: u64) -> bool {
    manifest_id != 0 && manifest_id != INVALID_MANIFEST_ID
}

/// The write that marks a build.
pub open spec fn marker_write(config_dir: Seq<char>, depot_id: u32, manifest_id: u64) -> FileWriteView {
    FileWriteView {
        path: path_in(config_dir, build_file(depot_id, manifest_id, STALE_CLEANUP_SUFFIX@)),
        contents: decimal(manifest_id as nat),
    }
}

fn write_cleanup_marker(config_dir: &str, depot_id: u32, manifest_id: u64) -> (write: FileWrite)
    ensures
        write@ == marker_write(config_dir@, depot_id, manifest_id),
{
    FileWrite {
        path: stale_cleanup_marker_path(config_dir, depot_id, manifest_id),
        contents: decimal_text(manifest_id),
    }
}

/// Records that a depot is about to move off `old_manifest_id`, so that the
/// files of the old build can be taken away once the new one is wholly on
/// disk. The marker outlives a pause or a cancel: a pass runs only after a
/// download that succeeded, and a marker left over is tried again then.
pub fn record_pending_cleanup(
    config_dir: &str,
    depot_id: u32,
    old_manifest_id: u64,
    new_manifest_id: u64,
) -> (write: Option<FileWrite>)
    ensures
        write_view(write) == if is_build(old_manifest_id) && old_manifest_id != new_manifest_id {
            Some(marker_write(config_dir@, depot_id, old_manifest_id))
        } else {
            None
        },
{
    if old_manifest_id == 0 || old_manifest_id == INVALID_MANIFEST_ID || old_manifest_id
        == new_manifest_id {
        return None;
    }
    Some(write_cleanup_marker(config_dir, depot_id, old_manifest_id))
}

/// Marks a build whose write started but never committed: its files can be on
/// disk with no entry in the depot config to compare them with. The marker is
/// dropped if the build commits after all; else the next download that
/// succeeds takes the files away.
pub fn record_aborted_build(config_dir: &str, depot_id: u32, manifest_id: u64) -> (write: Option<
    FileWrite,
>)
    ensures
        write_view(write) == if is_build(manifest_id) {
            Some(marker_write(config_dir@, depot_id, manifest_id))
        } else {
            None
        },
{
    if manifest_id == 0 || manifest_id == INVALID_MANIFEST_ID {
        return None;
    }
    Some(write_cleanup_marker(config_dir, depot_id, manifest_id))
}

// ---------------------------------------------------------------------------
// Laws
// ---------------------------------------------------------------------------

/// A marker that was recorded is pending as long as its file is in the config
/// directory, whatever else is there.
pub proof fn law_recorded_marker_is_pending(names: Seq<Seq<char>>, depot_id: u32, manifest_id: u64)
    requires
        names.contains(build_file(depot_id, manifest_id, STALE_CLEANUP_SUFFIX@)),
    ensures
        marked_builds(names).contains((depot_id, manifest_id)),
{
    crate::depot_cleanup::builds::law_marker_names_build(depot_id, manifest_id);
    crate::depot_cleanup::builds::lemma_marked_builds(names);
    let name = build_file(depot_id, manifest_id, STALE_CLEANUP_SUFFIX@);
    let i = choose|i: int| 0 <= i < names.len() && names[i] == name;
    assert(crate::depot_cleanup::builds::marker_build(names[i]) == Some((depot_id, manifest_id)));
}

/// Which builds are marked: any but the id zero and the largest id, which stand
/// for no build.
pub proof fn law_marked_ids(manifest_id: u64)
    ensures
        is_build(manifest_id) <==> 1 <= manifest_id <= 0xffff_ffff_ffff_fffe,
{
}

/// What a marker is: a file under the marker's name in the config directory,
/// with the manifest id in decimal.
pub proof fn law_marker_file(config_dir: Seq<char>, depot_id: u32, manifest_id: u64)
    ensures
        marker_write(config_dir, depot_id, manifest_id).contents == decimal(manifest_id as nat),
        marker_write(config_dir, depot_id, manifest_id).path == path_in(
            config_dir,
            decimal(depot_id as nat) + seq!['_'] + decimal(manifest_id as nat) + seq![
                '.',
                's',
                't',
                'a',
                'l',
                'e',
                'c',
                'l',
                'e',
                'a',
                'n',
                'u',
                'p',
            ],
        ),
{
    crate::depot_cleanup::builds::law_build_file_names(depot_id, manifest_id);
}

/// What a written file list is: a file under its name in the config directory,
/// which gives back every file of a manifest whose names are not empty and hold
/// no line feed and no carriage return.
pub proof fn law_filelist_file(
    config_dir: Seq<char>,
    depot_id: u32,
    manifest_id: u64,
    files: Seq<ManifestFileView>,
)
    requires
        files.len() <= usize::MAX,
        forall|i: int| 0 <= i < files.len() ==> (#[trigger] files[i]).filename.len() > 0,
        forall|i: int, k: int|
            0 <= i < files.len() && 0 <= k < files[i].filename.len() ==> (
            #[trigger] files[i].filename[k]) != '\n' && files[i].filename[k] != '\r',
    ensures
        filelist_write(config_dir, depot_id, manifest_id, files).path == path_in(
            config_dir,
            decimal(depot_id as nat) + seq!['_'] + decimal(manifest_id as nat) + seq![
                '.',
                'f',
                'i',
                'l',
                'e',
                'l',
                'i',
                's',
                't',
            ],
        ),
        crate::depot_cleanup::filelist::read_filelist(
            filelist_write(config_dir, depot_id, manifest_id, files).contents,
        ) matches Some(found) && {
            &&& found.len() == files.len()
            &&& forall|i: int|
                0 <= i < files.len() ==> (#[trigger] found[i]).name == files[i].filename && (
                found[i].is_dir <==> (files[i].flags / 64) % 2 == 1)
        },
{
    crate::depot_cleanup::builds::law_build_file_names(depot_id, manifest_id);
    crate::depot_cleanup::filelist::law_plain_names_are_given_back(files);
}

/// Bytes can be decoded if and only if there is one.
pub proof fn law_usable_bytes(raw: Seq<u8>)
    ensures
        usable_bytes(None) is None,
        usable_bytes(Some(raw)) == if raw.len() == 0 {
            None
        } else {
            Some(raw)
        },
{
}

} // verus!
