//! The cleanup pass as a sequence of questions and answers. A pass asks for one
//! thing at a time: something to be read, or to be removed. What it asks next
//! follows from its state and the answer alone.
use crate::content_manifest::ManifestFileView;
use crate::depot_cleanup::builds::{cached_builds, marked_builds, with_builds};
use crate::depot_cleanup::dirs::with_dir;
use crate::depot_cleanup::filelist::{manifest_entries, read_filelist, EntryView};
use crate::depot_cleanup::paths::{parts_key, path_key, safe_parts};
use crate::depot_cleanup::records::usable_bytes;
use crate::depot_config::INVALID_MANIFEST_ID;
use crate::depot_downloader::{key_of, ResolvedDepotSpec};
use crate::text::ends_with;
use vstd::prelude::*;

verus! {

/// A file that is an executable.
pub const EXE_SUFFIX: &'static str = ".exe";

/// What the name of an executable's backup ends with, after the name of the
/// executable.
pub const BACKUP_SUFFIX: &'static str = ".original.exe";

// ---------------------------------------------------------------------------
// Questions and answers
// ---------------------------------------------------------------------------

/// What stands at a path, links not followed.
#[derive(Clone, Copy, Debug, PartialEq, Eq, Structural)]
pub enum NodeKind {
    Missing,
    Directory,
    Other,
}

/// Why a pass has nothing more to do.
#[derive(Clone, Copy, Debug, PartialEq, Eq, Structural)]
pub enum Ending {
    /// Every build on disk was looked at.
    Finished,
    /// No build is cached or marked.
    NothingOnDisk,
    /// The depot config lists nothing.
    NothingInstalled,
    /// An installed depot is in progress.
    InProgress(u32),
    /// The entries of an installed build cannot be read.
    Unreadable(u32, u64),
}

/// What a pass asks for, by its values. Paths are components under the install
/// directory.
#[verifier::ext_equal]
pub enum RequestView {
    /// The installed builds.
    Installed,
    /// The names in the config directory.
    Names,
    /// The text of a build's file list.
    Sidecar(u32, u64),
    /// The bytes of a build's manifest.
    Manifest(u32, u64),
    /// The manifest in these bytes, decrypted with this key.
    Decode(Seq<u8>, Seq<u8>),
    /// Whether a build's file list is a file.
    SidecarExists(u32, u64),
    /// Whether a build's manifest is a file.
    ManifestExists(u32, u64),
    /// Whether a symbolic link is at a path.
    IsLink(Seq<Seq<char>>),
    /// What is at a path.
    Stat(Seq<Seq<char>>),
    /// To remove a file, and whether it was removed.
    RemoveFile(Seq<Seq<char>>),
    /// To remove an empty directory, and whether it was removed.
    RemoveDir(Seq<Seq<char>>),
    /// To remove a build's marker, if it is there.
    DropMarker(u32, u64),
    /// Nothing more: this many files were removed.
    Done(nat),
}

/// An answer, by its values.
#[verifier::ext_equal]
pub enum ReplyView {
    Installed(Seq<(u32, u64)>),
    Names(Seq<Seq<char>>),
    Text(Option<Seq<char>>),
    Bytes(Option<Seq<u8>>),
    Manifest(Option<Seq<ManifestFileView>>),
    Flag(bool),
    Kind(NodeKind),
    Dropped,
}

// ---------------------------------------------------------------------------
// States
// ---------------------------------------------------------------------------

/// How far the reading of a build's entries has come.
#[verifier::ext_equal]
pub enum LoadView {
    Sidecar,
    Manifest,
    Decode(Seq<u8>),
}

/// What is asked of an entry in hand: of which ancestor whether it is a link,
/// what is there, and to remove it.
pub enum StepView {
    Link(int),
    Stat,
    Remove,
}

/// The entries of a build, the one in hand, and the directories that may have
/// become empty.
#[verifier::ext_equal]
pub struct SweepView {
    pub entries: Seq<EntryView>,
    pub i: int,
    pub dirs: Seq<Seq<Seq<char>>>,
}

/// What a pass is about to do, or waits for.
#[verifier::ext_equal]
pub enum StageView {
    /// Waits for the installed builds.
    Config,
    /// Waits for the names in the config directory, for cached builds.
    Cached,
    /// Waits for the names in the config directory, for markers.
    Marked,
    /// Reads an installed build, or an old one.
    Load { stale: bool, at: int, load: LoadView },
    /// Asks for the files of an old build that could not be read.
    Probe { at: int, manifest: bool },
    /// Removes the files of an old build.
    Sweep { at: int, sweep: SweepView, target: Seq<Seq<char>>, backup: bool, step: StepView },
    /// Removes the directories that an old build left empty.
    Prune { at: int, dirs: Seq<Seq<Seq<char>>>, dir: Seq<Seq<char>> },
    /// Removes the marker of an old build.
    Drop { at: int },
    /// Has nothing more to do.
    Done(Ending),
}

/// A pass by its values.
#[verifier::ext_equal]
pub struct PassView {
    /// The depots of the operation, with their keys.
    pub depots: Seq<ResolvedDepotSpec>,
    /// The installed builds.
    pub installed: Seq<(u32, u64)>,
    /// The builds on disk.
    pub builds: Seq<(u32, u64)>,
    /// The keys of all that the installed builds hold.
    pub keep: Set<Seq<char>>,
    /// How many files were removed.
    pub deleted: nat,
    pub stage: StageView,
}

/// A pass that has not asked for anything yet.
pub open spec fn start(depots: Seq<ResolvedDepotSpec>) -> PassView {
    PassView {
        depots,
        installed: Seq::empty(),
        builds: Seq::empty(),
        keep: Set::empty(),
        deleted: 0,
        stage: StageView::Config,
    }
}

// ---------------------------------------------------------------------------
// Rules
// ---------------------------------------------------------------------------

/// The build of a depot that is installed; where a depot is listed more than
/// once, the last one.
pub open spec fn current_of(installed: Seq<(u32, u64)>, depot_id: u32) -> Option<u64>
    decreases installed.len(),
{
    if installed.len() == 0 {
        None
    } else if installed.last().0 == depot_id {
        Some(installed.last().1)
    } else {
        current_of(installed.drop_last(), depot_id)
    }
}

/// A build of a depot of which another build is installed.
pub open spec fn is_stale(installed: Seq<(u32, u64)>, build: (u32, u64)) -> bool {
    match current_of(installed, build.0) {
        Some(gid) => gid != build.1,
        None => false,
    }
}

/// The keys, and those of the entries.
pub open spec fn keep_with(keep: Set<Seq<char>>, entries: Seq<EntryView>) -> Set<Seq<char>>
    decreases entries.len(),
{
    if entries.len() == 0 {
        keep
    } else {
        keep_with(keep, entries.drop_last()).insert(path_key(entries.last().name))
    }
}

/// A name that no installed build holds and that is safe to remove.
pub open spec fn is_orphan(keep: Set<Seq<char>>, name: Seq<char>) -> bool {
    !keep.contains(path_key(name)) && safe_parts(name) is Some
}

/// A file whose backup goes with it: an executable, unless an installed build
/// holds a file under the backup's name.
pub open spec fn has_backup(keep: Set<Seq<char>>, name: Seq<char>) -> bool {
    ends_with(path_key(name), EXE_SUFFIX@) && !keep.contains(path_key(name) + BACKUP_SUFFIX@)
}

/// The path of a file's backup: next to it, with a suffix to its name.
pub open spec fn backup_of(parts: Seq<Seq<char>>) -> Seq<Seq<char>> {
    parts.drop_last().push(parts.last() + BACKUP_SUFFIX@)
}

/// A directory that stays though it be empty: the install directory, and one
/// that an installed build holds.
pub open spec fn is_pinned(keep: Set<Seq<char>>, dir: Seq<Seq<char>>) -> bool {
    dir.len() == 0 || keep.contains(parts_key(dir))
}

// ---------------------------------------------------------------------------
// What comes next
// ---------------------------------------------------------------------------

/// The stage at the old builds from the one at `at`. The installed build of a
/// depot is not old, and its marker is dropped. The builds of a depot that is
/// not installed are left alone: nothing is known of what is still in use.
pub open spec fn next_build(
    installed: Seq<(u32, u64)>,
    builds: Seq<(u32, u64)>,
    at: int,
) -> StageView
    decreases builds.len() - at,
{
    if at >= builds.len() {
        StageView::Done(Ending::Finished)
    } else {
        match current_of(installed, builds[at].0) {
            None => next_build(installed, builds, at + 1),
            Some(gid) => if gid == builds[at].1 {
                StageView::Drop { at }
            } else {
                StageView::Load { stale: true, at, load: LoadView::Sidecar }
            },
        }
    }
}

/// The stage at the installed builds from the one at `at`. A build that is in
/// progress ends the pass, and so does a config that lists nothing.
pub open spec fn next_installed(
    installed: Seq<(u32, u64)>,
    builds: Seq<(u32, u64)>,
    at: int,
) -> StageView {
    if at >= installed.len() {
        if installed.len() == 0 {
            StageView::Done(Ending::NothingInstalled)
        } else {
            next_build(installed, builds, 0)
        }
    } else if installed[at].1 == INVALID_MANIFEST_ID {
        StageView::Done(Ending::InProgress(installed[at].0))
    } else {
        StageView::Load { stale: false, at, load: LoadView::Sidecar }
    }
}

/// The stage at the directories, from the last one.
pub open spec fn next_dir(keep: Set<Seq<char>>, at: int, dirs: Seq<Seq<Seq<char>>>) -> StageView
    decreases dirs.len(),
{
    if dirs.len() == 0 {
        StageView::Drop { at }
    } else if is_pinned(keep, dirs.last()) {
        next_dir(keep, at, dirs.drop_last())
    } else {
        StageView::Prune { at, dirs: dirs.drop_last(), dir: dirs.last() }
    }
}

/// The stage at `dir`, which may have become empty, and then at `dirs`.
pub open spec fn prune_up(
    keep: Set<Seq<char>>,
    at: int,
    dirs: Seq<Seq<Seq<char>>>,
    dir: Seq<Seq<char>>,
) -> StageView {
    if is_pinned(keep, dir) {
        next_dir(keep, at, dirs)
    } else {
        StageView::Prune { at, dirs, dir }
    }
}

/// The stage in which the entry in hand is asked for.
pub open spec fn sweeping(at: int, sweep: SweepView, step: StepView) -> StageView {
    StageView::Sweep {
        at,
        sweep,
        target: safe_parts(sweep.entries[sweep.i].name)->0,
        backup: false,
        step,
    }
}

/// The entries after the one in hand.
pub open spec fn rest_of(sweep: SweepView) -> SweepView {
    SweepView { i: sweep.i + 1, ..sweep }
}

/// The entries after the one in hand, with one more directory.
pub open spec fn rest_with_dir(sweep: SweepView, dir: Seq<Seq<char>>) -> SweepView {
    SweepView { i: sweep.i + 1, dirs: with_dir(sweep.dirs, dir), ..sweep }
}

/// The stage at the entries from the one in hand. A directory is kept for
/// later, a file is asked for; first come the ancestors.
pub open spec fn next_entry(keep: Set<Seq<char>>, at: int, sweep: SweepView) -> StageView
    decreases sweep.entries.len() - sweep.i,
{
    if sweep.i >= sweep.entries.len() {
        next_dir(keep, at, sweep.dirs)
    } else {
        let entry = sweep.entries[sweep.i];
        let parts = safe_parts(entry.name)->0;
        if !is_orphan(keep, entry.name) {
            next_entry(keep, at, rest_of(sweep))
        } else if parts.len() > 1 {
            sweeping(at, sweep, StepView::Link(1))
        } else if entry.is_dir {
            next_entry(keep, at, rest_with_dir(sweep, parts))
        } else {
            sweeping(at, sweep, StepView::Stat)
        }
    }
}

/// The stage at the entry in hand when none of its first `k` ancestors is a
/// link.
pub open spec fn past_ancestors(
    keep: Set<Seq<char>>,
    at: int,
    sweep: SweepView,
    k: int,
) -> StageView {
    let entry = sweep.entries[sweep.i];
    let parts = safe_parts(entry.name)->0;
    if k + 1 < parts.len() {
        sweeping(at, sweep, StepView::Link(k + 1))
    } else if entry.is_dir {
        next_entry(keep, at, rest_with_dir(sweep, parts))
    } else {
        sweeping(at, sweep, StepView::Stat)
    }
}

/// The stage after a file is gone from `target`: the directory that it was in
/// may have become empty.
pub open spec fn leave(
    keep: Set<Seq<char>>,
    at: int,
    sweep: SweepView,
    target: Seq<Seq<char>>,
) -> StageView {
    if target.len() > 1 {
        next_entry(keep, at, rest_with_dir(sweep, target.drop_last()))
    } else {
        next_entry(keep, at, rest_of(sweep))
    }
}

/// The stage after the file in hand, or its backup, was removed.
pub open spec fn removed(
    keep: Set<Seq<char>>,
    at: int,
    sweep: SweepView,
    target: Seq<Seq<char>>,
    backup: bool,
) -> StageView {
    if !backup && has_backup(keep, sweep.entries[sweep.i].name) {
        StageView::Sweep {
            at,
            sweep,
            target: backup_of(target),
            backup: true,
            step: StepView::Stat,
        }
    } else {
        leave(keep, at, sweep, target)
    }
}

/// The stage where the file in hand, or its backup, is still there or never
/// was. A backup is asked for only after its file is gone.
pub open spec fn not_removed(
    keep: Set<Seq<char>>,
    at: int,
    sweep: SweepView,
    target: Seq<Seq<char>>,
    backup: bool,
) -> StageView {
    if backup {
        leave(keep, at, sweep, target)
    } else {
        next_entry(keep, at, rest_of(sweep))
    }
}

/// The entries of a build, none looked at yet.
pub open spec fn whole_sweep(entries: Seq<EntryView>) -> SweepView {
    SweepView { entries, i: 0, dirs: Seq::empty() }
}

/// The pass when the entries of the build in hand are known, or cannot be. An
/// installed build that cannot be read ends the pass: a file may have moved
/// into it.
pub open spec fn loaded(
    s: PassView,
    stale: bool,
    at: int,
    entries: Option<Seq<EntryView>>,
) -> PassView {
    match entries {
        Some(entries) => if stale {
            PassView { stage: next_entry(s.keep, at, whole_sweep(entries)), ..s }
        } else {
            PassView {
                keep: keep_with(s.keep, entries),
                stage: next_installed(s.installed, s.builds, at + 1),
                ..s
            }
        },
        None => if stale {
            PassView { stage: StageView::Probe { at, manifest: false }, ..s }
        } else {
            PassView {
                stage: StageView::Done(Ending::Unreadable(s.installed[at].0, s.installed[at].1)),
                ..s
            }
        },
    }
}

/// The build that is read.
pub open spec fn load_build(s: PassView, stale: bool, at: int) -> (u32, u64) {
    if stale {
        s.builds[at]
    } else {
        s.installed[at]
    }
}

/// What a pass asks for.
pub open spec fn request(s: PassView) -> RequestView {
    match s.stage {
        StageView::Config => RequestView::Installed,
        StageView::Cached => RequestView::Names,
        StageView::Marked => RequestView::Names,
        StageView::Load { stale, at, load } => {
            let build = load_build(s, stale, at);
            match load {
                LoadView::Sidecar => RequestView::Sidecar(build.0, build.1),
                LoadView::Manifest => RequestView::Manifest(build.0, build.1),
                LoadView::Decode(raw) => RequestView::Decode(raw, key_of(s.depots, build.0)->0),
            }
        },
        StageView::Probe { at, manifest } => if manifest {
            RequestView::ManifestExists(s.builds[at].0, s.builds[at].1)
        } else {
            RequestView::SidecarExists(s.builds[at].0, s.builds[at].1)
        },
        StageView::Sweep { target, step, .. } => match step {
            StepView::Link(k) => RequestView::IsLink(target.take(k)),
            StepView::Stat => RequestView::Stat(target),
            StepView::Remove => RequestView::RemoveFile(target),
        },
        StageView::Prune { dir, .. } => RequestView::RemoveDir(dir),
        StageView::Drop { at } => RequestView::DropMarker(s.builds[at].0, s.builds[at].1),
        StageView::Done(_) => RequestView::Done(s.deleted),
    }
}

/// Why a pass is done, where it is.
pub open spec fn ending(s: PassView) -> Option<Ending> {
    match s.stage {
        StageView::Done(why) => Some(why),
        _ => None,
    }
}

/// The build on disk that a pass is at, once it knows what is kept.
pub open spec fn build_in_hand(s: PassView) -> Option<(u32, u64)> {
    match s.stage {
        StageView::Load { stale, at, .. } => if stale {
            Some(s.builds[at])
        } else {
            None
        },
        StageView::Probe { at, .. } => Some(s.builds[at]),
        StageView::Sweep { at, .. } => Some(s.builds[at]),
        StageView::Prune { at, .. } => Some(s.builds[at]),
        StageView::Drop { at } => Some(s.builds[at]),
        _ => None,
    }
}

/// The builds on disk whose depot is not installed.
pub open spec fn unknown_builds(
    installed: Seq<(u32, u64)>,
    builds: Seq<(u32, u64)>,
) -> Seq<(u32, u64)> {
    builds.filter(|build: (u32, u64)| current_of(installed, build.0) is None)
}

/// Whether an answer is of the kind that was asked for.
pub open spec fn answers(s: PassView, reply: ReplyView) -> bool {
    match request(s) {
        RequestView::Installed => reply is Installed,
        RequestView::Names => reply is Names,
        RequestView::Sidecar(_, _) => reply is Text,
        RequestView::Manifest(_, _) => reply is Bytes,
        RequestView::Decode(_, _) => reply is Manifest,
        RequestView::SidecarExists(_, _) => reply is Flag,
        RequestView::ManifestExists(_, _) => reply is Flag,
        RequestView::IsLink(_) => reply is Flag,
        RequestView::Stat(_) => reply is Kind,
        RequestView::RemoveFile(_) => reply is Flag,
        RequestView::RemoveDir(_) => reply is Flag,
        RequestView::DropMarker(_, _) => reply is Dropped,
        RequestView::Done(_) => false,
    }
}

/// The pass after an answer. An answer to another question changes nothing.
pub open spec fn next(s: PassView, reply: ReplyView) -> PassView {
    match (s.stage, reply) {
        (StageView::Config, ReplyView::Installed(installed)) => PassView {
            installed,
            stage: StageView::Cached,
            ..s
        },
        (StageView::Cached, ReplyView::Names(names)) => PassView {
            builds: cached_builds(names),
            stage: StageView::Marked,
            ..s
        },
        (StageView::Marked, ReplyView::Names(names)) => {
            let builds = with_builds(s.builds, marked_builds(names));
            PassView {
                builds,
                stage: if builds.len() == 0 {
                    StageView::Done(Ending::NothingOnDisk)
                } else {
                    next_installed(s.installed, builds, 0)
                },
                ..s
            }
        },
        (StageView::Load { stale, at, load: LoadView::Sidecar }, ReplyView::Text(text)) => {
            let entries = match text {
                Some(text) => read_filelist(text),
                None => None,
            };
            if entries is None && key_of(s.depots, load_build(s, stale, at).0) is Some {
                PassView { stage: StageView::Load { stale, at, load: LoadView::Manifest }, ..s }
            } else {
                loaded(s, stale, at, entries)
            }
        },
        (StageView::Load { stale, at, load: LoadView::Manifest }, ReplyView::Bytes(raw)) => {
            match usable_bytes(raw) {
                Some(raw) => PassView {
                    stage: StageView::Load { stale, at, load: LoadView::Decode(raw) },
                    ..s
                },
                None => loaded(s, stale, at, None),
            }
        },
        (StageView::Load { stale, at, load: LoadView::Decode(_) }, ReplyView::Manifest(files)) => {
            loaded(
                s,
                stale,
                at,
                match files {
                    Some(files) => Some(manifest_entries(files)),
                    None => None,
                },
            )
        },
        (StageView::Probe { at, manifest }, ReplyView::Flag(present)) => PassView {
            stage: if present {
                next_build(s.installed, s.builds, at + 1)
            } else if manifest {
                StageView::Drop { at }
            } else {
                StageView::Probe { at, manifest: true }
            },
            ..s
        },
        (StageView::Sweep { at, sweep, step: StepView::Link(k), .. }, ReplyView::Flag(link)) =>
        PassView {
            stage: if link {
                next_entry(s.keep, at, rest_of(sweep))
            } else {
                past_ancestors(s.keep, at, sweep, k)
            },
            ..s
        },
        (
            StageView::Sweep { at, sweep, target, backup, step: StepView::Stat },
            ReplyView::Kind(kind),
        ) => PassView {
            stage: if kind == NodeKind::Other {
                StageView::Sweep { at, sweep, target, backup, step: StepView::Remove }
            } else {
                not_removed(s.keep, at, sweep, target, backup)
            },
            ..s
        },
        (
            StageView::Sweep { at, sweep, target, backup, step: StepView::Remove },
            ReplyView::Flag(gone),
        ) => if gone {
            PassView {
                deleted: s.deleted + 1,
                stage: removed(s.keep, at, sweep, target, backup),
                ..s
            }
        } else {
            PassView { stage: not_removed(s.keep, at, sweep, target, backup), ..s }
        },
        (StageView::Prune { at, dirs, dir }, ReplyView::Flag(gone)) => PassView {
            stage: if gone {
                prune_up(s.keep, at, dirs, dir.drop_last())
            } else {
                next_dir(s.keep, at, dirs)
            },
            ..s
        },
        (StageView::Drop { at }, ReplyView::Dropped) => PassView {
            stage: next_build(s.installed, s.builds, at + 1),
            ..s
        },
        _ => s,
    }
}

} // verus!
