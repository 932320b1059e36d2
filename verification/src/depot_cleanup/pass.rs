//! The cleanup pass, run one question at a time by whoever can answer.
use crate::content_manifest::{ContentManifest, ManifestFileView};
use crate::depot_cleanup::builds::{collect_cached_builds, insert_builds, pending_cleanup_markers};
use crate::depot_cleanup::dirs::{insert_dir, paths};
use crate::depot_cleanup::filelist::{
    entries_of_manifest, entries_view, read_filelist_sidecar, FileEntry,
};
use crate::depot_cleanup::paths::{
    key_of_parts, normalized_key, path_key, safe_parts, sanitized_components, strs,
};
use crate::depot_cleanup::records::{bytes_view, usable_manifest};
use crate::depot_cleanup::soundness::{is_sound, law_next_is_sound};
use crate::depot_cleanup::steps::{
    backup_of, build_in_hand, current_of, ending, has_backup, is_orphan, is_pinned, keep_with,
    leave, loaded, next, next_build, next_dir, next_entry, next_installed, not_removed,
    past_ancestors, prune_up, removed, request, rest_of, rest_with_dir, start, unknown_builds,
    whole_sweep, Ending, LoadView, NodeKind, PassView, ReplyView, RequestView, StageView, StepView,
    SweepView, BACKUP_SUFFIX, EXE_SUFFIX,
};
use crate::depot_config::INVALID_MANIFEST_ID;
use crate::depot_downloader::{key_of_depot, ResolvedDepotSpec};
use crate::text::{strip_suffix_text, texts};
use vstd::hash_set::StringHashSet;
use vstd::prelude::*;
use vstd::slice::slice_subrange;

verus! {

// ---------------------------------------------------------------------------
// Questions and answers
// ---------------------------------------------------------------------------

/// What a pass asks for. Builds are a depot id and a manifest id; paths are
/// components under the install directory.
#[derive(Clone, Copy, Debug, PartialEq, Eq)]
pub enum Request<'a> {
    /// The installed builds.
    Installed,
    /// The names in the config directory.
    Names,
    /// The text of a build's file list.
    Sidecar(u32, u64),
    /// The bytes of a build's manifest.
    Manifest(u32, u64),
    /// The manifest in these bytes, decrypted with this key.
    Decode(&'a [u8], &'a [u8]),
    /// Whether a build's file list is a file.
    SidecarExists(u32, u64),
    /// Whether a build's manifest is a file.
    ManifestExists(u32, u64),
    /// Whether a symbolic link is at a path.
    IsLink(&'a [String]),
    /// What is at a path, links not followed.
    Stat(&'a [String]),
    /// To remove a file, and whether it was removed.
    RemoveFile(&'a [String]),
    /// To remove an empty directory, and whether it was removed.
    RemoveDir(&'a [String]),
    /// To remove a build's marker, if it is there.
    DropMarker(u32, u64),
    /// Nothing more: this many files were removed.
    Done(u32),
}

impl<'a> View for Request<'a> {
    type V = RequestView;

    open spec fn view(&self) -> RequestView {
        match *self {
            Request::Installed => RequestView::Installed,
            Request::Names => RequestView::Names,
            Request::Sidecar(depot_id, manifest_id) => RequestView::Sidecar(depot_id, manifest_id),
            Request::Manifest(depot_id, manifest_id) => RequestView::Manifest(
                depot_id,
                manifest_id,
            ),
            Request::Decode(raw, key) => RequestView::Decode(raw@, key@),
            Request::SidecarExists(depot_id, manifest_id) => RequestView::SidecarExists(
                depot_id,
                manifest_id,
            ),
            Request::ManifestExists(depot_id, manifest_id) => RequestView::ManifestExists(
                depot_id,
                manifest_id,
            ),
            Request::IsLink(parts) => RequestView::IsLink(texts(parts@)),
            Request::Stat(parts) => RequestView::Stat(texts(parts@)),
            Request::RemoveFile(parts) => RequestView::RemoveFile(texts(parts@)),
            Request::RemoveDir(parts) => RequestView::RemoveDir(texts(parts@)),
            Request::DropMarker(depot_id, manifest_id) => RequestView::DropMarker(
                depot_id,
                manifest_id,
            ),
            Request::Done(deleted) => RequestView::Done(deleted as nat),
        }
    }
}

/// An answer to a pass.
#[derive(Clone, Debug, PartialEq, Eq)]
pub enum Reply {
    Installed(Vec<(u32, u64)>),
    Names(Vec<String>),
    Text(Option<String>),
    Bytes(Option<Vec<u8>>),
    Manifest(Option<ContentManifest>),
    Flag(bool),
    Kind(NodeKind),
    Dropped,
}

/// The values of a text that may be absent.
pub open spec fn text_view(text: Option<String>) -> Option<Seq<char>> {
    match text {
        Some(text) => Some(text@),
        None => None,
    }
}

/// The values of a manifest that may be absent.
pub open spec fn manifest_view(manifest: Option<ContentManifest>) -> Option<Seq<ManifestFileView>> {
    match manifest {
        Some(manifest) => Some(manifest@),
        None => None,
    }
}

impl View for Reply {
    type V = ReplyView;

    open spec fn view(&self) -> ReplyView {
        match *self {
            Reply::Installed(installed) => ReplyView::Installed(installed@),
            Reply::Names(names) => ReplyView::Names(texts(names@)),
            Reply::Text(text) => ReplyView::Text(text_view(text)),
            Reply::Bytes(bytes) => ReplyView::Bytes(bytes_view(bytes)),
            Reply::Manifest(manifest) => ReplyView::Manifest(manifest_view(manifest)),
            Reply::Flag(flag) => ReplyView::Flag(flag),
            Reply::Kind(kind) => ReplyView::Kind(kind),
            Reply::Dropped => ReplyView::Dropped,
        }
    }
}

// ---------------------------------------------------------------------------
// States
// ---------------------------------------------------------------------------

enum Load {
    Sidecar,
    Manifest,
    Decode(Vec<u8>),
}

impl Load {
    spec fn value(self) -> LoadView {
        match self {
            Load::Sidecar => LoadView::Sidecar,
            Load::Manifest => LoadView::Manifest,
            Load::Decode(raw) => LoadView::Decode(raw@),
        }
    }
}

enum Step {
    Link(usize),
    Stat,
    Remove,
}

impl Step {
    spec fn value(self) -> StepView {
        match self {
            Step::Link(k) => StepView::Link(k as int),
            Step::Stat => StepView::Stat,
            Step::Remove => StepView::Remove,
        }
    }
}

struct Sweep {
    entries: Vec<FileEntry>,
    i: usize,
    dirs: Vec<Vec<String>>,
}

impl Sweep {
    spec fn value(self) -> SweepView {
        SweepView {
            entries: entries_view(self.entries@),
            i: self.i as int,
            dirs: paths(self.dirs@),
        }
    }
}

enum Stage {
    Config,
    Cached,
    Marked,
    Load { stale: bool, at: usize, load: Load },
    Probe { at: usize, manifest: bool },
    Sweep { at: usize, sweep: Sweep, target: Vec<String>, backup: bool, step: Step },
    Prune { at: usize, dirs: Vec<Vec<String>>, dir: Vec<String> },
    Drop { at: usize },
    Done(Ending),
}

impl Stage {
    spec fn value(self) -> StageView {
        match self {
            Stage::Config => StageView::Config,
            Stage::Cached => StageView::Cached,
            Stage::Marked => StageView::Marked,
            Stage::Load { stale, at, load } => StageView::Load {
                stale,
                at: at as int,
                load: load.value(),
            },
            Stage::Probe { at, manifest } => StageView::Probe { at: at as int, manifest },
            Stage::Sweep { at, sweep, target, backup, step } => StageView::Sweep {
                at: at as int,
                sweep: sweep.value(),
                target: texts(target@),
                backup,
                step: step.value(),
            },
            Stage::Prune { at, dirs, dir } => StageView::Prune {
                at: at as int,
                dirs: paths(dirs@),
                dir: texts(dir@),
            },
            Stage::Drop { at } => StageView::Drop { at: at as int },
            Stage::Done(why) => StageView::Done(why),
        }
    }
}

/// A pass that takes away the files of old builds that no installed build
/// holds.
///
/// Candidates come from cached file lists alone, without all that any installed
/// build holds. What no build ever held is never a candidate: saves, settings
/// and files that a user added are safe. The one exception is the backup of an
/// executable, which goes with it, so that an old executable is not restored
/// from it.
pub struct CleanupPass<'a> {
    depots: &'a [ResolvedDepotSpec],
    installed: Vec<(u32, u64)>,
    builds: Vec<(u32, u64)>,
    keep: StringHashSet,
    deleted: u32,
    stage: Stage,
}

impl<'a> View for CleanupPass<'a> {
    type V = PassView;

    closed spec fn view(&self) -> PassView {
        PassView {
            depots: self.depots@,
            installed: self.installed@,
            builds: self.builds@,
            keep: self.keep@,
            deleted: self.deleted as nat,
            stage: self.stage.value(),
        }
    }
}

// ---------------------------------------------------------------------------
// Rules
// ---------------------------------------------------------------------------

/// The build of a depot that is installed.
fn current_build(installed: &Vec<(u32, u64)>, depot_id: u32) -> (current: Option<u64>)
    ensures
        current == current_of(installed@, depot_id),
{
    let mut at: usize = installed.len();
    proof {
        assert(installed@.take(at as int) == installed@);
    }
    while at > 0
        invariant
            at <= installed@.len(),
            current_of(installed@, depot_id) == current_of(installed@.take(at as int), depot_id),
        decreases at,
    {
        proof {
            assert(installed@.take(at as int).last() == installed@[at - 1]);
            assert(installed@.take(at as int).drop_last() == installed@.take(at - 1));
        }
        if installed[at - 1].0 == depot_id {
            return Some(installed[at - 1].1);
        }
        at -= 1;
    }
    None
}

/// Adds the keys of the entries.
fn keep_entries(keep: &mut StringHashSet, entries: &Vec<FileEntry>)
    ensures
        final(keep)@ == keep_with(old(keep)@, entries_view(entries@)),
{
    let ghost before = keep@;
    let ghost all = entries_view(entries@);
    for i in 0..entries.len()
        invariant
            all == entries_view(entries@),
            keep@ == keep_with(before, all.take(i as int)),
    {
        proof {
            assert(all.take(i + 1).drop_last() == all.take(i as int));
            assert(all.take(i + 1).last() == entries@[i as int]@);
        }
        keep.insert(normalized_key(entries[i].name.as_str()));
    }
    proof {
        assert(all.take(all.len() as int) == all);
    }
}

/// The components of a name that no installed build holds and that is safe to
/// remove.
fn orphan_parts(keep: &StringHashSet, name: &String) -> (parts: Option<Vec<String>>)
    ensures
        match parts {
            Some(parts) => is_orphan(keep@, name@) && texts(parts@) == safe_parts(name@)->0,
            None => !is_orphan(keep@, name@),
        },
{
    let key = normalized_key(name.as_str());
    if keep.contains(key.as_str()) {
        return None;
    }
    match sanitized_components(name.as_str()) {
        Some(slices) => {
            let mut parts: Vec<String> = Vec::new();
            for i in 0..slices.len()
                invariant
                    texts(parts@) == strs(slices@).take(i as int),
            {
                let part = slices[i].to_owned();
                let ghost before = parts@;
                parts.push(part);
                proof {
                    assert(strs(slices@).take(i + 1) == strs(slices@).take(i as int).push(part@));
                    assert(texts(parts@) == texts(before).push(part@));
                }
            }
            proof {
                assert(strs(slices@).take(slices@.len() as int) == strs(slices@));
            }
            Some(parts)
        },
        None => None,
    }
}

/// Whether a file's backup goes with it.
fn takes_backup(keep: &StringHashSet, name: &String) -> (yes: bool)
    ensures
        yes == has_backup(keep@, name@),
{
    let mut key = normalized_key(name.as_str());
    if strip_suffix_text(key.as_str(), EXE_SUFFIX).is_none() {
        return false;
    }
    key.append(BACKUP_SUFFIX);
    !keep.contains(key.as_str())
}

/// Turns the path of a file into that of its backup.
fn sibling_original_backup(target: &mut Vec<String>)
    requires
        old(target)@.len() > 0,
    ensures
        texts(final(target)@) == backup_of(texts(old(target)@)),
{
    let ghost before = target@;
    if let Some(mut name) = target.pop() {
        name.append(BACKUP_SUFFIX);
        let ghost last = name@;
        let ghost init = target@;
        target.push(name);
        proof {
            assert(init == before.drop_last());
            assert(texts(before).drop_last() == texts(init));
            assert(texts(before).last() == before.last()@);
            assert(texts(target@) == texts(init).push(last));
        }
    }
}

/// Whether a directory stays though it be empty.
fn stays(keep: &StringHashSet, dir: &Vec<String>) -> (yes: bool)
    ensures
        yes == is_pinned(keep@, texts(dir@)),
{
    if dir.len() == 0 {
        return true;
    }
    let key = key_of_parts(dir);
    keep.contains(key.as_str())
}

// ---------------------------------------------------------------------------
// What comes next
// ---------------------------------------------------------------------------

fn build_stage(installed: &Vec<(u32, u64)>, builds: &Vec<(u32, u64)>, from: usize) -> (stage: Stage)
    requires
        from <= builds@.len(),
    ensures
        stage.value() == next_build(installed@, builds@, from as int),
{
    let mut at: usize = from;
    while at < builds.len()
        invariant
            at <= builds@.len(),
            next_build(installed@, builds@, from as int) == next_build(
                installed@,
                builds@,
                at as int,
            ),
        decreases builds.len() - at,
    {
        if let Some(gid) = current_build(installed, builds[at].0) {
            if gid == builds[at].1 {
                return Stage::Drop { at };
            }
            return Stage::Load { stale: true, at, load: Load::Sidecar };
        }
        at += 1;
    }
    Stage::Done(Ending::Finished)
}

fn installed_stage(
    installed: &Vec<(u32, u64)>,
    builds: &Vec<(u32, u64)>,
    at: usize,
) -> (stage: Stage)
    ensures
        stage.value() == next_installed(installed@, builds@, at as int),
{
    if at >= installed.len() {
        if installed.len() == 0 {
            Stage::Done(Ending::NothingInstalled)
        } else {
            build_stage(installed, builds, 0)
        }
    } else if installed[at].1 == INVALID_MANIFEST_ID {
        Stage::Done(Ending::InProgress(installed[at].0))
    } else {
        Stage::Load { stale: false, at, load: Load::Sidecar }
    }
}

fn dir_stage(keep: &StringHashSet, at: usize, all: Vec<Vec<String>>) -> (stage: Stage)
    ensures
        stage.value() == next_dir(keep@, at as int, paths(all@)),
{
    let mut dirs = all;
    while dirs.len() > 0
        invariant
            next_dir(keep@, at as int, paths(all@)) == next_dir(keep@, at as int, paths(dirs@)),
        decreases dirs.len(),
    {
        let ghost before = dirs@;
        if let Some(dir) = dirs.pop() {
            proof {
                assert(dirs@ == before.drop_last());
                assert(paths(before).drop_last() == paths(dirs@));
                assert(paths(before).last() == texts(dir@));
            }
            if !stays(keep, &dir) {
                return Stage::Prune { at, dirs, dir };
            }
        }
    }
    Stage::Drop { at }
}

fn prune_stage(keep: &StringHashSet, at: usize, dirs: Vec<Vec<String>>, dir: Vec<String>) -> (stage:
    Stage)
    ensures
        stage.value() == prune_up(keep@, at as int, paths(dirs@), texts(dir@)),
{
    if stays(keep, &dir) {
        dir_stage(keep, at, dirs)
    } else {
        Stage::Prune { at, dirs, dir }
    }
}

fn entry_stage(keep: &StringHashSet, at: usize, all: Sweep) -> (stage: Stage)
    ensures
        stage.value() == next_entry(keep@, at as int, all.value()),
{
    let mut sweep = all;
    while sweep.i < sweep.entries.len()
        invariant
            next_entry(keep@, at as int, all.value()) == next_entry(
                keep@,
                at as int,
                sweep.value(),
            ),
        decreases sweep.entries.len() - sweep.i,
    {
        let i: usize = sweep.i;
        let ghost before = sweep.value();
        proof {
            assert(before.entries[i as int] == sweep.entries@[i as int]@);
        }
        match orphan_parts(keep, &sweep.entries[i].name) {
            Some(parts) => {
                proof {
                    assert(texts(parts@).len() == parts@.len());
                }
                if parts.len() > 1 {
                    return Stage::Sweep {
                        at,
                        sweep,
                        target: parts,
                        backup: false,
                        step: Step::Link(1),
                    };
                }
                if !sweep.entries[i].is_dir {
                    return Stage::Sweep {
                        at,
                        sweep,
                        target: parts,
                        backup: false,
                        step: Step::Stat,
                    };
                }
                proof {
                    crate::depot_cleanup::soundness::lemma_parts_inside(
                        before.entries[i as int].name,
                    );
                }
                insert_dir(&mut sweep.dirs, parts);
                sweep.i = i + 1;
                proof {
                    assert(sweep.value() == rest_with_dir(before, texts(parts@)));
                }
            },
            None => {
                sweep.i = i + 1;
                proof {
                    assert(sweep.value() == rest_of(before));
                }
            },
        }
    }
    dir_stage(keep, at, sweep.dirs)
}

/// Goes on with the entry in hand when none of its first `k` ancestors is a
/// link.
fn ancestors_stage(
    keep: &StringHashSet,
    at: usize,
    sweep: Sweep,
    target: Vec<String>,
    k: usize,
) -> (stage: Stage)
    requires
        sweep.i < sweep.entries.len(),
        texts(target@) == safe_parts(sweep.value().entries[sweep.i as int].name)->0,
        k < target.len(),
    ensures
        stage.value() == past_ancestors(keep@, at as int, sweep.value(), k as int),
{
    let ghost before = sweep.value();
    proof {
        assert(before.entries[sweep.i as int] == sweep.entries@[sweep.i as int]@);
        assert(texts(target@).len() == target@.len());
    }
    if k + 1 < target.len() {
        return Stage::Sweep { at, sweep, target, backup: false, step: Step::Link(k + 1) };
    }
    if sweep.entries[sweep.i].is_dir {
        let mut rest = sweep;
        insert_dir(&mut rest.dirs, target);
        rest.i = rest.i + 1;
        proof {
            assert(rest.value() == rest_with_dir(before, texts(target@)));
        }
        entry_stage(keep, at, rest)
    } else {
        Stage::Sweep { at, sweep, target, backup: false, step: Step::Stat }
    }
}

/// Goes on with the entries after the one in hand.
fn rest_stage(keep: &StringHashSet, at: usize, sweep: Sweep) -> (stage: Stage)
    requires
        sweep.i < sweep.entries.len(),
    ensures
        stage.value() == next_entry(keep@, at as int, rest_of(sweep.value())),
{
    let ghost before = sweep.value();
    let mut rest = sweep;
    rest.i = rest.i + 1;
    proof {
        assert(rest.value() == rest_of(before));
    }
    entry_stage(keep, at, rest)
}

/// Goes on after a file is gone from `target`.
fn leave_stage(keep: &StringHashSet, at: usize, sweep: Sweep, target: Vec<String>) -> (stage: Stage)
    requires
        sweep.i < sweep.entries.len(),
    ensures
        stage.value() == leave(keep@, at as int, sweep.value(), texts(target@)),
{
    let ghost before = sweep.value();
    let ghost parts = texts(target@);
    proof {
        assert(parts.len() == target@.len());
    }
    if target.len() <= 1 {
        return rest_stage(keep, at, sweep);
    }
    let mut dir = target;
    let _ = dir.pop();
    proof {
        assert(texts(dir@) == parts.drop_last());
    }
    let mut rest = sweep;
    insert_dir(&mut rest.dirs, dir);
    rest.i = rest.i + 1;
    proof {
        assert(rest.value() == rest_with_dir(before, parts.drop_last()));
    }
    entry_stage(keep, at, rest)
}

/// Goes on after the file in hand, or its backup, was removed.
fn removed_stage(
    keep: &StringHashSet,
    at: usize,
    sweep: Sweep,
    target: Vec<String>,
    backup: bool,
) -> (stage: Stage)
    requires
        sweep.i < sweep.entries.len(),
        target@.len() > 0,
    ensures
        stage.value() == removed(keep@, at as int, sweep.value(), texts(target@), backup),
{
    proof {
        assert(sweep.value().entries[sweep.i as int] == sweep.entries@[sweep.i as int]@);
    }
    if !backup && takes_backup(keep, &sweep.entries[sweep.i].name) {
        let mut sibling = target;
        sibling_original_backup(&mut sibling);
        Stage::Sweep { at, sweep, target: sibling, backup: true, step: Step::Stat }
    } else {
        leave_stage(keep, at, sweep, target)
    }
}

/// Goes on where the file in hand, or its backup, was not removed.
fn not_removed_stage(
    keep: &StringHashSet,
    at: usize,
    sweep: Sweep,
    target: Vec<String>,
    backup: bool,
) -> (stage: Stage)
    requires
        sweep.i < sweep.entries.len(),
    ensures
        stage.value() == not_removed(keep@, at as int, sweep.value(), texts(target@), backup),
{
    if backup {
        leave_stage(keep, at, sweep, target)
    } else {
        rest_stage(keep, at, sweep)
    }
}

// ---------------------------------------------------------------------------
// The pass
// ---------------------------------------------------------------------------

/// Starts a pass over the old builds on disk, for an operation that carries
/// the keys of `depots`. The pass is then asked for its requests, and resumed
/// with the answers, until it is done.
pub fn run_stale_file_cleanup<'a>(depots: &'a [ResolvedDepotSpec]) -> (pass: CleanupPass<'a>)
    ensures
        pass@ == start(depots@),
        is_sound(pass@),
{
    CleanupPass {
        depots,
        installed: Vec::new(),
        builds: Vec::new(),
        keep: StringHashSet::new(),
        deleted: 0,
        stage: Stage::Config,
    }
}

impl<'a> CleanupPass<'a> {
    /// What the pass asks for.
    pub fn request(&self) -> (asked: Request<'_>)
        requires
            is_sound(self@),
        ensures
            asked@ == request(self@),
    {
        match &self.stage {
            Stage::Config => Request::Installed,
            Stage::Cached => Request::Names,
            Stage::Marked => Request::Names,
            Stage::Load { stale, at, load } => {
                let build = if *stale {
                    self.builds[*at]
                } else {
                    self.installed[*at]
                };
                match load {
                    Load::Sidecar => Request::Sidecar(build.0, build.1),
                    Load::Manifest => Request::Manifest(build.0, build.1),
                    Load::Decode(raw) => match key_of_depot(self.depots, build.0) {
                        Some(key) => Request::Decode(raw.as_slice(), key.as_slice()),
                        // A manifest is read only where the key is known.
                        None => Request::Done(self.deleted),
                    },
                }
            },
            Stage::Probe { at, manifest } => {
                let build = self.builds[*at];
                if *manifest {
                    Request::ManifestExists(build.0, build.1)
                } else {
                    Request::SidecarExists(build.0, build.1)
                }
            },
            Stage::Sweep { target, step, .. } => match step {
                Step::Link(k) => {
                    let head = slice_subrange(target.as_slice(), 0, *k);
                    proof {
                        assert(texts(head@) == texts(target@).take(*k as int));
                    }
                    Request::IsLink(head)
                },
                Step::Stat => Request::Stat(target.as_slice()),
                Step::Remove => Request::RemoveFile(target.as_slice()),
            },
            Stage::Prune { dir, .. } => Request::RemoveDir(dir.as_slice()),
            Stage::Drop { at } => Request::DropMarker(self.builds[*at].0, self.builds[*at].1),
            Stage::Done(_) => Request::Done(self.deleted),
        }
    }

    /// How many files were removed so far.
    pub fn deleted(&self) -> (deleted: u32)
        ensures
            deleted == self@.deleted,
    {
        self.deleted
    }

    /// Why the pass is done, where it is.
    pub fn ending(&self) -> (why: Option<Ending>)
        ensures
            why == ending(self@),
    {
        match &self.stage {
            Stage::Done(why) => Some(*why),
            _ => None,
        }
    }

    /// The build on disk that the pass is at, once it knows what is kept.
    pub fn build_in_hand(&self) -> (build: Option<(u32, u64)>)
        requires
            is_sound(self@),
        ensures
            build == build_in_hand(self@),
    {
        match &self.stage {
            Stage::Load { stale, at, .. } => if *stale {
                Some(self.builds[*at])
            } else {
                None
            },
            Stage::Probe { at, .. } => Some(self.builds[*at]),
            Stage::Sweep { at, .. } => Some(self.builds[*at]),
            Stage::Prune { at, .. } => Some(self.builds[*at]),
            Stage::Drop { at } => Some(self.builds[*at]),
            _ => None,
        }
    }

    /// Whether an installed build holds this name, as far as the pass has read
    /// them.
    pub fn keeps(&self, name: &str) -> (kept: bool)
        ensures
            kept == self@.keep.contains(path_key(name@)),
    {
        let key = normalized_key(name);
        self.keep.contains(key.as_str())
    }

    /// The builds on disk that the pass leaves alone, since their depot is not
    /// installed.
    pub fn unknown_builds(&self) -> (unknown: Vec<(u32, u64)>)
        ensures
            unknown@ == unknown_builds(self@.installed, self@.builds),
    {
        let ghost is_unknown = |build: (u32, u64)| current_of(self.installed@, build.0) is None;
        let mut unknown: Vec<(u32, u64)> = Vec::new();
        proof {
            reveal(Seq::filter);
            assert(self.builds@.take(0).filter(is_unknown) == Seq::<(u32, u64)>::empty());
        }
        for i in 0..self.builds.len()
            invariant
                is_unknown == (|build: (u32, u64)| current_of(self.installed@, build.0) is None),
                unknown@ == self.builds@.take(i as int).filter(is_unknown),
        {
            let build = self.builds[i];
            proof {
                reveal(Seq::filter);
                assert(self.builds@.take(i + 1).drop_last() == self.builds@.take(i as int));
                assert(self.builds@.take(i + 1).last() == build);
            }
            if current_build(&self.installed, build.0).is_none() {
                unknown.push(build);
            }
        }
        proof {
            assert(self.builds@.take(self.builds@.len() as int) == self.builds@);
        }
        unknown
    }

    fn take_stage(&mut self) -> (stage: Stage)
        ensures
            stage == old(self).stage,
            *final(self) == (CleanupPass { stage: Stage::Done(Ending::Finished), ..*old(self) }),
    {
        let mut stage = Stage::Done(Ending::Finished);
        std::mem::swap(&mut stage, &mut self.stage);
        stage
    }

    /// Goes on when the entries of the build in hand are known, or cannot be.
    fn load_done(&mut self, stale: bool, at: usize, entries: Option<Vec<FileEntry>>)
        requires
            !stale ==> at < old(self).installed.len(),
        ensures
            final(self)@ == loaded(
                old(self)@,
                stale,
                at as int,
                match entries {
                    Some(entries) => Some(entries_view(entries@)),
                    None => None,
                },
            ),
    {
        match entries {
            Some(entries) => {
                if stale {
                    let sweep = Sweep { entries, i: 0, dirs: Vec::new() };
                    proof {
                        assert(sweep.value() == whole_sweep(entries_view(entries@)));
                    }
                    self.stage = entry_stage(&self.keep, at, sweep);
                } else {
                    keep_entries(&mut self.keep, &entries);
                    self.stage = installed_stage(&self.installed, &self.builds, at + 1);
                }
            },
            None => {
                self.stage = if stale {
                    Stage::Probe { at, manifest: false }
                } else {
                    Stage::Done(Ending::Unreadable(self.installed[at].0, self.installed[at].1))
                };
            },
        }
    }

    /// Goes on after the text of a file list.
    fn on_text(&mut self, text: Option<String>)
        requires
            is_sound(old(self)@),
        ensures
            final(self)@ == next(old(self)@, ReplyView::Text(text_view(text))),
    {
        let (stale, at) = match &self.stage {
            Stage::Load { stale, at, load: Load::Sidecar } => (*stale, *at),
            _ => {
                return;
            },
        };
        let depot_id: u32 = if stale {
            self.builds[at].0
        } else {
            self.installed[at].0
        };
        let entries = match &text {
            Some(text) => read_filelist_sidecar(text.as_str()),
            None => None,
        };
        if entries.is_none() && key_of_depot(self.depots, depot_id).is_some() {
            self.stage = Stage::Load { stale, at, load: Load::Manifest };
        } else {
            self.load_done(stale, at, entries);
        }
    }

    /// Goes on after the bytes of a manifest.
    fn on_bytes(&mut self, raw: Option<Vec<u8>>)
        requires
            is_sound(old(self)@),
        ensures
            final(self)@ == next(old(self)@, ReplyView::Bytes(bytes_view(raw))),
    {
        let (stale, at) = match &self.stage {
            Stage::Load { stale, at, load: Load::Manifest } => (*stale, *at),
            _ => {
                return;
            },
        };
        match usable_manifest(raw) {
            Some(raw) => {
                self.stage = Stage::Load { stale, at, load: Load::Decode(raw) };
            },
            None => {
                self.load_done(stale, at, None);
            },
        }
    }

    /// Goes on after a manifest was decoded, or could not be.
    fn on_manifest(&mut self, manifest: Option<ContentManifest>)
        requires
            is_sound(old(self)@),
        ensures
            final(self)@ == next(old(self)@, ReplyView::Manifest(manifest_view(manifest))),
    {
        let (stale, at) = match &self.stage {
            Stage::Load { stale, at, load: Load::Decode(_) } => (*stale, *at),
            _ => {
                return;
            },
        };
        let entries = match &manifest {
            Some(manifest) => Some(entries_of_manifest(manifest)),
            None => None,
        };
        self.load_done(stale, at, entries);
    }

    /// Goes on after the names in the config directory.
    fn on_names(&mut self, names: &Vec<String>)
        ensures
            final(self)@ == next(old(self)@, ReplyView::Names(texts(names@))),
    {
        match &self.stage {
            Stage::Cached => {
                self.builds = collect_cached_builds(names);
                self.stage = Stage::Marked;
            },
            Stage::Marked => {
                let markers = pending_cleanup_markers(names);
                insert_builds(&mut self.builds, &markers);
                self.stage = if self.builds.len() == 0 {
                    Stage::Done(Ending::NothingOnDisk)
                } else {
                    installed_stage(&self.installed, &self.builds, 0)
                };
            },
            _ => {},
        }
    }

    /// Goes on after what is at a path.
    fn on_kind(&mut self, kind: NodeKind)
        requires
            is_sound(old(self)@),
        ensures
            final(self)@ == next(old(self)@, ReplyView::Kind(kind)),
    {
        let stage = self.take_stage();
        self.stage = match stage {
            Stage::Sweep { at, sweep, target, backup, step: Step::Stat } => if kind
                == NodeKind::Other {
                Stage::Sweep { at, sweep, target, backup, step: Step::Remove }
            } else {
                not_removed_stage(&self.keep, at, sweep, target, backup)
            },
            other => other,
        };
    }

    /// Goes on after a yes or a no.
    fn on_flag(&mut self, flag: bool)
        requires
            is_sound(old(self)@),
            next(old(self)@, ReplyView::Flag(flag)).deleted <= u32::MAX,
        ensures
            final(self)@ == next(old(self)@, ReplyView::Flag(flag)),
    {
        let stage = self.take_stage();
        self.stage = match stage {
            Stage::Probe { at, manifest } => if flag {
                assert(at < self.builds.len());
                build_stage(&self.installed, &self.builds, at + 1)
            } else if manifest {
                Stage::Drop { at }
            } else {
                Stage::Probe { at, manifest: true }
            },
            Stage::Sweep { at, sweep, target, backup, step: Step::Link(k) } => if flag {
                rest_stage(&self.keep, at, sweep)
            } else {
                ancestors_stage(&self.keep, at, sweep, target, k)
            },
            Stage::Sweep { at, sweep, target, backup, step: Step::Remove } => if flag {
                self.deleted = self.deleted + 1;
                removed_stage(&self.keep, at, sweep, target, backup)
            } else {
                not_removed_stage(&self.keep, at, sweep, target, backup)
            },
            Stage::Prune { at, dirs, dir } => if flag {
                let mut parent = dir;
                let _ = parent.pop();
                proof {
                    assert(texts(parent@) == texts(dir@).drop_last());
                }
                prune_stage(&self.keep, at, dirs, parent)
            } else {
                dir_stage(&self.keep, at, dirs)
            },
            other => other,
        };
    }

    /// Takes an answer. One that does not answer what was asked for changes
    /// nothing.
    pub fn resume(&mut self, reply: Reply)
        requires
            is_sound(old(self)@),
            next(old(self)@, reply@).deleted <= u32::MAX,
        ensures
            final(self)@ == next(old(self)@, reply@),
            is_sound(final(self)@),
    {
        proof {
            law_next_is_sound(self@, reply@);
        }
        match reply {
            Reply::Installed(installed) => {
                if let Stage::Config = &self.stage {
                    self.installed = installed;
                    self.stage = Stage::Cached;
                }
            },
            Reply::Names(names) => {
                self.on_names(&names);
            },
            Reply::Text(text) => {
                self.on_text(text);
            },
            Reply::Bytes(raw) => {
                self.on_bytes(raw);
            },
            Reply::Manifest(manifest) => {
                self.on_manifest(manifest);
            },
            Reply::Flag(flag) => {
                self.on_flag(flag);
            },
            Reply::Kind(kind) => {
                self.on_kind(kind);
            },
            Reply::Dropped => {
                if let Stage::Drop { at } = &self.stage {
                    assert(*at < self.builds.len());
                    let after: usize = *at + 1;
                    self.stage = build_stage(&self.installed, &self.builds, after);
                }
            },
        }
    }
}

} // verus!
