//! A model of what a cleanup pass works on, and what a pass does to it. The
//! model answers the questions of a pass; the whole pass is then one function
//! from disk to disk.
use crate::content_manifest::ManifestFileView;
use crate::depot_cleanup::builds::{
    build_file, cached_builds, marked_builds, with_builds, STALE_CLEANUP_SUFFIX,
};
use crate::depot_cleanup::filelist::{manifest_entries, read_filelist, EntryView};
use crate::depot_cleanup::laws::{law_answers_bring_the_end, left};
use crate::depot_cleanup::paths::safe_parts;
use crate::depot_cleanup::records::usable_bytes;
use crate::depot_cleanup::soundness::{
    are_inside, at_stage, at_stale, is_sound, law_next_is_sound, lemma_init_inside,
    lemma_next_build, lemma_next_dir, lemma_next_entry, lemma_next_installed, lemma_parent_inside,
    lemma_parts_inside, lemma_with_dir_inside,
};
use crate::depot_cleanup::steps::{
    backup_of, current_of, has_backup, is_orphan, is_pinned, keep_with, load_build, loaded, next,
    next_build, next_dir, next_entry, next_installed, past_ancestors, prune_up, request, rest_of,
    rest_with_dir, start, sweeping, whole_sweep, LoadView, NodeKind, PassView, ReplyView,
    RequestView, StageView, StepView, SweepView,
};
use crate::depot_config::INVALID_MANIFEST_ID;
use crate::depot_downloader::{key_of, ResolvedDepotSpec};
use vstd::prelude::*;

verus! {

// ---------------------------------------------------------------------------
// The disk
// ---------------------------------------------------------------------------

/// What can be at a path.
pub enum Node {
    File,
    Directory,
    Link,
}

/// What a pass can see of the disk.
#[verifier::ext_equal]
pub struct Disk {
    /// The installed builds, as the depot config lists them.
    pub installed: Seq<(u32, u64)>,
    /// The names in the config directory.
    pub names: Seq<Seq<char>>,
    /// The file lists that are files, with their text where it can be read.
    pub sidecars: Map<(u32, u64), Option<Seq<char>>>,
    /// The manifests that are files, with their bytes where they can be read.
    pub manifests: Map<(u32, u64), Option<Seq<u8>>>,
    /// What bytes hold as a manifest, when decrypted with a key.
    pub decoded: spec_fn(Seq<u8>, Seq<u8>) -> Option<Seq<ManifestFileView>>,
    /// The names in the config directory that cannot be removed.
    pub stuck_names: Set<Seq<char>>,
    /// What is under the install directory.
    pub nodes: Map<Seq<Seq<char>>, Node>,
    /// The paths from which nothing can be removed.
    pub stuck: Set<Seq<Seq<char>>>,
}

pub open spec fn text_in(disk: Disk, build: (u32, u64)) -> Option<Seq<char>> {
    if disk.sidecars.dom().contains(build) {
        disk.sidecars[build]
    } else {
        None
    }
}

pub open spec fn bytes_in(disk: Disk, build: (u32, u64)) -> Option<Seq<u8>> {
    if disk.manifests.dom().contains(build) {
        disk.manifests[build]
    } else {
        None
    }
}

/// A link is at the path.
pub open spec fn is_link(disk: Disk, path: Seq<Seq<char>>) -> bool {
    disk.nodes.dom().contains(path) && disk.nodes[path] is Link
}

/// Something other than a directory is at the path.
pub open spec fn is_file(disk: Disk, path: Seq<Seq<char>>) -> bool {
    disk.nodes.dom().contains(path) && disk.nodes[path] !is Directory
}

/// A path is below a directory.
pub open spec fn is_below(path: Seq<Seq<char>>, dir: Seq<Seq<char>>) -> bool {
    dir.len() < path.len() && path.take(dir.len() as int) == dir
}

/// An empty directory is at the path.
pub open spec fn is_empty_dir(disk: Disk, path: Seq<Seq<char>>) -> bool {
    &&& disk.nodes.dom().contains(path)
    &&& disk.nodes[path] is Directory
    &&& forall|other: Seq<Seq<char>>| #[trigger]
        disk.nodes.dom().contains(other) ==> !is_below(other, path)
}

/// A file that is removed when this is asked for.
pub open spec fn file_goes(disk: Disk, path: Seq<Seq<char>>) -> bool {
    is_file(disk, path) && !disk.stuck.contains(path)
}

/// A directory that is removed when this is asked for.
pub open spec fn dir_goes(disk: Disk, path: Seq<Seq<char>>) -> bool {
    is_empty_dir(disk, path) && !disk.stuck.contains(path)
}

/// The disk with nothing at a path.
pub open spec fn without(disk: Disk, path: Seq<Seq<char>>) -> Disk {
    Disk { nodes: disk.nodes.remove(path), ..disk }
}

/// The name of a build's marker.
pub open spec fn marker_name(build: (u32, u64)) -> Seq<char> {
    build_file(build.0, build.1, STALE_CLEANUP_SUFFIX@)
}

/// The disk without a build's marker, where that can be removed.
pub open spec fn unmarked(disk: Disk, build: (u32, u64)) -> Disk {
    Disk {
        names: disk.names.filter(
            |name: Seq<char>| name != marker_name(build) || disk.stuck_names.contains(name),
        ),
        ..disk
    }
}

/// What the disk answers.
pub open spec fn answer(disk: Disk, asked: RequestView) -> ReplyView {
    match asked {
        RequestView::Installed => ReplyView::Installed(disk.installed),
        RequestView::Names => ReplyView::Names(disk.names),
        RequestView::Sidecar(depot_id, manifest_id) => ReplyView::Text(
            text_in(disk, (depot_id, manifest_id)),
        ),
        RequestView::Manifest(depot_id, manifest_id) => ReplyView::Bytes(
            bytes_in(disk, (depot_id, manifest_id)),
        ),
        RequestView::Decode(raw, key) => ReplyView::Manifest((disk.decoded)(raw, key)),
        RequestView::SidecarExists(depot_id, manifest_id) => ReplyView::Flag(
            disk.sidecars.dom().contains((depot_id, manifest_id)),
        ),
        RequestView::ManifestExists(depot_id, manifest_id) => ReplyView::Flag(
            disk.manifests.dom().contains((depot_id, manifest_id)),
        ),
        RequestView::IsLink(path) => ReplyView::Flag(is_link(disk, path)),
        RequestView::Stat(path) => ReplyView::Kind(
            if is_file(disk, path) {
                NodeKind::Other
            } else if disk.nodes.dom().contains(path) {
                NodeKind::Directory
            } else {
                NodeKind::Missing
            },
        ),
        RequestView::RemoveFile(path) => ReplyView::Flag(file_goes(disk, path)),
        RequestView::RemoveDir(path) => ReplyView::Flag(dir_goes(disk, path)),
        RequestView::DropMarker(_, _) => ReplyView::Dropped,
        RequestView::Done(_) => ReplyView::Dropped,
    }
}

/// The disk after the answer.
pub open spec fn after(disk: Disk, asked: RequestView) -> Disk {
    match asked {
        RequestView::RemoveFile(path) => if file_goes(disk, path) {
            without(disk, path)
        } else {
            disk
        },
        RequestView::RemoveDir(path) => if dir_goes(disk, path) {
            without(disk, path)
        } else {
            disk
        },
        RequestView::DropMarker(depot_id, manifest_id) => unmarked(disk, (depot_id, manifest_id)),
        _ => disk,
    }
}

/// Answers a pass from the disk until it is done: how many files it says that
/// it removed, and the disk then.
pub open spec fn run(s: PassView, disk: Disk) -> (nat, Disk)
    decreases left(s).0, left(s).1, left(s).2, left(s).3, left(s).4,
{
    if s.stage is Done || !is_sound(s) {
        (s.deleted, disk)
    } else {
        proof {
            law_answers_bring_the_end(s, answer(disk, request(s)));
        }
        run(next(s, answer(disk, request(s))), after(disk, request(s)))
    }
}

// ---------------------------------------------------------------------------
// The whole pass
// ---------------------------------------------------------------------------

/// The entries of a build: from its file list, or else from its manifest,
/// where the operation carries the key.
pub open spec fn entries_in(
    disk: Disk,
    depots: Seq<ResolvedDepotSpec>,
    build: (u32, u64),
) -> Option<Seq<EntryView>> {
    let listed = match text_in(disk, build) {
        Some(text) => read_filelist(text),
        None => None,
    };
    if listed is Some {
        listed
    } else {
        match (key_of(depots, build.0), usable_bytes(bytes_in(disk, build))) {
            (Some(key), Some(raw)) => match (disk.decoded)(raw, key) {
                Some(files) => Some(manifest_entries(files)),
                None => None,
            },
            _ => None,
        }
    }
}

/// The keys of all that the installed builds hold, where each of them is
/// complete and can be read.
pub open spec fn keep_in(
    disk: Disk,
    depots: Seq<ResolvedDepotSpec>,
    installed: Seq<(u32, u64)>,
) -> Option<Set<Seq<char>>>
    decreases installed.len(),
{
    if installed.len() == 0 {
        Some(Set::empty())
    } else {
        match (
            keep_in(disk, depots, installed.drop_last()),
            entries_in(disk, depots, installed.last()),
        ) {
            (Some(keep), Some(entries)) => if installed.last().1 == INVALID_MANIFEST_ID {
                None
            } else {
                Some(keep_with(keep, entries))
            },
            _ => None,
        }
    }
}

/// A directory on the way to the path is a link.
pub open spec fn behind_link(disk: Disk, path: Seq<Seq<char>>) -> bool {
    exists|k: int| 1 <= k < path.len() && is_link(disk, #[trigger] path.take(k))
}

/// The disk after one file was asked to be removed.
pub open spec fn remove_file(disk: Disk, path: Seq<Seq<char>>) -> (nat, Disk) {
    if file_goes(disk, path) {
        (1, without(disk, path))
    } else {
        (0, disk)
    }
}

/// What becomes of one entry of an old build: how many files are removed, the
/// disk then, and the directories that may have become empty.
pub open spec fn sweep_entry(
    disk: Disk,
    keep: Set<Seq<char>>,
    sweep: SweepView,
) -> (nat, Disk, SweepView) {
    let entry = sweep.entries[sweep.i];
    let parts = safe_parts(entry.name)->0;
    if !is_orphan(keep, entry.name) || behind_link(disk, parts) {
        (0, disk, rest_of(sweep))
    } else if entry.is_dir {
        (0, disk, rest_with_dir(sweep, parts))
    } else if !file_goes(disk, parts) {
        (0, disk, rest_of(sweep))
    } else {
        let first = without(disk, parts);
        let (more, second) = if has_backup(keep, entry.name) {
            remove_file(first, backup_of(parts))
        } else {
            (0, first)
        };
        let rest = if parts.len() > 1 {
            rest_with_dir(sweep, parts.drop_last())
        } else {
            rest_of(sweep)
        };
        (1 + more, second, rest)
    }
}

/// What becomes of the entries of an old build, from the one in hand.
pub open spec fn sweep_entries(
    disk: Disk,
    keep: Set<Seq<char>>,
    sweep: SweepView,
) -> (nat, Disk, Seq<Seq<Seq<char>>>)
    decreases sweep.entries.len() - sweep.i,
{
    if sweep.i >= sweep.entries.len() {
        (0, disk, sweep.dirs)
    } else {
        let (one, then, rest) = sweep_entry(disk, keep, sweep);
        let (more, end, dirs) = sweep_entries(then, keep, rest);
        (one + more, end, dirs)
    }
}

/// The disk without a directory and those above it, up to the first that is
/// not empty or is pinned.
pub open spec fn prune_dir(disk: Disk, keep: Set<Seq<char>>, dir: Seq<Seq<char>>) -> Disk
    decreases dir.len(),
{
    if is_pinned(keep, dir) || !dir_goes(disk, dir) {
        disk
    } else {
        prune_dir(without(disk, dir), keep, dir.drop_last())
    }
}

/// The disk without the directories that are empty, from the last one.
pub open spec fn prune_dirs(disk: Disk, keep: Set<Seq<char>>, dirs: Seq<Seq<Seq<char>>>) -> Disk
    decreases dirs.len(),
{
    if dirs.len() == 0 {
        disk
    } else {
        prune_dirs(prune_dir(disk, keep, dirs.last()), keep, dirs.drop_last())
    }
}

/// What becomes of the files of an old build.
pub open spec fn clean_entries(
    disk: Disk,
    keep: Set<Seq<char>>,
    entries: Seq<EntryView>,
) -> (nat, Disk) {
    let (count, swept, dirs) = sweep_entries(disk, keep, whole_sweep(entries));
    (count, prune_dirs(swept, keep, dirs))
}

/// What becomes of one build on disk. Of an installed build only the marker
/// goes; of a depot that is not installed nothing is touched. An old build is
/// cleaned up where its entries are known; where they are not, its marker goes
/// only if nothing is left to read them from.
pub open spec fn clean_build(
    disk: Disk,
    depots: Seq<ResolvedDepotSpec>,
    keep: Set<Seq<char>>,
    build: (u32, u64),
) -> (nat, Disk) {
    match current_of(disk.installed, build.0) {
        None => (0, disk),
        Some(gid) => if gid == build.1 {
            (0, unmarked(disk, build))
        } else {
            match entries_in(disk, depots, build) {
                Some(entries) => {
                    let (count, end) = clean_entries(disk, keep, entries);
                    (count, unmarked(end, build))
                },
                None => if disk.sidecars.dom().contains(build) || disk.manifests.dom().contains(
                    build,
                ) {
                    (0, disk)
                } else {
                    (0, unmarked(disk, build))
                },
            }
        },
    }
}

/// What becomes of the builds on disk, from the one at `at`.
pub open spec fn clean_builds(
    disk: Disk,
    depots: Seq<ResolvedDepotSpec>,
    keep: Set<Seq<char>>,
    builds: Seq<(u32, u64)>,
    at: int,
) -> (nat, Disk)
    decreases builds.len() - at,
{
    if at >= builds.len() {
        (0, disk)
    } else {
        let (one, then) = clean_build(disk, depots, keep, builds[at]);
        let (more, end) = clean_builds(then, depots, keep, builds, at + 1);
        (one + more, end)
    }
}

/// The builds on disk: cached ones, and marked ones.
pub open spec fn builds_in(disk: Disk) -> Seq<(u32, u64)> {
    with_builds(cached_builds(disk.names), marked_builds(disk.names))
}

/// What a pass must know before it removes anything: that there is something
/// on disk, that something is installed, and what all that is installed holds.
pub open spec fn known_keep(disk: Disk, depots: Seq<ResolvedDepotSpec>) -> Option<Set<Seq<char>>> {
    if builds_in(disk).len() == 0 || disk.installed.len() == 0 {
        None
    } else {
        keep_in(disk, depots, disk.installed)
    }
}

/// What a pass does: how many files it removes, and the disk then.
pub open spec fn clean(disk: Disk, depots: Seq<ResolvedDepotSpec>) -> (nat, Disk) {
    match known_keep(disk, depots) {
        Some(keep) => clean_builds(disk, depots, keep, builds_in(disk), 0),
        None => (0, disk),
    }
}

// ---------------------------------------------------------------------------
// A pass does what was said
// ---------------------------------------------------------------------------

/// Two disks that differ in nothing but nodes, and names in the config
/// directory.
pub open spec fn same_config(a: Disk, b: Disk) -> bool {
    &&& a.installed == b.installed
    &&& a.stuck_names == b.stuck_names
    &&& a.sidecars == b.sidecars
    &&& a.manifests == b.manifests
    &&& a.decoded == b.decoded
    &&& a.stuck == b.stuck
}

proof fn lemma_prune_frame(disk: Disk, keep: Set<Seq<char>>, dir: Seq<Seq<char>>)
    ensures
        same_config(disk, prune_dir(disk, keep, dir)),
        prune_dir(disk, keep, dir).names == disk.names,
    decreases dir.len(),
{
    if !is_pinned(keep, dir) && dir_goes(disk, dir) {
        lemma_prune_frame(without(disk, dir), keep, dir.drop_last());
    }
}

proof fn lemma_prunes_frame(disk: Disk, keep: Set<Seq<char>>, dirs: Seq<Seq<Seq<char>>>)
    ensures
        same_config(disk, prune_dirs(disk, keep, dirs)),
        prune_dirs(disk, keep, dirs).names == disk.names,
    decreases dirs.len(),
{
    if dirs.len() > 0 {
        lemma_prune_frame(disk, keep, dirs.last());
        lemma_prunes_frame(prune_dir(disk, keep, dirs.last()), keep, dirs.drop_last());
    }
}

proof fn lemma_sweep_frame(disk: Disk, keep: Set<Seq<char>>, sweep: SweepView)
    ensures
        same_config(disk, sweep_entries(disk, keep, sweep).1),
        sweep_entries(disk, keep, sweep).1.names == disk.names,
    decreases sweep.entries.len() - sweep.i,
{
    if sweep.i < sweep.entries.len() {
        let (one, then, rest) = sweep_entry(disk, keep, sweep);
        lemma_sweep_frame(then, keep, rest);
    }
}

/// Removing the files of a build leaves all but nodes.
pub proof fn lemma_entries_frame(disk: Disk, keep: Set<Seq<char>>, entries: Seq<EntryView>)
    ensures
        same_config(disk, clean_entries(disk, keep, entries).1),
        clean_entries(disk, keep, entries).1.names == disk.names,
{
    let (count, swept, dirs) = sweep_entries(disk, keep, whole_sweep(entries));
    lemma_sweep_frame(disk, keep, whole_sweep(entries));
    lemma_prunes_frame(swept, keep, dirs);
}

/// Cleaning up a build leaves all but nodes and names.
pub proof fn lemma_build_frame(
    disk: Disk,
    depots: Seq<ResolvedDepotSpec>,
    keep: Set<Seq<char>>,
    build: (u32, u64),
)
    ensures
        same_config(disk, clean_build(disk, depots, keep, build).1),
{
    if let Some(entries) = entries_in(disk, depots, build) {
        lemma_entries_frame(disk, keep, entries);
    }
}

proof fn lemma_step(s: PassView, disk: Disk)
    requires
        is_sound(s),
        s.stage !is Done,
    ensures
        run(s, disk) == run(next(s, answer(disk, request(s))), after(disk, request(s))),
        is_sound(next(s, answer(disk, request(s)))),
{
    law_next_is_sound(s, answer(disk, request(s)));
}

proof fn lemma_run_prune(
    s: PassView,
    at: int,
    dirs: Seq<Seq<Seq<char>>>,
    dir: Seq<Seq<char>>,
    disk: Disk,
)
    requires
        is_sound(at_stage(s, prune_up(s.keep, at, dirs, dir))),
    ensures
        run(at_stage(s, prune_up(s.keep, at, dirs, dir)), disk) == run(
            at_stage(s, next_dir(s.keep, at, dirs)),
            prune_dir(disk, s.keep, dir),
        ),
    decreases dir.len(),
{
    if !is_pinned(s.keep, dir) {
        let here = at_stage(s, prune_up(s.keep, at, dirs, dir));
        lemma_step(here, disk);
        if dir_goes(disk, dir) {
            let up = at_stage(s, prune_up(s.keep, at, dirs, dir.drop_last()));
            assert(next(here, answer(disk, request(here))) == up);
            lemma_run_prune(s, at, dirs, dir.drop_last(), without(disk, dir));
        } else {
            assert(next(here, answer(disk, request(here))) == at_stage(
                s,
                next_dir(s.keep, at, dirs),
            ));
        }
    }
}

proof fn lemma_run_dirs(s: PassView, at: int, dirs: Seq<Seq<Seq<char>>>, disk: Disk)
    requires
        at_stale(s, at),
        are_inside(dirs),
    ensures
        run(at_stage(s, next_dir(s.keep, at, dirs)), disk) == run(
            at_stage(s, StageView::Drop { at }),
            prune_dirs(disk, s.keep, dirs),
        ),
    decreases dirs.len(),
{
    if dirs.len() > 0 {
        lemma_next_dir(s, at, dirs);
        lemma_init_inside(dirs);
        lemma_run_prune(s, at, dirs.drop_last(), dirs.last(), disk);
        lemma_run_dirs(s, at, dirs.drop_last(), prune_dir(disk, s.keep, dirs.last()));
    }
}

/// A directory on the way to the path is a link, at depth `from` or deeper.
spec fn link_from(disk: Disk, path: Seq<Seq<char>>, from: int) -> bool {
    exists|k: int| from <= k < path.len() && is_link(disk, #[trigger] path.take(k))
}

proof fn lemma_run_links(s: PassView, at: int, sweep: SweepView, k: int, disk: Disk)
    requires
        is_sound(at_stage(s, sweeping(at, sweep, StepView::Link(k)))),
    ensures
        ({
            let parts = safe_parts(sweep.entries[sweep.i].name)->0;
            run(at_stage(s, sweeping(at, sweep, StepView::Link(k))), disk) == if link_from(
                disk,
                parts,
                k,
            ) {
                run(at_stage(s, next_entry(s.keep, at, rest_of(sweep))), disk)
            } else {
                run(at_stage(s, past_ancestors(s.keep, at, sweep, parts.len() - 1)), disk)
            }
        }),
    decreases safe_parts(sweep.entries[sweep.i].name)->0.len() - k,
{
    let parts = safe_parts(sweep.entries[sweep.i].name)->0;
    let here = at_stage(s, sweeping(at, sweep, StepView::Link(k)));
    lemma_step(here, disk);
    if is_link(disk, parts.take(k)) {
        assert(link_from(disk, parts, k));
        assert(next(here, answer(disk, request(here))) == at_stage(
            s,
            next_entry(s.keep, at, rest_of(sweep)),
        ));
    } else {
        assert(next(here, answer(disk, request(here))) == at_stage(
            s,
            past_ancestors(s.keep, at, sweep, k),
        ));
        if k + 1 < parts.len() {
            lemma_run_links(s, at, sweep, k + 1, disk);
        }
        assert(link_from(disk, parts, k) == link_from(disk, parts, k + 1)) by {
            if link_from(disk, parts, k) {
                let j = choose|j: int|
                    k <= j < parts.len() && is_link(disk, #[trigger] parts.take(j));
                assert(j != k);
            }
        }
    }
}

/// A file that is asked for, and then its backup.
proof fn lemma_run_file(s: PassView, at: int, sweep: SweepView, disk: Disk)
    requires
        is_sound(at_stage(s, sweeping(at, sweep, StepView::Stat))),
        !behind_link(disk, safe_parts(sweep.entries[sweep.i].name)->0),
    ensures
        ({
            let (count, then, rest) = sweep_entry(disk, s.keep, sweep);
            run(at_stage(s, sweeping(at, sweep, StepView::Stat)), disk) == run(
                at_stage(
                    PassView { deleted: s.deleted + count, ..s },
                    next_entry(s.keep, at, rest),
                ),
                then,
            )
        }),
{
    let name = sweep.entries[sweep.i].name;
    let parts = safe_parts(name)->0;
    let stat = at_stage(s, sweeping(at, sweep, StepView::Stat));
    let remove = at_stage(s, sweeping(at, sweep, StepView::Remove));
    let skipped = at_stage(s, next_entry(s.keep, at, rest_of(sweep)));
    lemma_step(stat, disk);
    if !is_file(disk, parts) {
        assert(next(stat, answer(disk, request(stat))) == skipped);
    } else {
        assert(next(stat, answer(disk, request(stat))) == remove);
        lemma_step(remove, disk);
        if !file_goes(disk, parts) {
            assert(next(remove, answer(disk, request(remove))) == skipped);
        } else {
            lemma_run_removed(s, at, sweep, disk);
        }
    }
}

proof fn lemma_run_removed(s: PassView, at: int, sweep: SweepView, disk: Disk)
    requires
        is_sound(at_stage(s, sweeping(at, sweep, StepView::Remove))),
        !behind_link(disk, safe_parts(sweep.entries[sweep.i].name)->0),
        file_goes(disk, safe_parts(sweep.entries[sweep.i].name)->0),
    ensures
        ({
            let (count, then, rest) = sweep_entry(disk, s.keep, sweep);
            run(at_stage(s, sweeping(at, sweep, StepView::Remove)), disk) == run(
                at_stage(
                    PassView { deleted: s.deleted + count, ..s },
                    next_entry(s.keep, at, rest),
                ),
                then,
            )
        }),
{
    let name = sweep.entries[sweep.i].name;
    let parts = safe_parts(name)->0;
    let remove = at_stage(s, sweeping(at, sweep, StepView::Remove));
    let (count, then, rest) = sweep_entry(disk, s.keep, sweep);
    let one = PassView { deleted: s.deleted + 1, ..s };
    let two = PassView { deleted: s.deleted + 2, ..s };
    let first = without(disk, parts);
    lemma_step(remove, disk);
    if has_backup(s.keep, name) {
        let target = backup_of(parts);
        assert(target.drop_last() == parts.drop_last());
        let stat = at_stage(
            one,
            StageView::Sweep { at, sweep, target, backup: true, step: StepView::Stat },
        );
        assert(next(remove, answer(disk, request(remove))) == stat);
        lemma_step(stat, first);
        if is_file(first, target) {
            let again = at_stage(
                one,
                StageView::Sweep { at, sweep, target, backup: true, step: StepView::Remove },
            );
            assert(next(stat, answer(first, request(stat))) == again);
            lemma_step(again, first);
            if file_goes(first, target) {
                assert(next(again, answer(first, request(again))) == at_stage(
                    two,
                    next_entry(s.keep, at, rest),
                ));
            } else {
                assert(next(again, answer(first, request(again))) == at_stage(
                    one,
                    next_entry(s.keep, at, rest),
                ));
            }
        } else {
            assert(next(stat, answer(first, request(stat))) == at_stage(
                one,
                next_entry(s.keep, at, rest),
            ));
        }
    } else {
        assert(next(remove, answer(disk, request(remove))) == at_stage(
            one,
            next_entry(s.keep, at, rest),
        ));
    }
}

proof fn lemma_run_entry(s: PassView, at: int, sweep: SweepView, disk: Disk)
    requires
        at_stale(s, at),
        0 <= sweep.i < sweep.entries.len(),
        are_inside(sweep.dirs),
    ensures
        ({
            let (count, then, rest) = sweep_entry(disk, s.keep, sweep);
            run(at_stage(s, next_entry(s.keep, at, sweep)), disk) == run(
                at_stage(
                    PassView { deleted: s.deleted + count, ..s },
                    next_entry(s.keep, at, rest),
                ),
                then,
            )
        }),
        are_inside(sweep_entry(disk, s.keep, sweep).2.dirs),
{
    let entry = sweep.entries[sweep.i];
    let parts = safe_parts(entry.name)->0;
    let (count, then, rest) = sweep_entry(disk, s.keep, sweep);
    assert(PassView { deleted: s.deleted + 0, ..s } == s);
    if is_orphan(s.keep, entry.name) {
        lemma_next_entry(s, at, sweep);
        lemma_parts_inside(entry.name);
        lemma_with_dir_inside(sweep.dirs, parts);
        if parts.len() > 1 {
            lemma_parent_inside(parts);
            lemma_with_dir_inside(sweep.dirs, parts.drop_last());
            lemma_run_links(s, at, sweep, 1, disk);
            assert(behind_link(disk, parts) == link_from(disk, parts, 1));
        } else {
            assert(!behind_link(disk, parts));
        }
        if !behind_link(disk, parts) && !entry.is_dir {
            assert(is_sound(at_stage(s, sweeping(at, sweep, StepView::Stat))));
            lemma_run_file(s, at, sweep, disk);
        }
    }
}

proof fn lemma_run_entries(s: PassView, at: int, sweep: SweepView, disk: Disk)
    requires
        at_stale(s, at),
        0 <= sweep.i,
        are_inside(sweep.dirs),
    ensures
        ({
            let (count, then, dirs) = sweep_entries(disk, s.keep, sweep);
            run(at_stage(s, next_entry(s.keep, at, sweep)), disk) == run(
                at_stage(
                    PassView { deleted: s.deleted + count, ..s },
                    next_dir(s.keep, at, dirs),
                ),
                then,
            )
        }),
        are_inside(sweep_entries(disk, s.keep, sweep).2),
    decreases sweep.entries.len() - sweep.i,
{
    if sweep.i >= sweep.entries.len() {
        assert(PassView { deleted: s.deleted + 0, ..s } == s);
    } else {
        let (one, then, rest) = sweep_entry(disk, s.keep, sweep);
        let more = PassView { deleted: s.deleted + one, ..s };
        lemma_run_entry(s, at, sweep, disk);
        lemma_run_entries(more, at, rest, then);
    }
}

/// Reading the entries of a build ends in them being known, or not.
proof fn lemma_run_load(s: PassView, stale: bool, at: int, disk: Disk)
    requires
        is_sound(at_stage(s, StageView::Load { stale, at, load: LoadView::Sidecar })),
    ensures
        run(at_stage(s, StageView::Load { stale, at, load: LoadView::Sidecar }), disk) == run(
            loaded(s, stale, at, entries_in(disk, s.depots, load_build(s, stale, at))),
            disk,
        ),
        is_sound(loaded(s, stale, at, entries_in(disk, s.depots, load_build(s, stale, at)))),
{
    let build = load_build(s, stale, at);
    let first = at_stage(s, StageView::Load { stale, at, load: LoadView::Sidecar });
    let second = at_stage(s, StageView::Load { stale, at, load: LoadView::Manifest });
    let end = loaded(s, stale, at, entries_in(disk, s.depots, build));
    assert(load_build(first, stale, at) == build);
    assert(request(first) == RequestView::Sidecar(build.0, build.1));
    assert((build.0, build.1) == build);
    lemma_step(first, disk);
    let listed = match text_in(disk, build) {
        Some(text) => read_filelist(text),
        None => None,
    };
    if listed is None && key_of(s.depots, build.0) is Some {
        assert(next(first, answer(disk, request(first))) == second);
        lemma_step(second, disk);
        match usable_bytes(bytes_in(disk, build)) {
            Some(raw) => {
                let third = at_stage(
                    s,
                    StageView::Load { stale, at, load: LoadView::Decode(raw) },
                );
                assert(next(second, answer(disk, request(second))) == third);
                lemma_step(third, disk);
                assert(loaded(third, stale, at, entries_in(disk, s.depots, build)) == end);
            },
            None => {
                assert(loaded(second, stale, at, None) == end);
            },
        }
    } else {
        assert(loaded(first, stale, at, listed) == end);
    }
}

proof fn lemma_run_drop(s: PassView, at: int, disk: Disk)
    requires
        is_sound(at_stage(s, StageView::Drop { at })),
    ensures
        run(at_stage(s, StageView::Drop { at }), disk) == run(
            at_stage(s, next_build(s.installed, s.builds, at + 1)),
            unmarked(disk, s.builds[at]),
        ),
{
    let here = at_stage(s, StageView::Drop { at });
    lemma_step(here, disk);
    assert((s.builds[at].0, s.builds[at].1) == s.builds[at]);
    assert(next(here, answer(disk, request(here))) == at_stage(
        s,
        next_build(s.installed, s.builds, at + 1),
    ));
}

/// An old build whose entries are not known.
proof fn lemma_run_probe(s: PassView, at: int, disk: Disk)
    requires
        at_stale(s, at),
    ensures
        run(at_stage(s, StageView::Probe { at, manifest: false }), disk) == run(
            at_stage(s, next_build(s.installed, s.builds, at + 1)),
            if disk.sidecars.dom().contains(s.builds[at]) || disk.manifests.dom().contains(
                s.builds[at],
            ) {
                disk
            } else {
                unmarked(disk, s.builds[at])
            },
        ),
{
    let first = at_stage(s, StageView::Probe { at, manifest: false });
    let second = at_stage(s, StageView::Probe { at, manifest: true });
    let deferred = at_stage(s, next_build(s.installed, s.builds, at + 1));
    assert((s.builds[at].0, s.builds[at].1) == s.builds[at]);
    lemma_step(first, disk);
    if disk.sidecars.dom().contains(s.builds[at]) {
        assert(next(first, answer(disk, request(first))) == deferred);
    } else {
        assert(next(first, answer(disk, request(first))) == second);
        lemma_step(second, disk);
        if disk.manifests.dom().contains(s.builds[at]) {
            assert(next(second, answer(disk, request(second))) == deferred);
        } else {
            assert(next(second, answer(disk, request(second))) == at_stage(
                s,
                StageView::Drop { at },
            ));
            lemma_run_drop(s, at, disk);
        }
    }
}

/// An old build whose entries are known.
proof fn lemma_run_stale(s: PassView, at: int, entries: Seq<EntryView>, disk: Disk)
    requires
        at_stale(s, at),
    ensures
        ({
            let (count, end) = clean_entries(disk, s.keep, entries);
            run(at_stage(s, next_entry(s.keep, at, whole_sweep(entries))), disk) == run(
                at_stage(
                    PassView { deleted: s.deleted + count, ..s },
                    next_build(s.installed, s.builds, at + 1),
                ),
                unmarked(end, s.builds[at]),
            )
        }),
{
    let sweep = whole_sweep(entries);
    let (count, swept, dirs) = sweep_entries(disk, s.keep, sweep);
    let more = PassView { deleted: s.deleted + count, ..s };
    assert(are_inside(sweep.dirs));
    lemma_run_entries(s, at, sweep, disk);
    lemma_run_dirs(more, at, dirs, swept);
    lemma_run_drop(more, at, prune_dirs(swept, s.keep, dirs));
}

proof fn lemma_run_builds(s: PassView, at: int, disk: Disk)
    requires
        0 <= at,
        s.installed == disk.installed,
    ensures
        ({
            let (count, end) = clean_builds(disk, s.depots, s.keep, s.builds, at);
            run(at_stage(s, next_build(s.installed, s.builds, at)), disk) == (s.deleted + count, end)
        }),
    decreases s.builds.len() - at,
{
    lemma_next_build(s, at);
    if at < s.builds.len() {
        let build = s.builds[at];
        let (one, then) = clean_build(disk, s.depots, s.keep, build);
        let more = PassView { deleted: s.deleted + one, ..s };
        lemma_build_frame(disk, s.depots, s.keep, build);
        lemma_run_builds(more, at + 1, then);
        assert(PassView { deleted: s.deleted + 0, ..s } == s);
        if let Some(gid) = current_of(s.installed, build.0) {
            if gid == build.1 {
                lemma_run_drop(s, at, disk);
            } else {
                lemma_run_load(s, true, at, disk);
                match entries_in(disk, s.depots, build) {
                    Some(entries) => {
                        lemma_run_stale(s, at, entries, disk);
                        assert(loaded(s, true, at, Some(entries)) == at_stage(
                            s,
                            next_entry(s.keep, at, whole_sweep(entries)),
                        ));
                    },
                    None => {
                        lemma_run_probe(s, at, disk);
                        assert(loaded(s, true, at, None) == at_stage(
                            s,
                            StageView::Probe { at, manifest: false },
                        ));
                    },
                }
            }
        }
    }
}

/// Where a part of the installed builds is not known, all of them are not.
proof fn lemma_keep_part(
    disk: Disk,
    depots: Seq<ResolvedDepotSpec>,
    installed: Seq<(u32, u64)>,
    at: int,
)
    requires
        0 <= at <= installed.len(),
        keep_in(disk, depots, installed.take(at)) is None,
    ensures
        keep_in(disk, depots, installed) is None,
    decreases installed.len(),
{
    if at < installed.len() {
        assert(installed.drop_last().take(at) == installed.take(at));
        lemma_keep_part(disk, depots, installed.drop_last(), at);
    } else {
        assert(installed.take(at) == installed);
    }
}

proof fn lemma_run_installed(s: PassView, at: int, disk: Disk)
    requires
        0 <= at <= s.installed.len(),
        s.builds.len() > 0,
        s.deleted == 0,
        s.installed == disk.installed,
        keep_in(disk, s.depots, s.installed.take(at)) == Some(s.keep),
    ensures
        run(at_stage(s, next_installed(s.installed, s.builds, at)), disk) == match keep_in(
            disk,
            s.depots,
            s.installed,
        ) {
            Some(keep) => if s.installed.len() == 0 {
                (0nat, disk)
            } else {
                clean_builds(disk, s.depots, keep, s.builds, 0)
            },
            None => (0nat, disk),
        },
    decreases s.installed.len() - at,
{
    lemma_next_installed(s, at);
    if at >= s.installed.len() {
        assert(s.installed.take(at) == s.installed);
        lemma_run_builds(s, 0, disk);
    } else {
        let build = s.installed[at];
        let part = s.installed.take(at + 1);
        assert(part.last() == build);
        assert(part.drop_last() == s.installed.take(at));
        if build.1 == INVALID_MANIFEST_ID {
            lemma_keep_part(disk, s.depots, s.installed, at + 1);
        } else {
            lemma_run_load(s, false, at, disk);
            match entries_in(disk, s.depots, build) {
                Some(entries) => {
                    let more = PassView { keep: keep_with(s.keep, entries), ..s };
                    lemma_run_installed(more, at + 1, disk);
                    assert(loaded(s, false, at, Some(entries)) == at_stage(
                        more,
                        next_installed(s.installed, s.builds, at + 1),
                    ));
                },
                None => {
                    lemma_keep_part(disk, s.depots, s.installed, at + 1);
                },
            }
        }
    }
}

/// A pass that is answered from the disk does what was said: it leaves the
/// disk as `clean` says, and returns the number of files that `clean` removes.
pub proof fn law_pass_cleans(disk: Disk, depots: Seq<ResolvedDepotSpec>)
    ensures
        run(start(depots), disk) == clean(disk, depots),
{
    let first = start(depots);
    lemma_step(first, disk);
    let second = next(first, ReplyView::Installed(disk.installed));
    lemma_step(second, disk);
    let third = next(second, ReplyView::Names(disk.names));
    lemma_step(third, disk);
    let builds = builds_in(disk);
    if builds.len() > 0 {
        let s = PassView { builds, ..third };
        assert(s.installed.take(0) == Seq::<(u32, u64)>::empty());
        lemma_run_installed(s, 0, disk);
        assert(next(third, ReplyView::Names(disk.names)) == at_stage(
            s,
            next_installed(s.installed, builds, 0),
        ));
    }
}

} // verus!
