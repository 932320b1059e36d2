//! What a cleanup pass leaves of the disk: which files are gone, which stay,
//! and what is counted.
use crate::content_manifest::ManifestFileView;
use crate::depot_cleanup::builds::{
    build_file, cached_build, cached_builds, law_cached_file_names_build, law_marker_names_build,
    lemma_cached_builds, lemma_marked_builds, lemma_with_builds, marked_builds, marker_build,
    FILELIST_SUFFIX, MANIFEST_SUFFIX, STALE_CLEANUP_SUFFIX,
};
use crate::depot_cleanup::disk::{
    behind_link, builds_in, clean, clean_build, clean_builds, clean_entries, dir_goes, entries_in,
    file_goes, is_below, is_file, is_link, keep_in, known_keep, lemma_build_frame,
    lemma_entries_frame, marker_name, prune_dir, prune_dirs, same_config, sweep_entries,
    sweep_entry, unmarked, without, Disk,
};
use crate::depot_cleanup::filelist::{
    filelist_text, law_filelist_roundtrip, listed, manifest_entries, EntryView,
};
use crate::depot_cleanup::laws::{condemns, law_condemned_is_unkept};
use crate::depot_cleanup::paths::{law_safe_parts_keep_key, parts_key, path_key, safe_parts};
use crate::depot_cleanup::records::law_recorded_marker_is_pending;
use crate::depot_cleanup::soundness::{
    are_inside, is_inside, lemma_init_inside, lemma_parent_inside, lemma_parts_inside,
    lemma_with_dir_inside, target_of,
};
use crate::depot_cleanup::steps::{
    backup_of, current_of, has_backup, is_orphan, is_pinned, is_stale, keep_with, whole_sweep,
    SweepView, BACKUP_SUFFIX,
};
use crate::depot_config::INVALID_MANIFEST_ID;
use crate::depot_downloader::ResolvedDepotSpec;
use vstd::prelude::*;

verus! {

// ---------------------------------------------------------------------------
// Removing step by step
// ---------------------------------------------------------------------------

/// The files and links on the disk.
pub open spec fn files_in(disk: Disk) -> Set<Seq<Seq<char>>> {
    disk.nodes.dom().filter(|path: Seq<Seq<char>>| disk.nodes[path] !is Directory)
}

/// A disk after some removals: files of the `culled`, so many as `count`, and
/// directories that no installed build holds and that were empty.
pub open spec fn shrinks(
    before: Disk,
    end: Disk,
    count: nat,
    keep: Set<Seq<char>>,
    culled: Set<Seq<Seq<char>>>,
) -> bool {
    &&& same_config(before, end)
    &&& forall|path: Seq<Seq<char>>| #[trigger]
        end.nodes.dom().contains(path) ==> before.nodes.dom().contains(path) && end.nodes[path]
            == before.nodes[path]
    &&& forall|path: Seq<Seq<char>>| #[trigger]
        before.nodes.dom().contains(path) && !end.nodes.dom().contains(path)
            ==> !before.stuck.contains(path) && if before.nodes[path] is Directory {
            goes_empty(end, keep, path)
        } else {
            culled.contains(path)
        }
    &&& before.nodes.dom().finite() ==> end.nodes.dom().finite() && files_in(before).len()
        == files_in(end).len() + count
}

/// A directory that may be gone: no installed build holds it, and nothing is
/// left below it.
pub open spec fn goes_empty(end: Disk, keep: Set<Seq<char>>, path: Seq<Seq<char>>) -> bool {
    &&& is_inside(path)
    &&& !keep.contains(parts_key(path))
    &&& forall|other: Seq<Seq<char>>| #[trigger]
        end.nodes.dom().contains(other) ==> !is_below(other, path)
}

proof fn lemma_shrinks_not(
    disk: Disk,
    keep: Set<Seq<char>>,
    culled: Set<Seq<Seq<char>>>,
)
    ensures
        shrinks(disk, disk, 0, keep, culled),
{
}

proof fn lemma_shrinks_on(
    a: Disk,
    b: Disk,
    c: Disk,
    first: nat,
    second: nat,
    keep: Set<Seq<char>>,
    culled: Set<Seq<Seq<char>>>,
)
    requires
        shrinks(a, b, first, keep, culled),
        shrinks(b, c, second, keep, culled),
    ensures
        shrinks(a, c, first + second, keep, culled),
{
    assert forall|path: Seq<Seq<char>>| #[trigger]
        a.nodes.dom().contains(path) && !c.nodes.dom().contains(path) implies !a.stuck.contains(
        path,
    ) && if a.nodes[path] is Directory {
        goes_empty(c, keep, path)
    } else {
        culled.contains(path)
    } by {
        if b.nodes.dom().contains(path) {
            assert(b.nodes[path] == a.nodes[path]);
        } else if a.nodes[path] is Directory {
            assert(goes_empty(b, keep, path));
            assert forall|other: Seq<Seq<char>>| #[trigger]
                c.nodes.dom().contains(other) implies !is_below(other, path) by {
                assert(b.nodes.dom().contains(other));
            }
        }
    }
}

proof fn lemma_shrinks_file(
    disk: Disk,
    path: Seq<Seq<char>>,
    keep: Set<Seq<char>>,
    culled: Set<Seq<Seq<char>>>,
)
    requires
        file_goes(disk, path),
        culled.contains(path),
    ensures
        shrinks(disk, without(disk, path), 1, keep, culled),
{
    let end = without(disk, path);
    assert(files_in(end) =~= files_in(disk).remove(path));
    if disk.nodes.dom().finite() {
        disk.nodes.dom().lemma_len_filter(|p: Seq<Seq<char>>| disk.nodes[p] !is Directory);
    }
}

proof fn lemma_shrinks_dir(
    disk: Disk,
    path: Seq<Seq<char>>,
    keep: Set<Seq<char>>,
    culled: Set<Seq<Seq<char>>>,
)
    requires
        dir_goes(disk, path),
        is_inside(path),
        !keep.contains(parts_key(path)),
    ensures
        shrinks(disk, without(disk, path), 0, keep, culled),
{
    let end = without(disk, path);
    assert(files_in(end) =~= files_in(disk));
}

proof fn lemma_shrinks_prune(
    disk: Disk,
    keep: Set<Seq<char>>,
    dir: Seq<Seq<char>>,
    culled: Set<Seq<Seq<char>>>,
)
    requires
        dir.len() > 0 ==> is_inside(dir),
    ensures
        shrinks(disk, prune_dir(disk, keep, dir), 0, keep, culled),
    decreases dir.len(),
{
    if is_pinned(keep, dir) || !dir_goes(disk, dir) {
        lemma_shrinks_not(disk, keep, culled);
    } else {
        let then = without(disk, dir);
        lemma_shrinks_dir(disk, dir, keep, culled);
        if dir.len() > 1 {
            lemma_parent_inside(dir);
        }
        lemma_shrinks_prune(then, keep, dir.drop_last(), culled);
        lemma_shrinks_on(
            disk,
            then,
            prune_dir(then, keep, dir.drop_last()),
            0,
            0,
            keep,
            culled,
        );
    }
}

proof fn lemma_shrinks_prunes(
    disk: Disk,
    keep: Set<Seq<char>>,
    dirs: Seq<Seq<Seq<char>>>,
    culled: Set<Seq<Seq<char>>>,
)
    requires
        are_inside(dirs),
    ensures
        shrinks(disk, prune_dirs(disk, keep, dirs), 0, keep, culled),
    decreases dirs.len(),
{
    if dirs.len() == 0 {
        lemma_shrinks_not(disk, keep, culled);
    } else {
        let then = prune_dir(disk, keep, dirs.last());
        lemma_init_inside(dirs);
        lemma_shrinks_prune(disk, keep, dirs.last(), culled);
        lemma_shrinks_prunes(then, keep, dirs.drop_last(), culled);
        lemma_shrinks_on(
            disk,
            then,
            prune_dirs(then, keep, dirs.drop_last()),
            0,
            0,
            keep,
            culled,
        );
    }
}

/// All that the entries condemn is culled.
pub open spec fn culls(
    keep: Set<Seq<char>>,
    entries: Seq<EntryView>,
    culled: Set<Seq<Seq<char>>>,
) -> bool {
    forall|i: int, path: Seq<Seq<char>>|
        0 <= i < entries.len() && #[trigger] condemns(keep, entries[i], path) ==> culled.contains(
            path,
        )
}

proof fn lemma_shrinks_entry(
    disk: Disk,
    keep: Set<Seq<char>>,
    sweep: SweepView,
    culled: Set<Seq<Seq<char>>>,
)
    requires
        0 <= sweep.i < sweep.entries.len(),
        are_inside(sweep.dirs),
        culls(keep, sweep.entries, culled),
    ensures
        ({
            let (count, then, rest) = sweep_entry(disk, keep, sweep);
            shrinks(disk, then, count, keep, culled) && are_inside(rest.dirs)
        }),
{
    let entry = sweep.entries[sweep.i];
    let parts = safe_parts(entry.name)->0;
    lemma_shrinks_not(disk, keep, culled);
    if is_orphan(keep, entry.name) && !behind_link(disk, parts) {
        lemma_parts_inside(entry.name);
        lemma_with_dir_inside(sweep.dirs, parts);
        if !entry.is_dir && file_goes(disk, parts) {
            let first = without(disk, parts);
            if parts.len() > 1 {
                lemma_parent_inside(parts);
                lemma_with_dir_inside(sweep.dirs, parts.drop_last());
            }
            assert(condemns(keep, sweep.entries[sweep.i], parts));
            lemma_shrinks_file(disk, parts, keep, culled);
            if has_backup(keep, entry.name) && file_goes(first, backup_of(parts)) {
                assert(condemns(keep, sweep.entries[sweep.i], backup_of(parts)));
                lemma_shrinks_file(first, backup_of(parts), keep, culled);
                lemma_shrinks_on(
                    disk,
                    first,
                    without(first, backup_of(parts)),
                    1,
                    1,
                    keep,
                    culled,
                );
            }
        }
    }
}

proof fn lemma_shrinks_entries(
    disk: Disk,
    keep: Set<Seq<char>>,
    sweep: SweepView,
    culled: Set<Seq<Seq<char>>>,
)
    requires
        0 <= sweep.i,
        are_inside(sweep.dirs),
        culls(keep, sweep.entries, culled),
    ensures
        ({
            let (count, then, dirs) = sweep_entries(disk, keep, sweep);
            shrinks(disk, then, count, keep, culled) && are_inside(dirs)
        }),
    decreases sweep.entries.len() - sweep.i,
{
    if sweep.i >= sweep.entries.len() {
        lemma_shrinks_not(disk, keep, culled);
    } else {
        let (one, then, rest) = sweep_entry(disk, keep, sweep);
        let (more, end, dirs) = sweep_entries(then, keep, rest);
        lemma_shrinks_entry(disk, keep, sweep, culled);
        lemma_shrinks_entries(then, keep, rest, culled);
        lemma_shrinks_on(disk, then, end, one, more, keep, culled);
    }
}

/// What an old build is cleaned up of is culled.
pub open spec fn build_culls(
    disk: Disk,
    depots: Seq<ResolvedDepotSpec>,
    keep: Set<Seq<char>>,
    build: (u32, u64),
    culled: Set<Seq<Seq<char>>>,
) -> bool {
    is_stale(disk.installed, build) ==> (entries_in(disk, depots, build) matches Some(entries)
        ==> culls(keep, entries, culled))
}

proof fn lemma_shrinks_build(
    disk: Disk,
    depots: Seq<ResolvedDepotSpec>,
    keep: Set<Seq<char>>,
    build: (u32, u64),
    culled: Set<Seq<Seq<char>>>,
)
    requires
        build_culls(disk, depots, keep, build, culled),
    ensures
        ({
            let (count, then) = clean_build(disk, depots, keep, build);
            shrinks(disk, then, count, keep, culled)
        }),
{
    lemma_shrinks_not(disk, keep, culled);
    lemma_build_frame(disk, depots, keep, build);
    if is_stale(disk.installed, build) {
        if let Some(entries) = entries_in(disk, depots, build) {
            let sweep = whole_sweep(entries);
            let (count, swept, dirs) = sweep_entries(disk, keep, sweep);
            let end = prune_dirs(swept, keep, dirs);
            assert(are_inside(sweep.dirs));
            lemma_shrinks_entries(disk, keep, sweep, culled);
            lemma_shrinks_prunes(swept, keep, dirs, culled);
            lemma_shrinks_on(disk, swept, end, count, 0, keep, culled);
            lemma_shrinks_unmarked(disk, end, count, keep, culled, build);
        }
    }
    lemma_shrinks_unmarked(disk, disk, 0, keep, culled, build);
}

proof fn lemma_shrinks_unmarked(
    before: Disk,
    end: Disk,
    count: nat,
    keep: Set<Seq<char>>,
    culled: Set<Seq<Seq<char>>>,
    build: (u32, u64),
)
    requires
        shrinks(before, end, count, keep, culled),
    ensures
        shrinks(before, unmarked(end, build), count, keep, culled),
{
    assert(files_in(unmarked(end, build)) =~= files_in(end));
    assert forall|path: Seq<Seq<char>>| goes_empty(end, keep, path) == #[trigger] goes_empty(
        unmarked(end, build),
        keep,
        path,
    ) by {}
}

/// The entries of a build do not depend on nodes and names.
proof fn lemma_same_entries(
    a: Disk,
    b: Disk,
    depots: Seq<ResolvedDepotSpec>,
    build: (u32, u64),
)
    requires
        same_config(a, b),
    ensures
        entries_in(a, depots, build) == entries_in(b, depots, build),
{
}

proof fn lemma_shrinks_builds(
    disk: Disk,
    depots: Seq<ResolvedDepotSpec>,
    keep: Set<Seq<char>>,
    builds: Seq<(u32, u64)>,
    at: int,
    culled: Set<Seq<Seq<char>>>,
)
    requires
        0 <= at,
        forall|j: int|
            0 <= j < builds.len() ==> build_culls(disk, depots, keep, #[trigger] builds[j], culled),
    ensures
        ({
            let (count, end) = clean_builds(disk, depots, keep, builds, at);
            shrinks(disk, end, count, keep, culled)
        }),
    decreases builds.len() - at,
{
    if at >= builds.len() {
        lemma_shrinks_not(disk, keep, culled);
    } else {
        let (one, then) = clean_build(disk, depots, keep, builds[at]);
        let (more, end) = clean_builds(then, depots, keep, builds, at + 1);
        lemma_shrinks_build(disk, depots, keep, builds[at], culled);
        assert forall|j: int| 0 <= j < builds.len() implies build_culls(
            then,
            depots,
            keep,
            #[trigger] builds[j],
            culled,
        ) by {
            assert(build_culls(disk, depots, keep, builds[j], culled));
            lemma_same_entries(disk, then, depots, builds[j]);
        }
        lemma_shrinks_builds(then, depots, keep, builds, at + 1, culled);
        lemma_shrinks_on(disk, then, end, one, more, keep, culled);
    }
}

// ---------------------------------------------------------------------------
// When nothing is touched
// ---------------------------------------------------------------------------

/// A pass changes nothing where nothing is cached or marked, or nothing is
/// installed: a config that cannot be read lists nothing, and says nothing of
/// what is still in use.
pub proof fn law_nothing_known_defers(disk: Disk, depots: Seq<ResolvedDepotSpec>)
    requires
        builds_in(disk).len() == 0 || disk.installed.len() == 0,
    ensures
        clean(disk, depots) == (0nat, disk),
{
}

/// A pass changes nothing where an installed build is in progress or cannot be
/// read, whichever it is.
pub proof fn law_incomplete_install_defers(disk: Disk, depots: Seq<ResolvedDepotSpec>, j: int)
    requires
        0 <= j < disk.installed.len(),
        disk.installed[j].1 == INVALID_MANIFEST_ID || entries_in(disk, depots, disk.installed[j])
            is None,
    ensures
        clean(disk, depots) == (0nat, disk),
{
    lemma_keep_none(disk, depots, disk.installed, j);
}

proof fn lemma_keep_none(
    disk: Disk,
    depots: Seq<ResolvedDepotSpec>,
    installed: Seq<(u32, u64)>,
    j: int,
)
    requires
        0 <= j < installed.len(),
        installed[j].1 == INVALID_MANIFEST_ID || entries_in(disk, depots, installed[j]) is None,
    ensures
        keep_in(disk, depots, installed) is None,
    decreases installed.len(),
{
    if j < installed.len() - 1 {
        lemma_keep_none(disk, depots, installed.drop_last(), j);
    }
}

/// The builds of a depot that is not installed are left alone, and keep their
/// markers.
pub proof fn law_unknown_depot_is_left_alone(
    disk: Disk,
    depots: Seq<ResolvedDepotSpec>,
    keep: Set<Seq<char>>,
    build: (u32, u64),
)
    requires
        current_of(disk.installed, build.0) is None,
    ensures
        clean_build(disk, depots, keep, build) == (0nat, disk),
{
}

/// Of a build that is installed only the marker is dropped.
pub proof fn law_installed_build_only_loses_its_marker(
    disk: Disk,
    depots: Seq<ResolvedDepotSpec>,
    keep: Set<Seq<char>>,
    build: (u32, u64),
)
    requires
        current_of(disk.installed, build.0) == Some(build.1),
    ensures
        clean_build(disk, depots, keep, build) == (0nat, unmarked(disk, build)),
{
}

// ---------------------------------------------------------------------------
// What a pass looks at
// ---------------------------------------------------------------------------

/// A build is looked at if it has a marker, a file list or a manifest in the
/// config directory: one of them is enough.
pub proof fn law_recorded_builds_are_looked_at(disk: Disk, depot_id: u32, manifest_id: u64)
    requires
        disk.names.contains(build_file(depot_id, manifest_id, STALE_CLEANUP_SUFFIX@))
            || disk.names.contains(build_file(depot_id, manifest_id, FILELIST_SUFFIX@))
            || disk.names.contains(build_file(depot_id, manifest_id, MANIFEST_SUFFIX@)),
    ensures
        builds_in(disk).contains((depot_id, manifest_id)),
{
    let names = disk.names;
    let build = (depot_id, manifest_id);
    lemma_cached_builds(names);
    lemma_marked_builds(names);
    lemma_with_builds(cached_builds(names), marked_builds(names));
    law_cached_file_names_build(depot_id, manifest_id);
    if names.contains(build_file(depot_id, manifest_id, STALE_CLEANUP_SUFFIX@)) {
        law_recorded_marker_is_pending(names, depot_id, manifest_id);
    } else {
        let suffix = if names.contains(build_file(depot_id, manifest_id, FILELIST_SUFFIX@)) {
            FILELIST_SUFFIX@
        } else {
            MANIFEST_SUFFIX@
        };
        let name = build_file(depot_id, manifest_id, suffix);
        let i = choose|i: int| 0 <= i < names.len() && names[i] == name;
        assert(cached_build(names[i]) == Some(build));
    }
}

/// A build whose file list was written can be read by any operation, whatever
/// keys it carries. Left out are manifests with an empty filename, whose list
/// is unreadable.
pub proof fn law_written_list_needs_no_key(
    disk: Disk,
    depots: Seq<ResolvedDepotSpec>,
    build: (u32, u64),
    files: Seq<ManifestFileView>,
)
    requires
        disk.sidecars.dom().contains(build),
        disk.sidecars[build] == Some(filelist_text(listed(manifest_entries(files)))),
        files.len() <= usize::MAX,
        forall|i: int| 0 <= i < files.len() ==> (#[trigger] files[i]).filename.len() > 0,
    ensures
        entries_in(disk, depots, build) == Some(listed(manifest_entries(files))),
{
    law_filelist_roundtrip(files);
}

// ---------------------------------------------------------------------------
// What is kept
// ---------------------------------------------------------------------------

proof fn lemma_keep_with(keep: Set<Seq<char>>, entries: Seq<EntryView>, i: int)
    requires
        0 <= i < entries.len(),
    ensures
        keep_with(keep, entries).contains(path_key(entries[i].name)),
    decreases entries.len(),
{
    if i < entries.len() - 1 {
        lemma_keep_with(keep, entries.drop_last(), i);
    }
}

proof fn lemma_keep_grows(keep: Set<Seq<char>>, entries: Seq<EntryView>, key: Seq<char>)
    requires
        keep.contains(key),
    ensures
        keep_with(keep, entries).contains(key),
    decreases entries.len(),
{
    if entries.len() > 0 {
        lemma_keep_grows(keep, entries.drop_last(), key);
    }
}

proof fn lemma_keep_holds(
    disk: Disk,
    depots: Seq<ResolvedDepotSpec>,
    installed: Seq<(u32, u64)>,
    j: int,
    i: int,
)
    requires
        keep_in(disk, depots, installed) is Some,
        0 <= j < installed.len(),
        entries_in(disk, depots, installed[j]) matches Some(entries) && 0 <= i < entries.len(),
    ensures
        keep_in(disk, depots, installed)->0.contains(
            path_key(entries_in(disk, depots, installed[j])->0[i].name),
        ),
    decreases installed.len(),
{
    let init = keep_in(disk, depots, installed.drop_last())->0;
    let last = entries_in(disk, depots, installed.last())->0;
    if j == installed.len() - 1 {
        lemma_keep_with(init, last, i);
    } else {
        lemma_keep_holds(disk, depots, installed.drop_last(), j, i);
        lemma_keep_grows(
            init,
            last,
            path_key(entries_in(disk, depots, installed[j])->0[i].name),
        );
    }
}

/// A pass that removes anything knows all that every installed build holds.
pub proof fn law_keep_is_complete(
    disk: Disk,
    depots: Seq<ResolvedDepotSpec>,
    keep: Set<Seq<char>>,
    j: int,
    i: int,
)
    requires
        known_keep(disk, depots) == Some(keep),
        0 <= j < disk.installed.len(),
        entries_in(disk, depots, disk.installed[j]) matches Some(entries) && 0 <= i < entries.len(),
    ensures
        keep.contains(path_key(entries_in(disk, depots, disk.installed[j])->0[i].name)),
{
    lemma_keep_holds(disk, depots, disk.installed, j, i);
}

/// The entry `i` of the build at `at` condemns a file.
pub open spec fn condemned_at(
    disk: Disk,
    depots: Seq<ResolvedDepotSpec>,
    keep: Set<Seq<char>>,
    at: int,
    i: int,
    path: Seq<Seq<char>>,
) -> bool {
    &&& 0 <= at < builds_in(disk).len()
    &&& is_stale(disk.installed, builds_in(disk)[at])
    &&& entries_in(disk, depots, builds_in(disk)[at]) matches Some(entries) && 0 <= i
        < entries.len() && condemns(keep, entries[i], path)
}

/// An entry of an old build condemns a file.
pub open spec fn is_condemned(
    disk: Disk,
    depots: Seq<ResolvedDepotSpec>,
    keep: Set<Seq<char>>,
    path: Seq<Seq<char>>,
) -> bool {
    exists|at: int, i: int| #[trigger] condemned_at(disk, depots, keep, at, i, path)
}

proof fn lemma_outcome(disk: Disk, depots: Seq<ResolvedDepotSpec>, keep: Set<Seq<char>>)
    requires
        known_keep(disk, depots) == Some(keep),
    ensures
        ({
            let (count, end) = clean(disk, depots);
            shrinks(
                disk,
                end,
                count,
                keep,
                Set::new(|path: Seq<Seq<char>>| is_condemned(disk, depots, keep, path)),
            )
        }),
{
    let culled = Set::new(|path: Seq<Seq<char>>| is_condemned(disk, depots, keep, path));
    let builds = builds_in(disk);
    assert forall|j: int| 0 <= j < builds.len() implies build_culls(
        disk,
        depots,
        keep,
        #[trigger] builds[j],
        culled,
    ) by {
        if is_stale(disk.installed, builds[j]) {
            if let Some(entries) = entries_in(disk, depots, builds[j]) {
                assert forall|i: int, path: Seq<Seq<char>>|
                    0 <= i < entries.len() && #[trigger] condemns(
                        keep,
                        entries[i],
                        path,
                    ) implies culled.contains(path) by {
                    assert(condemned_at(disk, depots, keep, j, i, path));
                }
            }
        }
    }
    lemma_shrinks_builds(disk, depots, keep, builds, 0, culled);
}

/// What an installed build holds stays, file or directory, whatever else the
/// pass does: so does every path with the key of something it holds.
pub proof fn law_kept_stays(
    disk: Disk,
    depots: Seq<ResolvedDepotSpec>,
    keep: Set<Seq<char>>,
    path: Seq<Seq<char>>,
)
    requires
        known_keep(disk, depots) == Some(keep),
        keep.contains(parts_key(path)),
        disk.nodes.dom().contains(path),
    ensures
        ({
            let end = clean(disk, depots).1;
            end.nodes.dom().contains(path) && end.nodes[path] == disk.nodes[path]
        }),
{
    let end = clean(disk, depots).1;
    lemma_outcome(disk, depots, keep);
    if !end.nodes.dom().contains(path) && disk.nodes[path] !is Directory {
        let (at, i) = choose|at: int, i: int| #[trigger]
            condemned_at(disk, depots, keep, at, i, path);
        law_condemned_is_unkept(
            keep,
            entries_in(disk, depots, builds_in(disk)[at])->0[i],
            path,
        );
    }
}

/// A file goes only if an entry of an old build condemns it. What no build
/// ever held stays: saves, settings, and files that a user added.
pub proof fn law_only_condemned_files_go(
    disk: Disk,
    depots: Seq<ResolvedDepotSpec>,
    path: Seq<Seq<char>>,
)
    requires
        is_file(disk, path),
        !clean(disk, depots).1.nodes.dom().contains(path),
    ensures
        known_keep(disk, depots) matches Some(keep) && is_condemned(disk, depots, keep, path),
{
    if let Some(keep) = known_keep(disk, depots) {
        lemma_outcome(disk, depots, keep);
    }
}

/// A directory goes only from below the install directory, only where no
/// installed build holds it, and only when nothing is left below it.
pub proof fn law_only_empty_dirs_go(
    disk: Disk,
    depots: Seq<ResolvedDepotSpec>,
    path: Seq<Seq<char>>,
)
    requires
        disk.nodes.dom().contains(path),
        disk.nodes[path] is Directory,
        !clean(disk, depots).1.nodes.dom().contains(path),
    ensures
        known_keep(disk, depots) matches Some(keep) && goes_empty(
            clean(disk, depots).1,
            keep,
            path,
        ),
{
    if let Some(keep) = known_keep(disk, depots) {
        lemma_outcome(disk, depots, keep);
    }
}

/// What is on disk is only ever taken away: nothing appears, nothing changes
/// its kind, and nothing but nodes and markers is touched.
pub proof fn law_pass_only_takes_away(disk: Disk, depots: Seq<ResolvedDepotSpec>)
    ensures
        ({
            let end = clean(disk, depots).1;
            &&& same_config(disk, end)
            &&& forall|path: Seq<Seq<char>>| #[trigger]
                end.nodes.dom().contains(path) ==> disk.nodes.dom().contains(path)
                    && end.nodes[path] == disk.nodes[path]
            &&& forall|name: Seq<char>| #[trigger]
                end.names.contains(name) ==> disk.names.contains(name)
            &&& forall|name: Seq<char>| #[trigger]
                disk.names.contains(name) && !end.names.contains(name) ==> marker_build(
                    name,
                ) is Some
        }),
{
    if let Some(keep) = known_keep(disk, depots) {
        let end = clean(disk, depots).1;
        lemma_outcome(disk, depots, keep);
        assert forall|name: Seq<char>| #[trigger] end.names.contains(name) implies disk.names.contains(
            name,
        ) by {
            law_markers_of_settled_builds_go(disk, depots, name);
        }
        assert forall|name: Seq<char>| #[trigger]
            disk.names.contains(name) && !end.names.contains(name) implies marker_build(
            name,
        ) is Some by {
            law_markers_of_settled_builds_go(disk, depots, name);
        }
    }
}

/// The number that a pass returns is the number of files that are gone.
pub proof fn law_count_is_of_gone_files(disk: Disk, depots: Seq<ResolvedDepotSpec>)
    requires
        disk.nodes.dom().finite(),
    ensures
        ({
            let (count, end) = clean(disk, depots);
            files_in(disk).len() == files_in(end).len() + count
        }),
{
    if let Some(keep) = known_keep(disk, depots) {
        lemma_outcome(disk, depots, keep);
    }
}

/// Whatever is below the install directory is in a directory.
pub open spec fn is_tree(disk: Disk) -> bool {
    forall|path: Seq<Seq<char>>| #[trigger]
        disk.nodes.dom().contains(path) && path.len() > 1 ==> disk.nodes.dom().contains(
            path.drop_last(),
        ) && disk.nodes[path.drop_last()] is Directory
}

/// No file loses the directory that it is in.
pub proof fn law_tree_stays(disk: Disk, depots: Seq<ResolvedDepotSpec>)
    requires
        is_tree(disk),
    ensures
        is_tree(clean(disk, depots).1),
{
    let end = clean(disk, depots).1;
    law_pass_only_takes_away(disk, depots);
    assert forall|path: Seq<Seq<char>>| #[trigger]
        end.nodes.dom().contains(path) && path.len() > 1 implies end.nodes.dom().contains(
        path.drop_last(),
    ) && end.nodes[path.drop_last()] is Directory by {
        let dir = path.drop_last();
        assert(disk.nodes.dom().contains(path));
        if !end.nodes.dom().contains(dir) {
            law_only_empty_dirs_go(disk, depots, dir);
            assert(path.take(dir.len() as int) == dir);
            assert(is_below(path, dir));
        }
    }
}

// ---------------------------------------------------------------------------
// What goes
// ---------------------------------------------------------------------------

/// A file that can be reached and removed, if it is still there.
spec fn is_open(disk: Disk, path: Seq<Seq<char>>) -> bool {
    &&& !behind_link(disk, path)
    &&& !disk.stuck.contains(path)
    &&& disk.nodes.dom().contains(path) ==> is_file(disk, path)
}

proof fn lemma_open_stays(
    before: Disk,
    end: Disk,
    count: nat,
    keep: Set<Seq<char>>,
    culled: Set<Seq<Seq<char>>>,
    path: Seq<Seq<char>>,
)
    requires
        shrinks(before, end, count, keep, culled),
        is_open(before, path),
    ensures
        is_open(end, path),
        !before.nodes.dom().contains(path) ==> !end.nodes.dom().contains(path),
{
    if behind_link(end, path) {
        let k = choose|k: int| 1 <= k < path.len() && is_link(end, #[trigger] path.take(k));
        assert(end.nodes.dom().contains(path.take(k)));
        assert(is_link(before, path.take(k)));
    }
}

proof fn lemma_file_goes(
    disk: Disk,
    keep: Set<Seq<char>>,
    sweep: SweepView,
    i: int,
    path: Seq<Seq<char>>,
)
    requires
        0 <= sweep.i <= i < sweep.entries.len(),
        are_inside(sweep.dirs),
        is_open(disk, path),
        is_orphan(keep, sweep.entries[i].name),
        !sweep.entries[i].is_dir,
        path == target_of(sweep.entries[i], false),
    ensures
        !sweep_entries(disk, keep, sweep).1.nodes.dom().contains(path),
    decreases sweep.entries.len() - sweep.i,
{
    let every = Set::new(|p: Seq<Seq<char>>| true);
    let (one, then, rest) = sweep_entry(disk, keep, sweep);
    let (more, end, dirs) = sweep_entries(then, keep, rest);
    lemma_shrinks_entry(disk, keep, sweep, every);
    lemma_open_stays(disk, then, one, keep, every, path);
    if sweep.i < i {
        lemma_file_goes(then, keep, rest, i, path);
    } else {
        assert(!then.nodes.dom().contains(path));
        lemma_shrinks_entries(then, keep, rest, every);
        lemma_open_stays(then, end, more, keep, every, path);
    }
}

proof fn lemma_build_goes(
    disk: Disk,
    depots: Seq<ResolvedDepotSpec>,
    keep: Set<Seq<char>>,
    builds: Seq<(u32, u64)>,
    from: int,
    at: int,
    i: int,
    path: Seq<Seq<char>>,
)
    requires
        0 <= from <= at < builds.len(),
        is_open(disk, path),
        is_stale(disk.installed, builds[at]),
        entries_in(disk, depots, builds[at]) matches Some(entries) && 0 <= i < entries.len()
            && is_orphan(keep, entries[i].name) && !entries[i].is_dir && path == target_of(
            entries[i],
            false,
        ),
    ensures
        !clean_builds(disk, depots, keep, builds, from).1.nodes.dom().contains(path),
    decreases builds.len() - from,
{
    let every = Set::new(|p: Seq<Seq<char>>| true);
    let (one, then) = clean_build(disk, depots, keep, builds[from]);
    let (more, end) = clean_builds(then, depots, keep, builds, from + 1);
    lemma_shrinks_build(disk, depots, keep, builds[from], every);
    lemma_open_stays(disk, then, one, keep, every, path);
    lemma_same_entries(disk, then, depots, builds[at]);
    if from < at {
        lemma_build_goes(then, depots, keep, builds, from + 1, at, i, path);
    } else {
        let entries = entries_in(disk, depots, builds[at])->0;
        let sweep = whole_sweep(entries);
        let (count, swept, dirs) = sweep_entries(disk, keep, sweep);
        assert(are_inside(sweep.dirs));
        lemma_file_goes(disk, keep, sweep, i, path);
        lemma_shrinks_entries(disk, keep, sweep, every);
        lemma_open_stays(disk, swept, count, keep, every, path);
        lemma_shrinks_prunes(swept, keep, dirs, every);
        lemma_open_stays(swept, prune_dirs(swept, keep, dirs), 0, keep, every, path);
        assert(!then.nodes.dom().contains(path));
        lemma_shrinks_builds(then, depots, keep, builds, from + 1, every);
        lemma_open_stays(then, end, more, keep, every, path);
    }
}

/// Every file that an entry of an old build names goes, where no installed
/// build holds it, its name is safe, no directory on the way to it is a link,
/// and it can be removed.
pub proof fn law_old_files_go(
    disk: Disk,
    depots: Seq<ResolvedDepotSpec>,
    keep: Set<Seq<char>>,
    at: int,
    i: int,
    path: Seq<Seq<char>>,
)
    requires
        known_keep(disk, depots) == Some(keep),
        condemned_at(disk, depots, keep, at, i, path),
        path == target_of(entries_in(disk, depots, builds_in(disk)[at])->0[i], false),
        is_file(disk, path),
        !disk.stuck.contains(path),
        !behind_link(disk, path),
    ensures
        !clean(disk, depots).1.nodes.dom().contains(path),
{
    lemma_build_goes(disk, depots, keep, builds_in(disk), 0, at, i, path);
}

/// A backup that is not left behind by its file.
spec fn is_paired(disk: Disk, path: Seq<Seq<char>>, backup: Seq<Seq<char>>) -> bool {
    &&& !disk.stuck.contains(backup)
    &&& disk.nodes.dom().contains(path) ==> is_file(disk, path)
    &&& disk.nodes.dom().contains(backup) ==> is_file(disk, backup)
    &&& !disk.nodes.dom().contains(path) ==> !disk.nodes.dom().contains(backup)
}

/// The entry does not take the path away as the backup of its own file.
spec fn spares(
    disk: Disk,
    keep: Set<Seq<char>>,
    entry: EntryView,
    path: Seq<Seq<char>>,
) -> bool {
    !(condemns(keep, entry, path) && has_backup(keep, entry.name) && path == target_of(entry, true)
        && file_goes(disk, target_of(entry, false)))
}

proof fn lemma_spares_on(
    before: Disk,
    end: Disk,
    count: nat,
    keep: Set<Seq<char>>,
    culled: Set<Seq<Seq<char>>>,
    entry: EntryView,
    path: Seq<Seq<char>>,
)
    requires
        shrinks(before, end, count, keep, culled),
        spares(before, keep, entry, path),
    ensures
        spares(end, keep, entry, path),
{
    let file = target_of(entry, false);
    if end.nodes.dom().contains(file) {
        assert(before.nodes.dom().contains(file));
    }
}

proof fn lemma_paired_entry(disk: Disk, keep: Set<Seq<char>>, sweep: SweepView, name: Seq<char>)
    requires
        0 <= sweep.i < sweep.entries.len(),
        has_backup(keep, name),
        safe_parts(name) is Some,
        is_paired(disk, safe_parts(name)->0, backup_of(safe_parts(name)->0)),
        spares(disk, keep, sweep.entries[sweep.i], safe_parts(name)->0),
    ensures
        is_paired(
            sweep_entry(disk, keep, sweep).1,
            safe_parts(name)->0,
            backup_of(safe_parts(name)->0),
        ),
{
    let path = safe_parts(name)->0;
    let backup = backup_of(path);
    let entry = sweep.entries[sweep.i];
    let parts = safe_parts(entry.name)->0;
    lemma_parts_inside(name);
    reveal_strlit(".original.exe");
    assert(backup.last().len() == path.last().len() + BACKUP_SUFFIX@.len());
    assert(backup != path);
    if is_orphan(keep, entry.name) && file_goes(disk, parts) && parts == path {
        law_safe_parts_keep_key(name);
        law_safe_parts_keep_key(entry.name);
        assert(has_backup(keep, entry.name));
    }
}

/// The entries before `i` spare the path.
spec fn spared_before(
    disk: Disk,
    keep: Set<Seq<char>>,
    entries: Seq<EntryView>,
    i: int,
    path: Seq<Seq<char>>,
) -> bool {
    forall|j: int|
        0 <= j < i && j < entries.len() ==> spares(disk, keep, #[trigger] entries[j], path)
}

/// The file of the entry `i` goes, and its backup with it.
proof fn lemma_backup_goes(disk: Disk, keep: Set<Seq<char>>, sweep: SweepView, i: int)
    requires
        0 <= sweep.i <= i < sweep.entries.len(),
        are_inside(sweep.dirs),
        is_orphan(keep, sweep.entries[i].name),
        !sweep.entries[i].is_dir,
        has_backup(keep, sweep.entries[i].name),
        is_open(disk, target_of(sweep.entries[i], false)),
        is_paired(disk, target_of(sweep.entries[i], false), target_of(sweep.entries[i], true)),
        spared_before(disk, keep, sweep.entries, i, target_of(sweep.entries[i], false)),
    ensures
        !sweep_entries(disk, keep, sweep).1.nodes.dom().contains(
            target_of(sweep.entries[i], true),
        ),
    decreases sweep.entries.len() - sweep.i,
{
    let every = Set::new(|p: Seq<Seq<char>>| true);
    let name = sweep.entries[i].name;
    let path = target_of(sweep.entries[i], false);
    let backup = target_of(sweep.entries[i], true);
    let (one, then, rest) = sweep_entry(disk, keep, sweep);
    let (more, end, dirs) = sweep_entries(then, keep, rest);
    lemma_shrinks_entry(disk, keep, sweep, every);
    lemma_open_stays(disk, then, one, keep, every, path);
    lemma_own_file_spares(disk, keep, sweep.entries[i]);
    if sweep.i < i {
        assert(spares(disk, keep, sweep.entries[sweep.i], path));
        lemma_paired_entry(disk, keep, sweep, name);
        assert forall|j: int| 0 <= j < i && j < rest.entries.len() implies spares(
            then,
            keep,
            #[trigger] rest.entries[j],
            path,
        ) by {
            assert(spares(disk, keep, sweep.entries[j], path));
            lemma_spares_on(disk, then, one, keep, every, sweep.entries[j], path);
        }
        lemma_backup_goes(then, keep, rest, i);
    } else {
        lemma_paired_entry(disk, keep, sweep, name);
        assert(!then.nodes.dom().contains(path));
        assert(!then.nodes.dom().contains(backup));
        lemma_shrinks_entries(then, keep, rest, every);
        if end.nodes.dom().contains(backup) {
            assert(then.nodes.dom().contains(backup));
        }
    }
}

/// A file is not its own backup.
proof fn lemma_own_file_spares(disk: Disk, keep: Set<Seq<char>>, entry: EntryView)
    requires
        safe_parts(entry.name) is Some,
    ensures
        spares(disk, keep, entry, target_of(entry, false)),
{
    let path = safe_parts(entry.name)->0;
    lemma_parts_inside(entry.name);
    reveal_strlit(".original.exe");
    assert(backup_of(path).last().len() == path.last().len() + BACKUP_SUFFIX@.len());
}

proof fn lemma_paired_entries(disk: Disk, keep: Set<Seq<char>>, sweep: SweepView, name: Seq<char>)
    requires
        0 <= sweep.i,
        are_inside(sweep.dirs),
        has_backup(keep, name),
        safe_parts(name) is Some,
        is_paired(disk, safe_parts(name)->0, backup_of(safe_parts(name)->0)),
        spared_before(
            disk,
            keep,
            sweep.entries,
            sweep.entries.len() as int,
            safe_parts(name)->0,
        ),
    ensures
        is_paired(
            sweep_entries(disk, keep, sweep).1,
            safe_parts(name)->0,
            backup_of(safe_parts(name)->0),
        ),
    decreases sweep.entries.len() - sweep.i,
{
    if sweep.i < sweep.entries.len() {
        let every = Set::new(|p: Seq<Seq<char>>| true);
        let path = safe_parts(name)->0;
        let (one, then, rest) = sweep_entry(disk, keep, sweep);
        assert(spares(disk, keep, sweep.entries[sweep.i], path));
        lemma_shrinks_entry(disk, keep, sweep, every);
        lemma_paired_entry(disk, keep, sweep, name);
        assert forall|j: int|
            0 <= j < rest.entries.len() && j < rest.entries.len() implies spares(
            then,
            keep,
            #[trigger] rest.entries[j],
            path,
        ) by {
            assert(spares(disk, keep, sweep.entries[j], path));
            lemma_spares_on(disk, then, one, keep, every, sweep.entries[j], path);
        }
        lemma_paired_entries(then, keep, rest, name);
    }
}

/// The entries of old builds that come before the entry `i` of the build at
/// `at` spare the path.
spec fn is_spared(
    disk: Disk,
    depots: Seq<ResolvedDepotSpec>,
    keep: Set<Seq<char>>,
    builds: Seq<(u32, u64)>,
    at: int,
    i: int,
    path: Seq<Seq<char>>,
) -> bool {
    forall|k: int|
        0 <= k <= at && k < builds.len() && is_stale(disk.installed, #[trigger] builds[k]) ==> (
        entries_in(disk, depots, builds[k]) matches Some(entries) ==> spared_before(
            disk,
            keep,
            entries,
            if k < at {
                entries.len() as int
            } else {
                i
            },
            path,
        ))
}

proof fn lemma_build_backup_goes(
    disk: Disk,
    depots: Seq<ResolvedDepotSpec>,
    keep: Set<Seq<char>>,
    builds: Seq<(u32, u64)>,
    from: int,
    at: int,
    i: int,
    entry: EntryView,
)
    requires
        0 <= from <= at < builds.len(),
        is_stale(disk.installed, builds[at]),
        entries_in(disk, depots, builds[at]) matches Some(entries) && 0 <= i < entries.len()
            && entries[i] == entry,
        is_orphan(keep, entry.name),
        !entry.is_dir,
        has_backup(keep, entry.name),
        is_open(disk, target_of(entry, false)),
        is_paired(disk, target_of(entry, false), target_of(entry, true)),
        is_spared(disk, depots, keep, builds, at, i, target_of(entry, false)),
    ensures
        !clean_builds(disk, depots, keep, builds, from).1.nodes.dom().contains(
            target_of(entry, true),
        ),
    decreases builds.len() - from,
{
    let every = Set::new(|p: Seq<Seq<char>>| true);
    let none = Set::<Seq<Seq<char>>>::empty();
    let path = target_of(entry, false);
    let backup = target_of(entry, true);
    let (one, then) = clean_build(disk, depots, keep, builds[from]);
    let (more, end) = clean_builds(then, depots, keep, builds, from + 1);
    lemma_shrinks_build(disk, depots, keep, builds[from], every);
    lemma_open_stays(disk, then, one, keep, every, path);
    if from < at {
        if is_stale(disk.installed, builds[from]) {
            if let Some(entries) = entries_in(disk, depots, builds[from]) {
                let sweep = whole_sweep(entries);
                let (count, swept, dirs) = sweep_entries(disk, keep, sweep);
                let pruned = prune_dirs(swept, keep, dirs);
                assert(are_inside(sweep.dirs));
                lemma_paired_entries(disk, keep, sweep, entry.name);
                lemma_shrinks_entries(disk, keep, sweep, every);
                lemma_shrinks_prunes(swept, keep, dirs, none);
                assert(is_paired(pruned, path, backup)) by {
                    if swept.nodes.dom().contains(path) && !pruned.nodes.dom().contains(path) {
                        assert(none.contains(path));
                    }
                }
            }
        }
        assert(is_paired(then, path, backup));
        lemma_same_entries(disk, then, depots, builds[at]);
        assert forall|k: int|
            0 <= k <= at && k < builds.len() && is_stale(
                then.installed,
                #[trigger] builds[k],
            ) implies (entries_in(then, depots, builds[k]) matches Some(entries)
            ==> spared_before(
            then,
            keep,
            entries,
            if k < at {
                entries.len() as int
            } else {
                i
            },
            path,
        )) by {
            lemma_same_entries(disk, then, depots, builds[k]);
            if let Some(entries) = entries_in(then, depots, builds[k]) {
                let to = if k < at {
                    entries.len() as int
                } else {
                    i
                };
                assert(spared_before(disk, keep, entries, to, path));
                assert forall|j: int| 0 <= j < to && j < entries.len() implies spares(
                    then,
                    keep,
                    #[trigger] entries[j],
                    path,
                ) by {
                    assert(spares(disk, keep, entries[j], path));
                    lemma_spares_on(disk, then, one, keep, every, entries[j], path);
                }
            }
        }
        lemma_build_backup_goes(then, depots, keep, builds, from + 1, at, i, entry);
    } else {
        let entries = entries_in(disk, depots, builds[at])->0;
        let sweep = whole_sweep(entries);
        let (count, swept, dirs) = sweep_entries(disk, keep, sweep);
        assert(are_inside(sweep.dirs));
        lemma_backup_goes(disk, keep, sweep, i);
        lemma_shrinks_entries(disk, keep, sweep, every);
        lemma_shrinks_prunes(swept, keep, dirs, every);
        assert(!then.nodes.dom().contains(backup));
        lemma_shrinks_builds(then, depots, keep, builds, from + 1, every);
        if end.nodes.dom().contains(backup) {
            assert(then.nodes.dom().contains(backup));
        }
    }
}

/// With an executable of an old build that goes, its backup goes, unless an
/// installed build holds a file under the backup's name. Left out are
/// executables that an entry before theirs takes away as the backup of another
/// file: their own backup may then stay.
pub proof fn law_backups_go(
    disk: Disk,
    depots: Seq<ResolvedDepotSpec>,
    keep: Set<Seq<char>>,
    at: int,
    i: int,
    path: Seq<Seq<char>>,
)
    requires
        known_keep(disk, depots) == Some(keep),
        condemned_at(disk, depots, keep, at, i, path),
        path == target_of(entries_in(disk, depots, builds_in(disk)[at])->0[i], false),
        is_file(disk, path),
        !disk.stuck.contains(path),
        !behind_link(disk, path),
        has_backup(keep, entries_in(disk, depots, builds_in(disk)[at])->0[i].name),
        is_file(disk, backup_of(path)),
        !disk.stuck.contains(backup_of(path)),
        forall|k: int, j: int|
            (k < at || (k == at && j < i)) && #[trigger] condemned_at(
                disk,
                depots,
                keep,
                k,
                j,
                path,
            ) ==> {
                let other = entries_in(disk, depots, builds_in(disk)[k])->0[j];
                !(has_backup(keep, other.name) && path == target_of(other, true) && file_goes(
                    disk,
                    target_of(other, false),
                ))
            },
    ensures
        !clean(disk, depots).1.nodes.dom().contains(backup_of(path)),
{
    let builds = builds_in(disk);
    let entry = entries_in(disk, depots, builds[at])->0[i];
    assert forall|k: int|
        0 <= k <= at && k < builds.len() && is_stale(disk.installed, #[trigger] builds[k]) implies (
    entries_in(disk, depots, builds[k]) matches Some(entries) ==> spared_before(
        disk,
        keep,
        entries,
        if k < at {
            entries.len() as int
        } else {
            i
        },
        path,
    )) by {
        if let Some(entries) = entries_in(disk, depots, builds[k]) {
            let to = if k < at {
                entries.len() as int
            } else {
                i
            };
            assert forall|j: int| 0 <= j < to && j < entries.len() implies spares(
                disk,
                keep,
                #[trigger] entries[j],
                path,
            ) by {
                if condemns(keep, entries[j], path) {
                    assert(condemned_at(disk, depots, keep, k, j, path));
                }
            }
        }
    }
    lemma_build_backup_goes(disk, depots, keep, builds, 0, at, i, entry);
}

/// A file goes because the entry that condemns it names it, or because it is
/// the backup of the file that the entry names, which was there and is gone.
spec fn is_tied(
    before: Disk,
    end: Disk,
    keep: Set<Seq<char>>,
    entry: EntryView,
    path: Seq<Seq<char>>,
) -> bool {
    &&& condemns(keep, entry, path)
    &&& path == target_of(entry, false) || (is_file(before, target_of(entry, false))
        && !end.nodes.dom().contains(target_of(entry, false)))
}

/// Every file that is gone is tied to one of the entries.
spec fn are_tied(before: Disk, end: Disk, keep: Set<Seq<char>>, entries: Set<EntryView>) -> bool {
    forall|path: Seq<Seq<char>>|
        is_file(before, path) && !(#[trigger] end.nodes.dom().contains(path)) ==> exists|
            entry: EntryView,
        | #[trigger]
            entries.contains(entry) && is_tied(before, end, keep, entry, path)
}

proof fn lemma_tied_on(
    a: Disk,
    b: Disk,
    c: Disk,
    first: nat,
    second: nat,
    keep: Set<Seq<char>>,
    entries: Set<EntryView>,
)
    requires
        shrinks(a, b, first, keep, Set::new(|p: Seq<Seq<char>>| true)),
        shrinks(b, c, second, keep, Set::new(|p: Seq<Seq<char>>| true)),
        are_tied(a, b, keep, entries),
        are_tied(b, c, keep, entries),
    ensures
        are_tied(a, c, keep, entries),
{
    assert forall|path: Seq<Seq<char>>|
        is_file(a, path) && !(#[trigger] c.nodes.dom().contains(path)) implies exists|
        entry: EntryView,
    | #[trigger] entries.contains(entry) && is_tied(a, c, keep, entry, path) by {
        if b.nodes.dom().contains(path) {
            assert(is_file(b, path));
            let entry = choose|entry: EntryView| #[trigger]
                entries.contains(entry) && is_tied(b, c, keep, entry, path);
            let file = target_of(entry, false);
            if is_file(b, file) {
                assert(a.nodes.dom().contains(file));
            }
            assert(entries.contains(entry) && is_tied(a, c, keep, entry, path));
        } else {
            let entry = choose|entry: EntryView| #[trigger]
                entries.contains(entry) && is_tied(a, b, keep, entry, path);
            let file = target_of(entry, false);
            if c.nodes.dom().contains(file) {
                assert(b.nodes.dom().contains(file));
            }
            assert(entries.contains(entry) && is_tied(a, c, keep, entry, path));
        }
    }
}

proof fn lemma_tied_entries(
    disk: Disk,
    keep: Set<Seq<char>>,
    sweep: SweepView,
    entries: Set<EntryView>,
)
    requires
        0 <= sweep.i,
        are_inside(sweep.dirs),
        forall|j: int| 0 <= j < sweep.entries.len() ==> entries.contains(#[trigger] sweep.entries[j]),
    ensures
        are_tied(disk, sweep_entries(disk, keep, sweep).1, keep, entries),
    decreases sweep.entries.len() - sweep.i,
{
    if sweep.i < sweep.entries.len() {
        let every = Set::new(|p: Seq<Seq<char>>| true);
        let entry = sweep.entries[sweep.i];
        let (one, then, rest) = sweep_entry(disk, keep, sweep);
        let (more, end, dirs) = sweep_entries(then, keep, rest);
        lemma_shrinks_entry(disk, keep, sweep, every);
        lemma_shrinks_entries(then, keep, rest, every);
        assert(are_tied(disk, then, keep, entries)) by {
            assert forall|path: Seq<Seq<char>>|
                is_file(disk, path) && !(#[trigger] then.nodes.dom().contains(path)) implies exists|
                entry: EntryView,
            | #[trigger] entries.contains(entry) && is_tied(disk, then, keep, entry, path) by {
                assert(entries.contains(entry) && is_tied(disk, then, keep, entry, path));
            }
        }
        lemma_tied_entries(then, keep, rest, entries);
        lemma_tied_on(disk, then, end, one, more, keep, entries);
    }
}

proof fn lemma_tied_builds(
    disk: Disk,
    depots: Seq<ResolvedDepotSpec>,
    keep: Set<Seq<char>>,
    builds: Seq<(u32, u64)>,
    at: int,
    entries: Set<EntryView>,
)
    requires
        0 <= at,
        forall|k: int|
            0 <= k < builds.len() && is_stale(disk.installed, #[trigger] builds[k]) ==> (
            entries_in(disk, depots, builds[k]) matches Some(found) ==> (forall|j: int|
                0 <= j < found.len() ==> entries.contains(#[trigger] found[j]))),
    ensures
        are_tied(disk, clean_builds(disk, depots, keep, builds, at).1, keep, entries),
    decreases builds.len() - at,
{
    if at < builds.len() {
        let every = Set::new(|p: Seq<Seq<char>>| true);
        let none = Set::<Seq<Seq<char>>>::empty();
        let (one, then) = clean_build(disk, depots, keep, builds[at]);
        let (more, end) = clean_builds(then, depots, keep, builds, at + 1);
        lemma_shrinks_build(disk, depots, keep, builds[at], every);
        lemma_shrinks_builds(then, depots, keep, builds, at + 1, every);
        if is_stale(disk.installed, builds[at]) {
            if let Some(found) = entries_in(disk, depots, builds[at]) {
                let sweep = whole_sweep(found);
                let (count, swept, dirs) = sweep_entries(disk, keep, sweep);
                let pruned = prune_dirs(swept, keep, dirs);
                assert(are_inside(sweep.dirs));
                lemma_tied_entries(disk, keep, sweep, entries);
                lemma_shrinks_entries(disk, keep, sweep, every);
                lemma_shrinks_prunes(swept, keep, dirs, none);
                lemma_shrinks_prunes(swept, keep, dirs, every);
                assert(are_tied(swept, pruned, keep, entries)) by {
                    assert forall|path: Seq<Seq<char>>|
                        is_file(swept, path) implies #[trigger] pruned.nodes.dom().contains(
                        path,
                    ) by {
                        if !pruned.nodes.dom().contains(path) {
                            assert(swept.nodes.dom().contains(path));
                            assert(none.contains(path));
                        }
                    }
                }
                lemma_tied_on(disk, swept, pruned, count, 0, keep, entries);
                assert(then.nodes == pruned.nodes);
                assert(are_tied(disk, then, keep, entries)) by {
                    assert forall|path: Seq<Seq<char>>|
                        is_file(disk, path) && !(#[trigger] then.nodes.dom().contains(
                            path,
                        )) implies exists|entry: EntryView| #[trigger]
                        entries.contains(entry) && is_tied(disk, then, keep, entry, path) by {
                        assert(!pruned.nodes.dom().contains(path));
                        let entry = choose|entry: EntryView| #[trigger]
                            entries.contains(entry) && is_tied(disk, pruned, keep, entry, path);
                        assert(entries.contains(entry) && is_tied(disk, then, keep, entry, path));
                    }
                }
            }
        }
        assert forall|k: int|
            0 <= k < builds.len() && is_stale(then.installed, #[trigger] builds[k]) implies (
        entries_in(then, depots, builds[k]) matches Some(found) ==> (forall|j: int|
            0 <= j < found.len() ==> entries.contains(#[trigger] found[j]))) by {
            lemma_same_entries(disk, then, depots, builds[k]);
        }
        lemma_tied_builds(then, depots, keep, builds, at + 1, entries);
        lemma_tied_on(disk, then, end, one, more, keep, entries);
    }
}

/// The entry `i` of the build at `at` condemns a file and takes it away: it
/// names the file, or names the file of which this is the backup, and that one
/// was there and is gone.
pub open spec fn goes_for(
    disk: Disk,
    depots: Seq<ResolvedDepotSpec>,
    keep: Set<Seq<char>>,
    at: int,
    i: int,
    path: Seq<Seq<char>>,
) -> bool {
    let named = target_of(entries_in(disk, depots, builds_in(disk)[at])->0[i], false);
    &&& condemned_at(disk, depots, keep, at, i, path)
    &&& path == named || (is_file(disk, named) && !clean(disk, depots).1.nodes.dom().contains(
        named,
    ))
}

/// A backup goes only together with its own file: a file that is gone was
/// named by an entry of an old build, or is the backup of a named file that
/// the same pass has taken away.
pub proof fn law_backups_go_only_with_their_files(
    disk: Disk,
    depots: Seq<ResolvedDepotSpec>,
    keep: Set<Seq<char>>,
    path: Seq<Seq<char>>,
)
    requires
        known_keep(disk, depots) == Some(keep),
        is_file(disk, path),
        !clean(disk, depots).1.nodes.dom().contains(path),
    ensures
        exists|at: int, i: int| #[trigger] goes_for(disk, depots, keep, at, i, path),
{
    let builds = builds_in(disk);
    let end = clean(disk, depots).1;
    let entries = Set::new(
        |entry: EntryView|
            exists|at: int, i: int| #[trigger] is_old_entry(disk, depots, at, i, entry),
    );
    assert forall|k: int|
        0 <= k < builds.len() && is_stale(disk.installed, #[trigger] builds[k]) implies (entries_in(
        disk,
        depots,
        builds[k],
    ) matches Some(found) ==> (forall|j: int|
        0 <= j < found.len() ==> entries.contains(#[trigger] found[j]))) by {
        if let Some(found) = entries_in(disk, depots, builds[k]) {
            assert forall|j: int| 0 <= j < found.len() implies entries.contains(
                #[trigger] found[j],
            ) by {
                assert(is_old_entry(disk, depots, k, j, found[j]));
            }
        }
    }
    lemma_tied_builds(disk, depots, keep, builds, 0, entries);
    let entry = choose|entry: EntryView| #[trigger]
        entries.contains(entry) && is_tied(disk, end, keep, entry, path);
    let (at, i) = choose|at: int, i: int| #[trigger] is_old_entry(disk, depots, at, i, entry);
    assert(goes_for(disk, depots, keep, at, i, path));
}

/// The entry stands at `i` in the build at `at`, which is old.
spec fn is_old_entry(
    disk: Disk,
    depots: Seq<ResolvedDepotSpec>,
    at: int,
    i: int,
    entry: EntryView,
) -> bool {
    &&& 0 <= at < builds_in(disk).len()
    &&& is_stale(disk.installed, builds_in(disk)[at])
    &&& entries_in(disk, depots, builds_in(disk)[at]) matches Some(entries) && 0 <= i
        < entries.len() && entries[i] == entry
}

// ---------------------------------------------------------------------------
// Markers
// ---------------------------------------------------------------------------

/// A build that a pass has done with: it is installed, or it is old and either
/// was cleaned up or has nothing left to be read.
pub open spec fn is_settled(
    disk: Disk,
    depots: Seq<ResolvedDepotSpec>,
    build: (u32, u64),
) -> bool {
    match current_of(disk.installed, build.0) {
        None => false,
        Some(gid) => gid == build.1 || entries_in(disk, depots, build) is Some || !(
        disk.sidecars.dom().contains(build) || disk.manifests.dom().contains(build)),
    }
}

/// A name in the config directory that a pass takes away: the marker of a
/// build that it has done with.
pub open spec fn is_dropped(disk: Disk, depots: Seq<ResolvedDepotSpec>, name: Seq<char>) -> bool {
    &&& !disk.stuck_names.contains(name)
    &&& marker_build(name) matches Some(build) && name == marker_name(build) && is_settled(
        disk,
        depots,
        build,
    )
}

proof fn lemma_unmarked(disk: Disk, build: (u32, u64), name: Seq<char>)
    ensures
        unmarked(disk, build).names.contains(name) <==> disk.names.contains(name) && (name
            != marker_name(build) || disk.stuck_names.contains(name)),
{
    let stays = |name: Seq<char>| name != marker_name(build) || disk.stuck_names.contains(name);
    let left = disk.names.filter(stays);
    if disk.names.contains(name) && stays(name) {
        let i = choose|i: int| 0 <= i < disk.names.len() && disk.names[i] == name;
        disk.names.lemma_filter_contains(stays, i);
    }
    if left.contains(name) {
        let i = choose|i: int| 0 <= i < left.len() && left[i] == name;
        disk.names.lemma_filter_contains_rev(stays, name);
        disk.names.lemma_filter_pred(stays, i);
    }
}

proof fn lemma_build_names(
    disk: Disk,
    depots: Seq<ResolvedDepotSpec>,
    keep: Set<Seq<char>>,
    build: (u32, u64),
)
    ensures
        clean_build(disk, depots, keep, build).1.names == if is_settled(disk, depots, build) {
            unmarked(disk, build).names
        } else {
            disk.names
        },
{
    if let Some(entries) = entries_in(disk, depots, build) {
        let end = clean_entries(disk, keep, entries).1;
        lemma_entries_frame(disk, keep, entries);
        assert(unmarked(end, build).names == unmarked(disk, build).names) by {
            assert((|name: Seq<char>|
                name != marker_name(build) || end.stuck_names.contains(name)) =~= (|
                name: Seq<char>,
            | name != marker_name(build) || disk.stuck_names.contains(name)));
        }
    }
}

proof fn lemma_names(
    disk: Disk,
    depots: Seq<ResolvedDepotSpec>,
    keep: Set<Seq<char>>,
    builds: Seq<(u32, u64)>,
    at: int,
    name: Seq<char>,
)
    requires
        0 <= at <= builds.len(),
    ensures
        clean_builds(disk, depots, keep, builds, at).1.names.contains(name) <==> (
        disk.names.contains(name) && !(is_dropped(disk, depots, name) && builds.skip(at).contains(
            marker_build(name)->0,
        ))),
    decreases builds.len() - at,
{
    let rest = builds.skip(at);
    if at < builds.len() {
        let build = builds[at];
        let (one, then) = clean_build(disk, depots, keep, build);
        lemma_build_frame(disk, depots, keep, build);
        lemma_build_names(disk, depots, keep, build);
        lemma_unmarked(disk, build, name);
        law_marker_names_build(build.0, build.1);
        lemma_names(then, depots, keep, builds, at + 1, name);
        if let Some(named) = marker_build(name) {
            lemma_same_entries(disk, then, depots, named);
            lemma_contains_from(builds, at, named);
        }
    } else if marker_build(name) is Some {
        assert(!rest.contains(marker_build(name)->0));
    }
}

proof fn lemma_contains_from(builds: Seq<(u32, u64)>, at: int, build: (u32, u64))
    requires
        0 <= at < builds.len(),
    ensures
        builds.skip(at).contains(build) <==> build == builds[at] || builds.skip(at + 1).contains(
            build,
        ),
{
    let rest = builds.skip(at);
    let tail = builds.skip(at + 1);
    if rest.contains(build) {
        let j = choose|j: int| 0 <= j < rest.len() && rest[j] == build;
        if j > 0 {
            assert(tail[j - 1] == build);
        }
    }
    if tail.contains(build) {
        let j = choose|j: int| 0 <= j < tail.len() && tail[j] == build;
        assert(rest[j + 1] == build);
    }
    if build == builds[at] {
        assert(rest[0] == build);
    }
}

/// A pass that knows what is kept takes the markers of the builds that it has
/// done with out of the config directory, and no other names. A marker stays
/// where its depot is not installed, and where the build's data is on disk but
/// could not be read: a later pass that carries the key does the rest.
pub proof fn law_markers_of_settled_builds_go(
    disk: Disk,
    depots: Seq<ResolvedDepotSpec>,
    name: Seq<char>,
)
    requires
        known_keep(disk, depots) is Some,
    ensures
        clean(disk, depots).1.names.contains(name) <==> (disk.names.contains(name) && !is_dropped(
            disk,
            depots,
            name,
        )),
{
    let builds = builds_in(disk);
    lemma_names(disk, depots, known_keep(disk, depots)->0, builds, 0, name);
    assert(builds.skip(0) == builds);
    if disk.names.contains(name) && is_dropped(disk, depots, name) {
        let build = marker_build(name)->0;
        law_recorded_builds_are_looked_at(disk, build.0, build.1);
    }
}

/// The builds that are pending after a pass are those that were pending before
/// it and that it has not done with. Left out are builds with a marker under
/// another spelling of their ids, which a pass reads and does not drop, and
/// markers that cannot be removed.
pub proof fn law_settled_builds_are_pending_no_more(
    disk: Disk,
    depots: Seq<ResolvedDepotSpec>,
    build: (u32, u64),
)
    requires
        known_keep(disk, depots) is Some,
        forall|name: Seq<char>| #[trigger]
            disk.names.contains(name) && marker_build(name) == Some(build) ==> name == marker_name(
                build,
            ),
        !disk.stuck_names.contains(marker_name(build)),
    ensures
        marked_builds(clean(disk, depots).1.names).contains(build) <==> (marked_builds(
            disk.names,
        ).contains(build) && !is_settled(disk, depots, build)),
{
    let end = clean(disk, depots).1;
    let name = marker_name(build);
    law_marker_names_build(build.0, build.1);
    law_markers_of_settled_builds_go(disk, depots, name);
    if marked_builds(end.names).contains(build) {
        lemma_marked_builds(end.names);
        let i = choose|i: int|
            0 <= i < end.names.len() && #[trigger] marker_build(end.names[i]) == Some(build);
        law_markers_of_settled_builds_go(disk, depots, end.names[i]);
        assert(end.names.contains(end.names[i]));
        assert(end.names[i] == name);
        law_recorded_marker_is_pending(disk.names, build.0, build.1);
    }
    if marked_builds(disk.names).contains(build) && !is_settled(disk, depots, build) {
        lemma_marked_builds(disk.names);
        let i = choose|i: int|
            0 <= i < disk.names.len() && #[trigger] marker_build(disk.names[i]) == Some(build);
        assert(disk.names.contains(disk.names[i]));
        law_recorded_marker_is_pending(end.names, build.0, build.1);
    }
}

// ---------------------------------------------------------------------------
// Once more
// ---------------------------------------------------------------------------

proof fn lemma_same_keep(
    a: Disk,
    b: Disk,
    depots: Seq<ResolvedDepotSpec>,
    installed: Seq<(u32, u64)>,
)
    requires
        same_config(a, b),
    ensures
        keep_in(a, depots, installed) == keep_in(b, depots, installed),
    decreases installed.len(),
{
    if installed.len() > 0 {
        lemma_same_keep(a, b, depots, installed.drop_last());
        lemma_same_entries(a, b, depots, installed.last());
    }
}

/// No entry names a file that would go.
spec fn is_idle(disk: Disk, keep: Set<Seq<char>>, entries: Seq<EntryView>) -> bool {
    forall|i: int|
        0 <= i < entries.len() && is_orphan(keep, (#[trigger] entries[i]).name)
            && !entries[i].is_dir ==> !file_goes(disk, target_of(entries[i], false))
}

proof fn lemma_idle_entries(disk: Disk, keep: Set<Seq<char>>, sweep: SweepView)
    requires
        0 <= sweep.i,
        is_idle(disk, keep, sweep.entries),
    ensures
        sweep_entries(disk, keep, sweep).0 == 0,
    decreases sweep.entries.len() - sweep.i,
{
    if sweep.i < sweep.entries.len() {
        let entry = sweep.entries[sweep.i];
        let (one, then, rest) = sweep_entry(disk, keep, sweep);
        assert(one == 0 && then == disk);
        lemma_idle_entries(disk, keep, rest);
    }
}

proof fn lemma_idle_builds(
    disk: Disk,
    depots: Seq<ResolvedDepotSpec>,
    keep: Set<Seq<char>>,
    builds: Seq<(u32, u64)>,
    at: int,
)
    requires
        0 <= at,
        forall|j: int|
            0 <= j < builds.len() && is_stale(disk.installed, #[trigger] builds[j]) ==> (
            entries_in(disk, depots, builds[j]) matches Some(entries) ==> is_idle(
                disk,
                keep,
                entries,
            )),
    ensures
        clean_builds(disk, depots, keep, builds, at).0 == 0,
    decreases builds.len() - at,
{
    if at < builds.len() {
        let every = Set::new(|p: Seq<Seq<char>>| true);
        let (one, then) = clean_build(disk, depots, keep, builds[at]);
        if is_stale(disk.installed, builds[at]) {
            if let Some(entries) = entries_in(disk, depots, builds[at]) {
                lemma_idle_entries(disk, keep, whole_sweep(entries));
            }
        }
        lemma_shrinks_build(disk, depots, keep, builds[at], every);
        assert forall|j: int|
            0 <= j < builds.len() && is_stale(then.installed, #[trigger] builds[j]) implies (
        entries_in(then, depots, builds[j]) matches Some(entries) ==> is_idle(
            then,
            keep,
            entries,
        )) by {
            lemma_same_entries(disk, then, depots, builds[j]);
            if let Some(entries) = entries_in(then, depots, builds[j]) {
                assert(is_idle(disk, keep, entries));
                assert forall|i: int|
                    0 <= i < entries.len() && is_orphan(keep, (#[trigger] entries[i]).name)
                        && !entries[i].is_dir implies !file_goes(
                    then,
                    target_of(entries[i], false),
                ) by {
                    let path = target_of(entries[i], false);
                    assert(!file_goes(disk, path));
                    if then.nodes.dom().contains(path) {
                        assert(disk.nodes.dom().contains(path));
                    }
                }
            }
        }
        lemma_idle_builds(then, depots, keep, builds, at + 1);
    }
}

/// In a tree every path leads through directories.
pub proof fn lemma_tree_ancestor(disk: Disk, path: Seq<Seq<char>>, k: int)
    requires
        is_tree(disk),
        disk.nodes.dom().contains(path),
        1 <= k < path.len(),
    ensures
        disk.nodes.dom().contains(path.take(k)),
        disk.nodes[path.take(k)] is Directory,
    decreases path.len(),
{
    let dir = path.drop_last();
    if k == path.len() - 1 {
        assert(path.take(k) == dir);
    } else {
        assert(dir.take(k) == path.take(k));
        lemma_tree_ancestor(disk, dir, k);
    }
}

/// A pass finds no builds that the one before it did not find.
proof fn lemma_no_new_builds(disk: Disk, depots: Seq<ResolvedDepotSpec>, build: (u32, u64))
    requires
        known_keep(disk, depots) is Some,
        builds_in(clean(disk, depots).1).contains(build),
    ensures
        builds_in(disk).contains(build),
{
    let names = disk.names;
    let left = clean(disk, depots).1.names;
    lemma_cached_builds(names);
    lemma_marked_builds(names);
    lemma_with_builds(cached_builds(names), marked_builds(names));
    lemma_cached_builds(left);
    lemma_marked_builds(left);
    lemma_with_builds(cached_builds(left), marked_builds(left));
    if cached_builds(left).contains(build) {
        let i = choose|i: int|
            0 <= i < left.len() && #[trigger] cached_build(left[i]) == Some(build);
        law_markers_of_settled_builds_go(disk, depots, left[i]);
        assert(left.contains(left[i]));
        let j = choose|j: int| 0 <= j < names.len() && names[j] == left[i];
        assert(cached_build(names[j]) == Some(build));
    } else {
        let i = choose|i: int|
            0 <= i < left.len() && #[trigger] marker_build(left[i]) == Some(build);
        law_markers_of_settled_builds_go(disk, depots, left[i]);
        assert(left.contains(left[i]));
        let j = choose|j: int| 0 <= j < names.len() && names[j] == left[i];
        assert(marker_build(names[j]) == Some(build));
    }
}

/// A pass does all there is to do: another one after it, with the same keys,
/// removes no more files.
pub proof fn law_second_pass_removes_no_file(disk: Disk, depots: Seq<ResolvedDepotSpec>)
    requires
        is_tree(disk),
    ensures
        clean(clean(disk, depots).1, depots).0 == 0,
{
    let end = clean(disk, depots).1;
    law_pass_only_takes_away(disk, depots);
    lemma_same_keep(disk, end, depots, disk.installed);
    if let (Some(keep), Some(_)) = (known_keep(disk, depots), known_keep(end, depots)) {
        let builds = builds_in(end);
        assert forall|j: int|
            0 <= j < builds.len() && is_stale(end.installed, #[trigger] builds[j]) implies (
        entries_in(end, depots, builds[j]) matches Some(entries) ==> is_idle(
            end,
            keep,
            entries,
        )) by {
            lemma_same_entries(disk, end, depots, builds[j]);
            assert(builds.contains(builds[j]));
            lemma_no_new_builds(disk, depots, builds[j]);
            let k = choose|k: int| 0 <= k < builds_in(disk).len() && builds_in(disk)[k] == builds[j];
            if let Some(entries) = entries_in(end, depots, builds[j]) {
                assert forall|i: int|
                    0 <= i < entries.len() && is_orphan(keep, (#[trigger] entries[i]).name)
                        && !entries[i].is_dir implies !file_goes(
                    end,
                    target_of(entries[i], false),
                ) by {
                    let path = target_of(entries[i], false);
                    if file_goes(end, path) {
                        assert(end.nodes.dom().contains(path));
                        assert(condemned_at(disk, depots, keep, k, i, path));
                        if behind_link(disk, path) {
                            let m = choose|m: int|
                                1 <= m < path.len() && is_link(disk, #[trigger] path.take(m));
                            lemma_tree_ancestor(disk, path, m);
                        }
                        law_old_files_go(disk, depots, keep, k, i, path);
                    }
                }
            }
        }
        lemma_idle_builds(end, depots, keep, builds, 0);
    }
}

} // verus!
