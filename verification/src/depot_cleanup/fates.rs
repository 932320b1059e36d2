//! What a cleanup pass decides, in terms of what the disk holds: which build
//! of a depot is installed, what is kept, and what becomes of each file and
//! each marker.
use crate::content_manifest::ManifestFileView;
use crate::depot_cleanup::builds::{law_build_file_names, law_marker_names_build, marker_build};
use crate::depot_cleanup::disk::{
    builds_in, clean, entries_in, keep_in, known_keep, law_pass_cleans, marker_name, run, Disk,
};
use crate::depot_cleanup::filelist::{manifest_entries, read_filelist, EntryView};
use crate::depot_cleanup::laws::condemns;
use crate::depot_cleanup::outcome::{
    condemned_at, goes_for, law_backups_go_only_with_their_files, law_kept_stays,
    law_markers_of_settled_builds_go, law_old_files_go, law_pass_only_takes_away,
};
use crate::depot_cleanup::paths::{parts_key, path_key, safe_parts};
use crate::depot_cleanup::soundness::lemma_parts_inside;
use crate::depot_cleanup::steps::{
    backup_of, current_of, has_backup, is_stale, keep_with, start, unknown_builds, BACKUP_SUFFIX,
    EXE_SUFFIX,
};
use crate::depot_downloader::{key_of, ResolvedDepotSpec};
use crate::text::decimal;
use vstd::prelude::*;

verus! {

// ---------------------------------------------------------------------------
// What is installed
// ---------------------------------------------------------------------------

/// The last listing of a depot says which of its builds is installed, and none
/// is if and only if the depot is not listed.
pub proof fn law_last_listing_counts(installed: Seq<(u32, u64)>, depot_id: u32, manifest_id: u64)
    ensures
        current_of(installed, depot_id) == Some(manifest_id) <==> exists|k: int|
            0 <= k < installed.len() && #[trigger] installed[k] == (depot_id, manifest_id) && (
            forall|m: int| k < m < installed.len() ==> (#[trigger] installed[m]).0 != depot_id),
        current_of(installed, depot_id) is None <==> forall|k: int|
            0 <= k < installed.len() ==> (#[trigger] installed[k]).0 != depot_id,
    decreases installed.len(),
{
    if installed.len() > 0 {
        let n = installed.len() - 1;
        let init = installed.drop_last();
        law_last_listing_counts(init, depot_id, manifest_id);
        if installed[n].0 == depot_id {
            if installed[n].1 == manifest_id {
                assert(installed[n] == (depot_id, manifest_id));
            }
        } else {
            if current_of(init, depot_id) == Some(manifest_id) {
                let k = choose|k: int|
                    0 <= k < init.len() && #[trigger] init[k] == (depot_id, manifest_id) && (forall|
                        m: int,
                    |
                        k < m < init.len() ==> (#[trigger] init[m]).0 != depot_id);
                assert(installed[k] == (depot_id, manifest_id));
                assert forall|m: int| k < m < installed.len() implies (#[trigger] installed[m]).0
                    != depot_id by {
                    if m < n {
                        assert(init[m] == installed[m]);
                    }
                }
            }
            if exists|k: int|
                0 <= k < installed.len() && #[trigger] installed[k] == (depot_id, manifest_id) && (
                forall|m: int| k < m < installed.len() ==> (#[trigger] installed[m]).0
                    != depot_id) {
                let k = choose|k: int|
                    0 <= k < installed.len() && #[trigger] installed[k] == (depot_id, manifest_id)
                        && (forall|m: int|
                        k < m < installed.len() ==> (#[trigger] installed[m]).0 != depot_id);
                assert(init[k] == (depot_id, manifest_id));
                assert forall|m: int| k < m < init.len() implies (#[trigger] init[m]).0
                    != depot_id by {
                    assert(init[m] == installed[m]);
                }
            }
            if forall|k: int| 0 <= k < init.len() ==> (#[trigger] init[k]).0 != depot_id {
                assert forall|k: int| 0 <= k < installed.len() implies (#[trigger] installed[k]).0
                    != depot_id by {
                    if k < n {
                        assert(init[k] == installed[k]);
                    }
                }
            }
            if forall|k: int| 0 <= k < installed.len() ==> (#[trigger] installed[k]).0 != depot_id {
                assert forall|k: int| 0 <= k < init.len() implies (#[trigger] init[k]).0
                    != depot_id by {
                    assert(init[k] == installed[k]);
                }
            }
        }
    }
}

/// A build is old if and only if its depot is listed, last with another build.
pub proof fn law_old_builds(installed: Seq<(u32, u64)>, build: (u32, u64))
    ensures
        is_stale(installed, build) <==> exists|k: int|
            0 <= k < installed.len() && (#[trigger] installed[k]).0 == build.0 && installed[k].1
                != build.1 && (forall|m: int|
                k < m < installed.len() ==> (#[trigger] installed[m]).0 != build.0),
{
    if let Some(gid) = current_of(installed, build.0) {
        law_last_listing_counts(installed, build.0, gid);
    }
    if exists|k: int|
        0 <= k < installed.len() && (#[trigger] installed[k]).0 == build.0 && installed[k].1
            != build.1 && (forall|m: int|
            k < m < installed.len() ==> (#[trigger] installed[m]).0 != build.0) {
        let k = choose|k: int|
            0 <= k < installed.len() && (#[trigger] installed[k]).0 == build.0 && installed[k].1
                != build.1 && (forall|m: int|
                k < m < installed.len() ==> (#[trigger] installed[m]).0 != build.0);
        assert(installed[k] == (build.0, installed[k].1));
        law_last_listing_counts(installed, build.0, installed[k].1);
    }
}

/// The builds whose depot is not listed, in their order.
pub proof fn law_unlisted_builds(
    installed: Seq<(u32, u64)>,
    builds: Seq<(u32, u64)>,
    build: (u32, u64),
)
    ensures
        unknown_builds(installed, Seq::empty()) == Seq::<(u32, u64)>::empty(),
        unknown_builds(installed, builds.push(build)) == if forall|k: int|
            0 <= k < installed.len() ==> (#[trigger] installed[k]).0 != build.0 {
            unknown_builds(installed, builds).push(build)
        } else {
            unknown_builds(installed, builds)
        },
{
    reveal(Seq::filter);
    law_last_listing_counts(installed, build.0, 0);
    assert(builds.push(build).drop_last() == builds);
}

// ---------------------------------------------------------------------------
// What a build holds
// ---------------------------------------------------------------------------

/// A file list that can be read says what a build holds.
pub proof fn law_readable_list_counts(
    disk: Disk,
    depots: Seq<ResolvedDepotSpec>,
    build: (u32, u64),
    text: Seq<char>,
)
    requires
        disk.sidecars.dom().contains(build),
        disk.sidecars[build] == Some(text),
        read_filelist(text) is Some,
    ensures
        entries_in(disk, depots, build) == read_filelist(text),
{
}

/// Without a file list that can be read, the manifest says what a build holds:
/// it must be there, not be empty, have its key, and be readable with it.
pub proof fn law_manifest_counts_else(
    disk: Disk,
    depots: Seq<ResolvedDepotSpec>,
    build: (u32, u64),
)
    requires
        forall|text: Seq<char>|
            disk.sidecars.dom().contains(build) && disk.sidecars[build] == Some(text)
                ==> #[trigger] read_filelist(text) is None,
    ensures
        forall|raw: Seq<u8>, key: Seq<u8>, files: Seq<ManifestFileView>|
            disk.manifests.dom().contains(build) && disk.manifests[build] == Some(raw) && raw.len()
                > 0 && key_of(depots, build.0) == Some(key) && #[trigger] (disk.decoded)(raw, key)
                == Some(files) ==> entries_in(disk, depots, build) == Some(
                #[trigger] manifest_entries(files),
            ),
        entries_in(disk, depots, build) is Some ==> exists|raw: Seq<u8>, key: Seq<u8>|
            disk.manifests.dom().contains(build) && disk.manifests[build] == Some(raw) && raw.len()
                > 0 && key_of(depots, build.0) == Some(key) && #[trigger] (disk.decoded)(
                raw,
                key,
            ) is Some,
{
    if disk.sidecars.dom().contains(build) {
        if let Some(text) = disk.sidecars[build] {
            assert(read_filelist(text) is None);
        }
    }
    if entries_in(disk, depots, build) is Some {
        let raw = disk.manifests[build]->0;
        let key = key_of(depots, build.0)->0;
        assert((disk.decoded)(raw, key) is Some);
    }
}

// ---------------------------------------------------------------------------
// What is kept
// ---------------------------------------------------------------------------

/// What is kept after a build was read: what was kept before, and the key of
/// each of its entries; nothing else.
pub proof fn law_kept_with_entries(
    keep: Set<Seq<char>>,
    entries: Seq<EntryView>,
    key: Seq<char>,
)
    ensures
        keep_with(keep, entries).contains(key) <==> keep.contains(key) || exists|i: int|
            0 <= i < entries.len() && path_key((#[trigger] entries[i]).name) == key,
    decreases entries.len(),
{
    if entries.len() > 0 {
        let init = entries.drop_last();
        law_kept_with_entries(keep, init, key);
        if exists|i: int| 0 <= i < init.len() && path_key((#[trigger] init[i]).name) == key {
            let i = choose|i: int|
                0 <= i < init.len() && path_key((#[trigger] init[i]).name) == key;
            assert(path_key(entries[i].name) == key);
        }
        if exists|i: int| 0 <= i < entries.len() && path_key((#[trigger] entries[i]).name) == key {
            let i = choose|i: int|
                0 <= i < entries.len() && path_key((#[trigger] entries[i]).name) == key;
            if i < init.len() {
                assert(path_key(init[i].name) == key);
            }
        }
        assert(path_key(entries.last().name) == key ==> path_key(
            entries[entries.len() - 1].name,
        ) == key);
    }
}

/// An entry of an installed build has this key.
pub open spec fn is_installed_key(
    disk: Disk,
    depots: Seq<ResolvedDepotSpec>,
    installed: Seq<(u32, u64)>,
    key: Seq<char>,
) -> bool {
    exists|j: int, i: int|
        0 <= j < installed.len() && entries_in(disk, depots, installed[j]) is Some && 0 <= i
            < entries_in(disk, depots, installed[j])->0.len() && path_key(
            (#[trigger] entries_in(disk, depots, installed[j])->0[i]).name,
        ) == key
}

proof fn lemma_kept_keys(
    disk: Disk,
    depots: Seq<ResolvedDepotSpec>,
    installed: Seq<(u32, u64)>,
    key: Seq<char>,
)
    requires
        keep_in(disk, depots, installed) is Some,
    ensures
        keep_in(disk, depots, installed)->0.contains(key) <==> is_installed_key(
            disk,
            depots,
            installed,
            key,
        ),
    decreases installed.len(),
{
    if installed.len() > 0 {
        let init = installed.drop_last();
        let n = installed.len() - 1;
        let entries = entries_in(disk, depots, installed[n])->0;
        lemma_kept_keys(disk, depots, init, key);
        law_kept_with_entries(keep_in(disk, depots, init)->0, entries, key);
        if is_installed_key(disk, depots, init, key) {
            let (j, i) = choose|j: int, i: int|
                0 <= j < init.len() && entries_in(disk, depots, init[j]) is Some && 0 <= i
                    < entries_in(disk, depots, init[j])->0.len() && path_key(
                    (#[trigger] entries_in(disk, depots, init[j])->0[i]).name,
                ) == key;
            assert(path_key(entries_in(disk, depots, installed[j])->0[i].name) == key);
        }
        if exists|i: int| 0 <= i < entries.len() && path_key((#[trigger] entries[i]).name) == key {
            let i = choose|i: int|
                0 <= i < entries.len() && path_key((#[trigger] entries[i]).name) == key;
            assert(path_key(entries_in(disk, depots, installed[n])->0[i].name) == key);
        }
        if is_installed_key(disk, depots, installed, key) {
            let (j, i) = choose|j: int, i: int|
                0 <= j < installed.len() && entries_in(disk, depots, installed[j]) is Some && 0 <= i
                    < entries_in(disk, depots, installed[j])->0.len() && path_key(
                    (#[trigger] entries_in(disk, depots, installed[j])->0[i]).name,
                ) == key;
            if j < n {
                assert(path_key(entries_in(disk, depots, init[j])->0[i].name) == key);
            } else {
                assert(path_key(entries[i].name) == key);
            }
        }
    }
}

/// What is kept is what is installed: a key is kept if and only if it is the
/// key of an entry of an installed build.
pub proof fn law_kept_is_installed(
    disk: Disk,
    depots: Seq<ResolvedDepotSpec>,
    keep: Set<Seq<char>>,
    key: Seq<char>,
)
    requires
        known_keep(disk, depots) == Some(keep),
    ensures
        keep.contains(key) <==> exists|j: int, i: int|
            0 <= j < disk.installed.len() && entries_in(disk, depots, disk.installed[j]) is Some
                && 0 <= i < entries_in(disk, depots, disk.installed[j])->0.len() && path_key(
                (#[trigger] entries_in(disk, depots, disk.installed[j])->0[i]).name,
            ) == key,
{
    lemma_kept_keys(disk, depots, disk.installed, key);
}

proof fn lemma_readable_install(
    disk: Disk,
    depots: Seq<ResolvedDepotSpec>,
    installed: Seq<(u32, u64)>,
)
    ensures
        keep_in(disk, depots, installed) is Some <==> forall|j: int|
            0 <= j < installed.len() ==> (#[trigger] installed[j]).1 != 0xffff_ffff_ffff_ffff
                && entries_in(disk, depots, installed[j]) is Some,
    decreases installed.len(),
{
    if installed.len() > 0 {
        let init = installed.drop_last();
        lemma_readable_install(disk, depots, init);
        if keep_in(disk, depots, installed) is Some {
            assert forall|j: int| 0 <= j < installed.len() implies (#[trigger] installed[j]).1
                != 0xffff_ffff_ffff_ffff && entries_in(disk, depots, installed[j]) is Some by {
                if j < init.len() {
                    assert(init[j] == installed[j]);
                }
            }
        }
        if forall|j: int|
            0 <= j < installed.len() ==> (#[trigger] installed[j]).1 != 0xffff_ffff_ffff_ffff
                && entries_in(disk, depots, installed[j]) is Some {
            assert forall|j: int| 0 <= j < init.len() implies (#[trigger] init[j]).1
                != 0xffff_ffff_ffff_ffff && entries_in(disk, depots, init[j]) is Some by {
                assert(init[j] == installed[j]);
            }
            assert(installed.last() == installed[installed.len() - 1]);
        }
    }
}

/// It is known what is kept if and only if a build is on disk, something is
/// installed, and each installed build is complete and can be read.
pub proof fn law_when_keep_is_known(disk: Disk, depots: Seq<ResolvedDepotSpec>)
    ensures
        known_keep(disk, depots) is Some <==> {
            &&& exists|build: (u32, u64)| #[trigger] builds_in(disk).contains(build)
            &&& disk.installed.len() > 0
            &&& forall|j: int|
                0 <= j < disk.installed.len() ==> (#[trigger] disk.installed[j]).1
                    != 0xffff_ffff_ffff_ffff && entries_in(disk, depots, disk.installed[j]) is Some
        },
{
    lemma_readable_install(disk, depots, disk.installed);
    if builds_in(disk).len() > 0 {
        assert(builds_in(disk).contains(builds_in(disk)[0]));
    }
}

// ---------------------------------------------------------------------------
// Rules by their characters
// ---------------------------------------------------------------------------

/// What the name of an executable's backup ends with.
pub open spec fn backup_ending() -> Seq<char> {
    seq!['.', 'o', 'r', 'i', 'g', 'i', 'n', 'a', 'l', '.', 'e', 'x', 'e']
}

/// A key that ends with ".exe".
pub open spec fn is_exe_key(key: Seq<char>) -> bool {
    &&& key.len() >= 4
    &&& key[key.len() - 4] == '.'
    &&& key[key.len() - 3] == 'e'
    &&& key[key.len() - 2] == 'x'
    &&& key[key.len() - 1] == 'e'
}

/// An executable has a backup that goes with it, unless the backup's name is
/// kept: the backup stands next to it, with an ending to its name.
pub proof fn law_backup_names(
    keep: Set<Seq<char>>,
    name: Seq<char>,
    parent: Seq<Seq<char>>,
    last: Seq<char>,
)
    ensures
        has_backup(keep, name) <==> is_exe_key(path_key(name)) && !keep.contains(
            path_key(name) + backup_ending(),
        ),
        backup_of(parent.push(last)) == parent.push(last + backup_ending()),
{
    reveal_strlit(".exe");
    reveal_strlit(".original.exe");
    let key = path_key(name);
    assert(BACKUP_SUFFIX@ =~= backup_ending());
    assert(EXE_SUFFIX@ =~= seq!['.', 'e', 'x', 'e']);
    assert(parent.push(last).drop_last() == parent);
    if key.len() >= 4 {
        let tail = key.skip(key.len() - 4);
        if is_exe_key(key) {
            assert(tail =~= EXE_SUFFIX@);
        }
        if tail == EXE_SUFFIX@ {
            assert(key[key.len() - 4] == tail[0]);
            assert(key[key.len() - 3] == tail[1]);
            assert(key[key.len() - 2] == tail[2]);
            assert(key[key.len() - 1] == tail[3]);
        }
    }
}

// ---------------------------------------------------------------------------
// What becomes of a file
// ---------------------------------------------------------------------------

/// A file that an old build names, at a safe path, goes when its key is the
/// key of no installed entry; unless it cannot be removed, or a directory on
/// the way to it is a link.
pub proof fn law_unclaimed_file_goes(
    disk: Disk,
    depots: Seq<ResolvedDepotSpec>,
    build: (u32, u64),
    i: int,
    path: Seq<Seq<char>>,
)
    requires
        known_keep(disk, depots) is Some,
        builds_in(disk).contains(build),
        current_of(disk.installed, build.0) matches Some(gid) && gid != build.1,
        entries_in(disk, depots, build) matches Some(entries) && 0 <= i < entries.len()
            && !entries[i].is_dir && safe_parts(entries[i].name) == Some(path)
            && !is_installed_key(disk, depots, disk.installed, path_key(entries[i].name)),
        disk.nodes.dom().contains(path),
        disk.nodes[path] !is Directory,
        !disk.stuck.contains(path),
        forall|k: int|
            1 <= k < path.len() && disk.nodes.dom().contains(#[trigger] path.take(k))
                ==> disk.nodes[path.take(k)] !is Link,
    ensures
        !run(start(depots), disk).1.nodes.dom().contains(path),
{
    let keep = known_keep(disk, depots)->0;
    let entry = entries_in(disk, depots, build)->0[i];
    let at = choose|at: int| 0 <= at < builds_in(disk).len() && builds_in(disk)[at] == build;
    law_pass_cleans(disk, depots);
    lemma_kept_keys(disk, depots, disk.installed, path_key(entry.name));
    assert(condemns(keep, entry, path));
    assert(condemned_at(disk, depots, keep, at, i, path));
    law_old_files_go(disk, depots, keep, at, i, path);
}

/// What an installed build holds stays, whatever old builds say.
pub proof fn law_claimed_path_stays(
    disk: Disk,
    depots: Seq<ResolvedDepotSpec>,
    path: Seq<Seq<char>>,
)
    requires
        is_installed_key(disk, depots, disk.installed, parts_key(path)),
        disk.nodes.dom().contains(path),
    ensures
        run(start(depots), disk).1.nodes.dom().contains(path),
        run(start(depots), disk).1.nodes[path] == disk.nodes[path],
{
    law_pass_cleans(disk, depots);
    if let Some(keep) = known_keep(disk, depots) {
        lemma_kept_keys(disk, depots, disk.installed, parts_key(path));
        law_kept_stays(disk, depots, keep, path);
    }
}

/// The entry `i` of the build `at` on disk accounts for a file that is gone:
/// the build is old, the entry is a file at a safe path, no installed build
/// holds it, and the file is the one that it names; or that is an executable
/// that is gone too, and the file is its backup, which no installed build
/// holds.
pub open spec fn accounts_for(
    disk: Disk,
    end: Disk,
    depots: Seq<ResolvedDepotSpec>,
    at: int,
    i: int,
    path: Seq<Seq<char>>,
) -> bool {
    let build = builds_in(disk)[at];
    let entry = entries_in(disk, depots, build)->0[i];
    let key = path_key(entry.name);
    let named = safe_parts(entry.name)->0;
    &&& 0 <= at < builds_in(disk).len()
    &&& current_of(disk.installed, build.0) matches Some(gid) && gid != build.1
    &&& entries_in(disk, depots, build) is Some
    &&& 0 <= i < entries_in(disk, depots, build)->0.len()
    &&& !entry.is_dir
    &&& safe_parts(entry.name) is Some
    &&& !is_installed_key(disk, depots, disk.installed, key)
    &&& path == named || {
        &&& is_exe_key(key)
        &&& !is_installed_key(disk, depots, disk.installed, key + backup_ending())
        &&& path == named.drop_last().push(named.last() + backup_ending())
        &&& disk.nodes.dom().contains(named)
        &&& disk.nodes[named] !is Directory
        &&& !end.nodes.dom().contains(named)
    }
}

/// No file goes without an entry that accounts for it.
pub proof fn law_gone_file_is_accounted_for(
    disk: Disk,
    depots: Seq<ResolvedDepotSpec>,
    path: Seq<Seq<char>>,
)
    requires
        disk.nodes.dom().contains(path),
        disk.nodes[path] !is Directory,
        !run(start(depots), disk).1.nodes.dom().contains(path),
    ensures
        known_keep(disk, depots) is Some,
        exists|at: int, i: int| #[trigger]
            accounts_for(disk, run(start(depots), disk).1, depots, at, i, path),
{
    law_pass_cleans(disk, depots);
    let keep = known_keep(disk, depots)->0;
    law_backups_go_only_with_their_files(disk, depots, keep, path);
    let (at, i) = choose|at: int, i: int| #[trigger] goes_for(disk, depots, keep, at, i, path);
    let entry = entries_in(disk, depots, builds_in(disk)[at])->0[i];
    let key = path_key(entry.name);
    let named = safe_parts(entry.name)->0;
    lemma_kept_keys(disk, depots, disk.installed, key);
    lemma_kept_keys(disk, depots, disk.installed, key + backup_ending());
    lemma_parts_inside(entry.name);
    law_backup_names(keep, entry.name, named.drop_last(), named.last());
    assert(named.drop_last().push(named.last()) == named);
    assert(accounts_for(disk, clean(disk, depots).1, depots, at, i, path));
}

// ---------------------------------------------------------------------------
// What becomes of a marker
// ---------------------------------------------------------------------------

/// The marker of a build, where it can be removed, stays if and only if it is
/// not known what is kept, or the depot is not listed, or the build is old and
/// cannot be read though its file list or its manifest is there.
pub proof fn law_marker_stays_when(
    disk: Disk,
    depots: Seq<ResolvedDepotSpec>,
    build: (u32, u64),
    name: Seq<char>,
)
    requires
        name == decimal(build.0 as nat) + seq!['_'] + decimal(build.1 as nat) + seq![
            '.',
            's',
            't',
            'a',
            'l',
            'e',
            'c',
            'l',
            'e',
            'a',
            'n',
            'u',
            'p',
        ],
        disk.names.contains(name),
    ensures
        run(start(depots), disk).1.names.contains(name) <==> {
            ||| known_keep(disk, depots) is None
            ||| disk.stuck_names.contains(name)
            ||| current_of(disk.installed, build.0) is None
            ||| current_of(disk.installed, build.0) != Some(build.1) && entries_in(
                disk,
                depots,
                build,
            ) is None && (disk.sidecars.dom().contains(build) || disk.manifests.dom().contains(
                build,
            ))
        },
{
    law_pass_cleans(disk, depots);
    law_build_file_names(build.0, build.1);
    law_marker_names_build(build.0, build.1);
    assert(name == marker_name(build));
    if known_keep(disk, depots) is Some {
        law_markers_of_settled_builds_go(disk, depots, name);
    }
}

/// No other name in the config directory goes: a name that goes is a marker's,
/// with the ids of its build in decimal.
pub proof fn law_only_markers_go(disk: Disk, depots: Seq<ResolvedDepotSpec>, name: Seq<char>)
    requires
        disk.names.contains(name),
        !run(start(depots), disk).1.names.contains(name),
    ensures
        exists|build: (u32, u64)|
            name == #[trigger] decimal(build.0 as nat) + seq!['_'] + #[trigger] decimal(
                build.1 as nat,
            ) + seq!['.', 's', 't', 'a', 'l', 'e', 'c', 'l', 'e', 'a', 'n', 'u', 'p'],
{
    law_pass_cleans(disk, depots);
    law_markers_of_settled_builds_go(disk, depots, name);
    let build = marker_build(name)->0;
    law_build_file_names(build.0, build.1);
    let stem = decimal(build.0 as nat) + seq!['_'] + decimal(build.1 as nat);
    assert(name == stem + seq!['.', 's', 't', 'a', 'l', 'e', 'c', 'l', 'e', 'a', 'n', 'u', 'p']);
}

/// All else that a pass can see stays as it is, and no name comes.
pub proof fn law_all_else_stays(disk: Disk, depots: Seq<ResolvedDepotSpec>, name: Seq<char>)
    ensures
        ({
            let end = run(start(depots), disk).1;
            &&& end.installed == disk.installed
            &&& end.sidecars == disk.sidecars
            &&& end.manifests == disk.manifests
            &&& end.names.contains(name) ==> disk.names.contains(name)
        }),
{
    law_pass_cleans(disk, depots);
    law_pass_only_takes_away(disk, depots);
}

} // verus!
