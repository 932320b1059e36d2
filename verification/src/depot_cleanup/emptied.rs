//! Directories that a cleanup pass empties: none is left behind, unless an
//! installed build holds it or it cannot be removed.
use crate::depot_cleanup::dirs::{lemma_with_dir, with_dir};
use crate::depot_cleanup::disk::{
    behind_link, builds_in, clean, clean_build, clean_builds, dir_goes, entries_in, file_goes,
    is_below, is_file, is_link, known_keep, law_pass_cleans, prune_dir, prune_dirs, run,
    sweep_entries, sweep_entry, unmarked, without, Disk, Node,
};
use crate::depot_cleanup::fates::{is_installed_key, law_kept_is_installed};
use crate::depot_cleanup::filelist::EntryView;
use crate::depot_cleanup::outcome::{is_tree, law_pass_only_takes_away, lemma_tree_ancestor};
use crate::depot_cleanup::paths::{law_safe_parts_keep_key, parts_key, path_key, safe_parts};
use crate::depot_cleanup::soundness::{
    are_inside, lemma_parent_inside, lemma_parts_inside, lemma_with_dir_inside,
};
use crate::depot_cleanup::steps::{
    backup_of, current_of, has_backup, is_orphan, is_pinned, is_stale, rest_with_dir, start,
    whole_sweep, SweepView,
};
use crate::depot_downloader::ResolvedDepotSpec;
use vstd::prelude::*;

verus! {

/// Something is below the path.
pub open spec fn is_filled(disk: Disk, dir: Seq<Seq<char>>) -> bool {
    exists|path: Seq<Seq<char>>| #[trigger]
        disk.nodes.dom().contains(path) && is_below(path, dir)
}

/// A directory that had something below it, and has nothing any more.
pub open spec fn is_emptied(before: Disk, now: Disk, dir: Seq<Seq<char>>) -> bool {
    &&& now.nodes.dom().contains(dir)
    &&& now.nodes[dir] is Directory
    &&& is_filled(before, dir)
    &&& !is_filled(now, dir)
}

/// Every emptied directory stays for a reason, or is still to be looked at:
/// it is among `dirs`, or is `dir`.
spec fn is_minded(
    before: Disk,
    now: Disk,
    keep: Set<Seq<char>>,
    dirs: Seq<Seq<Seq<char>>>,
    dir: Seq<Seq<char>>,
) -> bool {
    forall|d: Seq<Seq<char>>| #[trigger]
        is_emptied(before, now, d) ==> is_pinned(keep, d) || now.stuck.contains(d) || dirs.contains(
            d,
        ) || d == dir
}

/// In a tree nothing is below a file.
proof fn lemma_file_is_leaf(disk: Disk, path: Seq<Seq<char>>)
    requires
        is_tree(disk),
        is_file(disk, path),
        path.len() > 0,
    ensures
        !is_filled(disk, path),
{
    if is_filled(disk, path) {
        let other = choose|other: Seq<Seq<char>>| #[trigger]
            disk.nodes.dom().contains(other) && is_below(other, path);
        lemma_tree_ancestor(disk, other, path.len() as int);
    }
}

/// When a leaf goes, the disk stays a tree, and only the directory that the
/// leaf was in can be emptied by it.
proof fn lemma_leaf_goes(
    before: Disk,
    now: Disk,
    leaf: Seq<Seq<char>>,
    keep: Set<Seq<char>>,
    dirs: Seq<Seq<Seq<char>>>,
    dir: Seq<Seq<char>>,
)
    requires
        is_tree(now),
        now.nodes.dom().contains(leaf),
        leaf.len() > 0,
        !is_filled(now, leaf),
        is_minded(before, now, keep, dirs, dir),
        dir == leaf || is_pinned(keep, dir) || dir == leaf.drop_last(),
    ensures
        is_tree(without(now, leaf)),
        is_minded(before, without(now, leaf), keep, dirs, leaf.drop_last()),
{
    let then = without(now, leaf);
    assert forall|path: Seq<Seq<char>>| #[trigger]
        then.nodes.dom().contains(path) && path.len() > 1 implies then.nodes.dom().contains(
        path.drop_last(),
    ) && then.nodes[path.drop_last()] is Directory by {
        assert(now.nodes.dom().contains(path));
        if path.drop_last() == leaf {
            assert(path.take(leaf.len() as int) == leaf);
            assert(is_below(path, leaf));
            assert(is_filled(now, leaf));
        }
    }
    assert forall|d: Seq<Seq<char>>| #[trigger] is_emptied(before, then, d) implies is_pinned(
        keep,
        d,
    ) || then.stuck.contains(d) || dirs.contains(d) || d == leaf.drop_last() by {
        if is_filled(now, d) {
            let path = choose|path: Seq<Seq<char>>| #[trigger]
                now.nodes.dom().contains(path) && is_below(path, d);
            if path != leaf {
                assert(then.nodes.dom().contains(path));
                assert(is_filled(then, d));
            }
            let parent = leaf.drop_last();
            if d.len() == leaf.len() - 1 {
                assert(leaf.take(d.len() as int) == parent);
            } else {
                assert(then.nodes.dom().contains(parent));
                assert(parent.take(d.len() as int) == leaf.take(d.len() as int));
                assert(is_below(parent, d));
                assert(is_filled(then, d));
            }
        } else {
            assert(is_emptied(before, now, d));
        }
    }
}

proof fn lemma_minded_prune(
    before: Disk,
    now: Disk,
    keep: Set<Seq<char>>,
    dirs: Seq<Seq<Seq<char>>>,
    dir: Seq<Seq<char>>,
)
    requires
        is_tree(now),
        is_minded(before, now, keep, dirs, dir),
    ensures
        is_tree(prune_dir(now, keep, dir)),
        is_minded(before, prune_dir(now, keep, dir), keep, dirs, Seq::empty()),
    decreases dir.len(),
{
    let end = prune_dir(now, keep, dir);
    if is_pinned(keep, dir) || !dir_goes(now, dir) {
        assert forall|d: Seq<Seq<char>>| #[trigger] is_emptied(before, end, d) implies is_pinned(
            keep,
            d,
        ) || end.stuck.contains(d) || dirs.contains(d) by {
            if d == dir && !is_pinned(keep, dir) {
                assert forall|other: Seq<Seq<char>>| #[trigger]
                    now.nodes.dom().contains(other) implies !is_below(other, dir) by {
                    if is_below(other, dir) {
                        assert(is_filled(now, dir));
                    }
                }
            }
        }
    } else {
        assert(!is_filled(now, dir));
        lemma_leaf_goes(before, now, dir, keep, dirs, dir);
        lemma_minded_prune(before, without(now, dir), keep, dirs, dir.drop_last());
    }
}

proof fn lemma_minded_prunes(
    before: Disk,
    now: Disk,
    keep: Set<Seq<char>>,
    dirs: Seq<Seq<Seq<char>>>,
)
    requires
        is_tree(now),
        is_minded(before, now, keep, dirs, Seq::empty()),
    ensures
        is_tree(prune_dirs(now, keep, dirs)),
        is_minded(before, prune_dirs(now, keep, dirs), keep, Seq::empty(), Seq::empty()),
    decreases dirs.len(),
{
    if dirs.len() > 0 {
        let init = dirs.drop_last();
        let last = dirs.last();
        assert forall|d: Seq<Seq<char>>| #[trigger] is_emptied(before, now, d) implies is_pinned(
            keep,
            d,
        ) || now.stuck.contains(d) || init.contains(d) || d == last by {
            if dirs.contains(d) && d != last {
                let k = choose|k: int| 0 <= k < dirs.len() && dirs[k] == d;
                assert(init[k] == d);
            }
        }
        lemma_minded_prune(before, now, keep, init, last);
        lemma_minded_prunes(before, prune_dir(now, keep, last), keep, init);
    } else {
        assert(dirs == Seq::<Seq<Seq<char>>>::empty());
    }
}

/// A directory that is to be looked at may as well stand among the others.
proof fn lemma_minded_with(
    before: Disk,
    now: Disk,
    keep: Set<Seq<char>>,
    sweep: SweepView,
    dir: Seq<Seq<char>>,
)
    requires
        are_inside(sweep.dirs),
        is_minded(before, now, keep, sweep.dirs, dir),
    ensures
        is_minded(before, now, keep, with_dir(sweep.dirs, dir), Seq::empty()),
{
    lemma_with_dir(sweep.dirs, dir);
}

proof fn lemma_minded_entry(before: Disk, now: Disk, keep: Set<Seq<char>>, sweep: SweepView)
    requires
        is_tree(now),
        0 <= sweep.i < sweep.entries.len(),
        are_inside(sweep.dirs),
        is_minded(before, now, keep, sweep.dirs, Seq::empty()),
    ensures
        ({
            let (count, then, rest) = sweep_entry(now, keep, sweep);
            &&& is_tree(then)
            &&& are_inside(rest.dirs)
            &&& is_minded(before, then, keep, rest.dirs, Seq::empty())
        }),
{
    let entry = sweep.entries[sweep.i];
    let parts = safe_parts(entry.name)->0;
    let root = Seq::<Seq<char>>::empty();
    if is_orphan(keep, entry.name) && !behind_link(now, parts) {
        lemma_parts_inside(entry.name);
        lemma_with_dir_inside(sweep.dirs, parts);
        if entry.is_dir {
            assert(is_minded(before, now, keep, sweep.dirs, parts));
            lemma_minded_with(before, now, keep, sweep, parts);
        } else if file_goes(now, parts) {
            let parent = parts.drop_last();
            let first = without(now, parts);
            let (count, then, rest) = sweep_entry(now, keep, sweep);
            lemma_file_is_leaf(now, parts);
            lemma_leaf_goes(before, now, parts, keep, sweep.dirs, root);
            if has_backup(keep, entry.name) && file_goes(first, backup_of(parts)) {
                assert(backup_of(parts).drop_last() == parent);
                lemma_file_is_leaf(first, backup_of(parts));
                lemma_leaf_goes(before, first, backup_of(parts), keep, sweep.dirs, parent);
            }
            assert(is_minded(before, then, keep, sweep.dirs, parent));
            if parts.len() > 1 {
                lemma_parent_inside(parts);
                lemma_with_dir_inside(sweep.dirs, parent);
                lemma_minded_with(before, then, keep, sweep, parent);
            } else {
                assert(parent == root);
            }
        }
    }
}

proof fn lemma_minded_entries(before: Disk, now: Disk, keep: Set<Seq<char>>, sweep: SweepView)
    requires
        is_tree(now),
        0 <= sweep.i,
        are_inside(sweep.dirs),
        is_minded(before, now, keep, sweep.dirs, Seq::empty()),
    ensures
        ({
            let (count, then, dirs) = sweep_entries(now, keep, sweep);
            is_tree(then) && is_minded(before, then, keep, dirs, Seq::empty())
        }),
    decreases sweep.entries.len() - sweep.i,
{
    if sweep.i < sweep.entries.len() {
        let (one, then, rest) = sweep_entry(now, keep, sweep);
        lemma_minded_entry(before, now, keep, sweep);
        lemma_minded_entries(before, then, keep, rest);
    }
}

proof fn lemma_minded_builds(
    before: Disk,
    now: Disk,
    depots: Seq<ResolvedDepotSpec>,
    keep: Set<Seq<char>>,
    builds: Seq<(u32, u64)>,
    at: int,
)
    requires
        is_tree(now),
        0 <= at,
        is_minded(before, now, keep, Seq::empty(), Seq::empty()),
    ensures
        is_minded(
            before,
            clean_builds(now, depots, keep, builds, at).1,
            keep,
            Seq::empty(),
            Seq::empty(),
        ),
    decreases builds.len() - at,
{
    if at < builds.len() {
        let build = builds[at];
        let (one, then) = clean_build(now, depots, keep, build);
        let none = Seq::<Seq<Seq<char>>>::empty();
        lemma_minded_unmarked(before, now, keep, build);
        if is_stale(now.installed, build) {
            if let Some(entries) = entries_in(now, depots, build) {
                let sweep = whole_sweep(entries);
                let (count, swept, dirs) = sweep_entries(now, keep, sweep);
                assert(are_inside(sweep.dirs));
                assert(sweep.dirs == none);
                lemma_minded_entries(before, now, keep, sweep);
                lemma_minded_prunes(before, swept, keep, dirs);
                lemma_minded_unmarked(before, prune_dirs(swept, keep, dirs), keep, build);
            }
        }
        lemma_minded_builds(before, then, depots, keep, builds, at + 1);
    }
}

proof fn lemma_minded_unmarked(
    before: Disk,
    now: Disk,
    keep: Set<Seq<char>>,
    build: (u32, u64),
)
    requires
        is_tree(now),
        is_minded(before, now, keep, Seq::empty(), Seq::empty()),
    ensures
        is_tree(unmarked(now, build)),
        is_minded(before, unmarked(now, build), keep, Seq::empty(), Seq::empty()),
{
    let then = unmarked(now, build);
    assert forall|d: Seq<Seq<char>>| is_emptied(before, now, d) == #[trigger] is_emptied(
        before,
        then,
        d,
    ) by {
        assert forall|path: Seq<Seq<char>>| #[trigger]
            now.nodes.dom().contains(path) == then.nodes.dom().contains(path) by {}
        if is_filled(now, d) {
            let path = choose|path: Seq<Seq<char>>| #[trigger]
                now.nodes.dom().contains(path) && is_below(path, d);
            assert(then.nodes.dom().contains(path));
        }
        if is_filled(then, d) {
            let path = choose|path: Seq<Seq<char>>| #[trigger]
                then.nodes.dom().contains(path) && is_below(path, d);
            assert(now.nodes.dom().contains(path));
        }
    }
}

/// No directory is left behind empty: one that the pass has emptied is gone,
/// unless an installed build holds it or it cannot be removed.
pub proof fn law_emptied_dirs_go(
    disk: Disk,
    depots: Seq<ResolvedDepotSpec>,
    dir: Seq<Seq<char>>,
)
    requires
        is_tree(disk),
        dir.len() > 0,
        is_emptied(disk, clean(disk, depots).1, dir),
    ensures
        disk.stuck.contains(dir) || (known_keep(disk, depots) matches Some(keep) && keep.contains(
            parts_key(dir),
        )),
{
    law_pass_only_takes_away(disk, depots);
    if let Some(keep) = known_keep(disk, depots) {
        assert forall|d: Seq<Seq<char>>| !(#[trigger] is_emptied(disk, disk, d)) by {}
        lemma_minded_builds(disk, disk, depots, keep, builds_in(disk), 0);
    }
}

// ---------------------------------------------------------------------------
// Nodes only go
// ---------------------------------------------------------------------------

/// All that is there at the end was there before.
spec fn is_part(end: Disk, now: Disk) -> bool {
    &&& end.stuck == now.stuck
    &&& end.installed == now.installed
    &&& end.sidecars == now.sidecars
    &&& end.manifests == now.manifests
    &&& end.decoded == now.decoded
    &&& forall|path: Seq<Seq<char>>| #[trigger]
        end.nodes.dom().contains(path) ==> now.nodes.dom().contains(path) && end.nodes[path]
            == now.nodes[path]
}

proof fn lemma_part_prune(now: Disk, keep: Set<Seq<char>>, dir: Seq<Seq<char>>)
    ensures
        is_part(prune_dir(now, keep, dir), now),
    decreases dir.len(),
{
    if !is_pinned(keep, dir) && dir_goes(now, dir) {
        lemma_part_prune(without(now, dir), keep, dir.drop_last());
    }
}

proof fn lemma_part_prunes(now: Disk, keep: Set<Seq<char>>, dirs: Seq<Seq<Seq<char>>>)
    ensures
        is_part(prune_dirs(now, keep, dirs), now),
    decreases dirs.len(),
{
    if dirs.len() > 0 {
        lemma_part_prune(now, keep, dirs.last());
        lemma_part_prunes(prune_dir(now, keep, dirs.last()), keep, dirs.drop_last());
    }
}

proof fn lemma_part_entries(now: Disk, keep: Set<Seq<char>>, sweep: SweepView)
    ensures
        is_part(sweep_entries(now, keep, sweep).1, now),
    decreases sweep.entries.len() - sweep.i,
{
    if sweep.i < sweep.entries.len() {
        let (one, then, rest) = sweep_entry(now, keep, sweep);
        assert(is_part(then, now));
        lemma_part_entries(then, keep, rest);
    }
}

proof fn lemma_part_build(
    now: Disk,
    depots: Seq<ResolvedDepotSpec>,
    keep: Set<Seq<char>>,
    build: (u32, u64),
)
    ensures
        is_part(clean_build(now, depots, keep, build).1, now),
{
    if let Some(entries) = entries_in(now, depots, build) {
        let (count, swept, dirs) = sweep_entries(now, keep, whole_sweep(entries));
        lemma_part_entries(now, keep, whole_sweep(entries));
        lemma_part_prunes(swept, keep, dirs);
    }
}

proof fn lemma_part_builds(
    now: Disk,
    depots: Seq<ResolvedDepotSpec>,
    keep: Set<Seq<char>>,
    builds: Seq<(u32, u64)>,
    at: int,
)
    ensures
        is_part(clean_builds(now, depots, keep, builds, at).1, now),
    decreases builds.len() - at,
{
    if at < builds.len() {
        lemma_part_build(now, depots, keep, builds[at]);
        lemma_part_builds(
            clean_build(now, depots, keep, builds[at]).1,
            depots,
            keep,
            builds,
            at + 1,
        );
    }
}

// ---------------------------------------------------------------------------
// Directories of old builds
// ---------------------------------------------------------------------------

/// A directory with nothing below it.
spec fn is_bare(disk: Disk, dir: Seq<Seq<char>>) -> bool {
    disk.nodes.dom().contains(dir) && disk.nodes[dir] is Directory && !is_filled(disk, dir)
}

/// A disk on which something is below the directory.
spec fn filled_once(disk: Disk, dir: Seq<Seq<char>>) -> Disk {
    Disk { nodes: Map::empty().insert(dir.push(Seq::empty()), Node::File), ..disk }
}

proof fn lemma_filled_once(disk: Disk, dir: Seq<Seq<char>>, d: Seq<Seq<char>>)
    ensures
        is_filled(filled_once(disk, dir), d) <==> d == dir || is_below(dir, d),
{
    let path = dir.push(Seq::empty());
    let once = filled_once(disk, dir);
    assert(once.nodes.dom().contains(path));
    if d == dir {
        assert(path.take(dir.len() as int) == dir);
        assert(is_below(path, d));
    }
    if is_below(dir, d) {
        assert(path.take(d.len() as int) == dir.take(d.len() as int));
        assert(is_below(path, d));
    }
    if is_filled(once, d) {
        let other = choose|other: Seq<Seq<char>>| #[trigger]
            once.nodes.dom().contains(other) && is_below(other, d);
        assert(other == path);
        if d.len() == dir.len() {
            assert(path.take(d.len() as int) == dir);
        } else {
            assert(path.take(d.len() as int) == dir.take(d.len() as int));
        }
    }
}

/// A directory that an old build names is looked at for being empty.
proof fn lemma_old_dir_minded(
    now: Disk,
    keep: Set<Seq<char>>,
    sweep: SweepView,
    i: int,
    dir: Seq<Seq<char>>,
)
    requires
        is_tree(now),
        0 <= sweep.i <= i < sweep.entries.len(),
        are_inside(sweep.dirs),
        is_orphan(keep, sweep.entries[i].name),
        sweep.entries[i].is_dir,
        dir == safe_parts(sweep.entries[i].name)->0,
    ensures
        ({
            let (count, then, dirs) = sweep_entries(now, keep, sweep);
            &&& is_tree(then)
            &&& is_bare(then, dir) ==> is_minded(
                filled_once(then, dir),
                then,
                keep,
                dirs,
                Seq::empty(),
            )
        }),
    decreases sweep.entries.len() - sweep.i,
{
    let (one, then, rest) = sweep_entry(now, keep, sweep);
    let (count, end, dirs) = sweep_entries(now, keep, sweep);
    let root = Seq::<Seq<char>>::empty();
    assert forall|d: Seq<Seq<char>>| !(#[trigger] is_emptied(now, now, d)) by {}
    lemma_minded_entry(now, now, keep, sweep);
    if sweep.i < i {
        lemma_old_dir_minded(then, keep, rest, i, dir);
    } else {
        lemma_minded_entries(now, now, keep, sweep);
        if is_bare(end, dir) {
            lemma_part_entries(now, keep, sweep);
            assert(now.nodes.dom().contains(dir));
            if behind_link(now, dir) {
                let k = choose|k: int|
                    1 <= k < dir.len() && is_link(now, #[trigger] dir.take(k));
                lemma_tree_ancestor(now, dir, k);
            }
            assert(rest == rest_with_dir(sweep, dir));
            assert(then == now);
            lemma_with_dir(sweep.dirs, dir);
            let once = filled_once(end, dir);
            assert forall|d: Seq<Seq<char>>| #[trigger] is_emptied(once, then, d) implies is_pinned(
                keep,
                d,
            ) || then.stuck.contains(d) || rest.dirs.contains(d) || d == root by {
                lemma_filled_once(end, dir, d);
                if is_below(dir, d) {
                    assert(then.nodes.dom().contains(dir));
                    assert(is_filled(then, d));
                }
            }
            lemma_minded_entries(once, then, keep, rest);
        }
    }
}

proof fn lemma_old_dir_goes(
    now: Disk,
    depots: Seq<ResolvedDepotSpec>,
    keep: Set<Seq<char>>,
    builds: Seq<(u32, u64)>,
    from: int,
    at: int,
    i: int,
    dir: Seq<Seq<char>>,
)
    requires
        is_tree(now),
        0 <= from <= at < builds.len(),
        is_stale(now.installed, builds[at]),
        entries_in(now, depots, builds[at]) matches Some(entries) && 0 <= i < entries.len()
            && is_orphan(keep, entries[i].name) && entries[i].is_dir && dir == safe_parts(
            entries[i].name,
        )->0,
        !is_pinned(keep, dir),
        !now.stuck.contains(dir),
    ensures
        !is_bare(clean_builds(now, depots, keep, builds, from).1, dir),
    decreases builds.len() - from,
{
    let build = builds[from];
    let then = clean_build(now, depots, keep, build).1;
    let end = clean_builds(now, depots, keep, builds, from).1;
    lemma_part_build(now, depots, keep, build);
    lemma_part_builds(then, depots, keep, builds, from + 1);
    assert forall|d: Seq<Seq<char>>| !(#[trigger] is_emptied(now, now, d)) by {}
    lemma_minded_unmarked(now, now, keep, build);
    if is_stale(now.installed, build) {
        if let Some(entries) = entries_in(now, depots, build) {
            let sweep = whole_sweep(entries);
            let (count, swept, dirs) = sweep_entries(now, keep, sweep);
            assert(are_inside(sweep.dirs));
            lemma_minded_entries(now, now, keep, sweep);
            lemma_minded_prunes(now, swept, keep, dirs);
            lemma_minded_unmarked(now, prune_dirs(swept, keep, dirs), keep, build);
            if from == at {
                lemma_old_dir_minded(now, keep, sweep, i, dir);
                let once = filled_once(swept, dir);
                lemma_part_entries(now, keep, sweep);
                lemma_part_prunes(swept, keep, dirs);
                if is_bare(swept, dir) {
                    lemma_minded_prunes(once, swept, keep, dirs);
                    lemma_minded_unmarked(once, prune_dirs(swept, keep, dirs), keep, build);
                    lemma_minded_builds(once, then, depots, keep, builds, from + 1);
                    lemma_filled_once(swept, dir, dir);
                    if is_bare(end, dir) {
                        assert(is_emptied(once, end, dir));
                    }
                } else if is_bare(end, dir) {
                    assert(is_filled(swept, dir));
                    lemma_minded_prunes(swept, swept, keep, dirs);
                    lemma_minded_unmarked(swept, prune_dirs(swept, keep, dirs), keep, build);
                    lemma_minded_builds(swept, then, depots, keep, builds, from + 1);
                    assert(is_emptied(swept, end, dir));
                }
            }
        }
    }
    if from < at {
        lemma_old_dir_goes(then, depots, keep, builds, from + 1, at, i, dir);
    }
}

/// A directory that an old build names, at a safe path, goes when its key is
/// the key of no installed entry; unless something is left below it, or it
/// cannot be removed.
pub proof fn law_old_dirs_go(
    disk: Disk,
    depots: Seq<ResolvedDepotSpec>,
    build: (u32, u64),
    i: int,
    dir: Seq<Seq<char>>,
)
    requires
        is_tree(disk),
        known_keep(disk, depots) is Some,
        builds_in(disk).contains(build),
        current_of(disk.installed, build.0) matches Some(gid) && gid != build.1,
        entries_in(disk, depots, build) matches Some(entries) && 0 <= i < entries.len()
            && entries[i].is_dir && safe_parts(entries[i].name) == Some(dir) && !is_installed_key(
            disk,
            depots,
            disk.installed,
            path_key(entries[i].name),
        ),
        !disk.stuck.contains(dir),
    ensures
        ({
            let end = run(start(depots), disk).1;
            end.nodes.dom().contains(dir) && end.nodes[dir] is Directory ==> exists|
                path: Seq<Seq<char>>,
            | #[trigger]
                end.nodes.dom().contains(path) && is_below(path, dir)
        }),
{
    let keep = known_keep(disk, depots)->0;
    let name = entries_in(disk, depots, build)->0[i].name;
    let at = choose|at: int| 0 <= at < builds_in(disk).len() && builds_in(disk)[at] == build;
    law_pass_cleans(disk, depots);
    law_kept_is_installed(disk, depots, keep, path_key(name));
    lemma_parts_inside(name);
    law_safe_parts_keep_key(name);
    lemma_old_dir_goes(disk, depots, keep, builds_in(disk), 0, at, i, dir);
}

// ---------------------------------------------------------------------------
// Nothing behind a link goes
// ---------------------------------------------------------------------------

/// None of the directories is behind a link.
spec fn are_clear(end: Disk, dirs: Seq<Seq<Seq<char>>>) -> bool {
    forall|d: Seq<Seq<char>>| #[trigger] dirs.contains(d) ==> !behind_link(end, d)
}

/// All that is behind a link at the end is still there.
spec fn spares_linked(now: Disk, then: Disk, end: Disk) -> bool {
    forall|path: Seq<Seq<char>>| #[trigger]
        now.nodes.dom().contains(path) && behind_link(end, path) ==> then.nodes.dom().contains(path)
}

proof fn lemma_link_stays(end: Disk, now: Disk, path: Seq<Seq<char>>)
    requires
        is_part(end, now),
        behind_link(end, path),
    ensures
        behind_link(now, path),
{
    let k = choose|k: int| 1 <= k < path.len() && is_link(end, #[trigger] path.take(k));
    assert(end.nodes.dom().contains(path.take(k)));
    assert(is_link(now, path.take(k)));
}

/// What stands in front of a path, or next to it, is behind no link either.
proof fn lemma_clear_parent(end: Disk, path: Seq<Seq<char>>, other: Seq<Seq<char>>)
    requires
        path.len() > 0,
        !behind_link(end, path),
        other == path.drop_last() || (other.len() == path.len() && other.drop_last()
            == path.drop_last()),
    ensures
        !behind_link(end, other),
{
    if behind_link(end, other) {
        let k = choose|k: int| 1 <= k < other.len() && is_link(end, #[trigger] other.take(k));
        assert(other.take(k) == path.drop_last().take(k)) by {
            if other.len() == path.len() {
                assert(other.take(k) == other.drop_last().take(k));
            }
        }
        assert(path.take(k) == path.drop_last().take(k));
        assert(is_link(end, path.take(k)));
    }
}

proof fn lemma_linked_prune(now: Disk, keep: Set<Seq<char>>, dir: Seq<Seq<char>>, end: Disk)
    requires
        !behind_link(end, dir),
    ensures
        spares_linked(now, prune_dir(now, keep, dir), end),
    decreases dir.len(),
{
    if !is_pinned(keep, dir) && dir_goes(now, dir) {
        let then = without(now, dir);
        lemma_clear_parent(end, dir, dir.drop_last());
        lemma_linked_prune(then, keep, dir.drop_last(), end);
        assert forall|path: Seq<Seq<char>>| #[trigger]
            now.nodes.dom().contains(path) && behind_link(end, path) implies prune_dir(
            now,
            keep,
            dir,
        ).nodes.dom().contains(path) by {
            assert(then.nodes.dom().contains(path));
        }
    }
}

proof fn lemma_linked_prunes(
    now: Disk,
    keep: Set<Seq<char>>,
    dirs: Seq<Seq<Seq<char>>>,
    end: Disk,
)
    requires
        are_clear(end, dirs),
    ensures
        spares_linked(now, prune_dirs(now, keep, dirs), end),
    decreases dirs.len(),
{
    if dirs.len() > 0 {
        let init = dirs.drop_last();
        let then = prune_dir(now, keep, dirs.last());
        assert(dirs.contains(dirs.last()));
        assert forall|d: Seq<Seq<char>>| #[trigger] init.contains(d) implies !behind_link(
            end,
            d,
        ) by {
            let k = choose|k: int| 0 <= k < init.len() && init[k] == d;
            assert(dirs[k] == d);
            assert(dirs.contains(d));
        }
        lemma_linked_prune(now, keep, dirs.last(), end);
        lemma_linked_prunes(then, keep, init, end);
        assert forall|path: Seq<Seq<char>>| #[trigger]
            now.nodes.dom().contains(path) && behind_link(end, path) implies prune_dirs(
            now,
            keep,
            dirs,
        ).nodes.dom().contains(path) by {
            assert(then.nodes.dom().contains(path));
        }
    }
}

proof fn lemma_linked_entry(now: Disk, keep: Set<Seq<char>>, sweep: SweepView, end: Disk)
    requires
        0 <= sweep.i < sweep.entries.len(),
        are_inside(sweep.dirs),
        are_clear(end, sweep.dirs),
        is_part(end, sweep_entry(now, keep, sweep).1),
    ensures
        ({
            let (count, then, rest) = sweep_entry(now, keep, sweep);
            &&& spares_linked(now, then, end)
            &&& are_inside(rest.dirs)
            &&& are_clear(end, rest.dirs)
        }),
{
    let entry = sweep.entries[sweep.i];
    let parts = safe_parts(entry.name)->0;
    let (count, then, rest) = sweep_entry(now, keep, sweep);
    assert(is_part(then, now));
    assert(is_part(end, now)) by {
        assert forall|path: Seq<Seq<char>>| #[trigger] end.nodes.dom().contains(path) implies
            now.nodes.dom().contains(path) && end.nodes[path] == now.nodes[path] by {
            assert(then.nodes.dom().contains(path));
        }
    }
    if is_orphan(keep, entry.name) && !behind_link(now, parts) {
        if behind_link(end, parts) {
            lemma_link_stays(end, now, parts);
        }
        lemma_parts_inside(entry.name);
        lemma_with_dir(sweep.dirs, parts);
        lemma_with_dir_inside(sweep.dirs, parts);
        lemma_clear_parent(end, parts, parts.drop_last());
        lemma_with_dir(sweep.dirs, parts.drop_last());
        if parts.len() > 1 {
            lemma_parent_inside(parts);
            lemma_with_dir_inside(sweep.dirs, parts.drop_last());
        }
        assert(backup_of(parts).drop_last() == parts.drop_last());
        lemma_clear_parent(end, parts, backup_of(parts));
    }
}

proof fn lemma_linked_entries(now: Disk, keep: Set<Seq<char>>, sweep: SweepView, end: Disk)
    requires
        0 <= sweep.i,
        are_inside(sweep.dirs),
        are_clear(end, sweep.dirs),
        is_part(end, sweep_entries(now, keep, sweep).1),
    ensures
        ({
            let (count, then, dirs) = sweep_entries(now, keep, sweep);
            spares_linked(now, then, end) && are_clear(end, dirs)
        }),
    decreases sweep.entries.len() - sweep.i,
{
    if sweep.i < sweep.entries.len() {
        let (one, then, rest) = sweep_entry(now, keep, sweep);
        let (more, swept, dirs) = sweep_entries(then, keep, rest);
        lemma_part_entries(then, keep, rest);
        assert forall|path: Seq<Seq<char>>| #[trigger] end.nodes.dom().contains(path) implies
            then.nodes.dom().contains(path) && end.nodes[path] == then.nodes[path] by {
            assert(swept.nodes.dom().contains(path));
        }
        lemma_linked_entry(now, keep, sweep, end);
        lemma_linked_entries(then, keep, rest, end);
        assert forall|path: Seq<Seq<char>>| #[trigger]
            now.nodes.dom().contains(path) && behind_link(end, path) implies swept.nodes.dom().contains(
            path,
        ) by {
            assert(then.nodes.dom().contains(path));
        }
    }
}

proof fn lemma_linked_builds(
    now: Disk,
    depots: Seq<ResolvedDepotSpec>,
    keep: Set<Seq<char>>,
    builds: Seq<(u32, u64)>,
    at: int,
    end: Disk,
)
    requires
        0 <= at,
        is_part(end, clean_builds(now, depots, keep, builds, at).1),
    ensures
        spares_linked(now, clean_builds(now, depots, keep, builds, at).1, end),
    decreases builds.len() - at,
{
    if at < builds.len() {
        let build = builds[at];
        let then = clean_build(now, depots, keep, build).1;
        let last = clean_builds(then, depots, keep, builds, at + 1).1;
        lemma_part_builds(then, depots, keep, builds, at + 1);
        assert forall|path: Seq<Seq<char>>| #[trigger] end.nodes.dom().contains(path) implies
            then.nodes.dom().contains(path) && end.nodes[path] == then.nodes[path] by {
            assert(last.nodes.dom().contains(path));
        }
        if is_stale(now.installed, build) {
            if let Some(entries) = entries_in(now, depots, build) {
                let sweep = whole_sweep(entries);
                let (count, swept, dirs) = sweep_entries(now, keep, sweep);
                let pruned = prune_dirs(swept, keep, dirs);
                assert(are_inside(sweep.dirs));
                lemma_part_entries(now, keep, sweep);
                lemma_part_prunes(swept, keep, dirs);
                assert forall|path: Seq<Seq<char>>| #[trigger]
                    end.nodes.dom().contains(path) implies swept.nodes.dom().contains(path)
                    && end.nodes[path] == swept.nodes[path] by {
                    assert(pruned.nodes.dom().contains(path));
                }
                lemma_linked_entries(now, keep, sweep, end);
                lemma_linked_prunes(swept, keep, dirs, end);
                assert forall|path: Seq<Seq<char>>| #[trigger]
                    now.nodes.dom().contains(path) && behind_link(
                    end,
                    path,
                ) implies then.nodes.dom().contains(path) by {
                    assert(swept.nodes.dom().contains(path));
                    assert(pruned.nodes.dom().contains(path));
                }
            }
        }
        assert(spares_linked(now, then, end));
        lemma_linked_builds(then, depots, keep, builds, at + 1, end);
        assert forall|path: Seq<Seq<char>>| #[trigger]
            now.nodes.dom().contains(path) && behind_link(end, path) implies last.nodes.dom().contains(
            path,
        ) by {
            assert(then.nodes.dom().contains(path));
        }
    }
}

/// Nothing is removed through a link: where a directory on the way to a path
/// is a link, what is at the path stays, unless the link itself goes.
pub proof fn law_nothing_behind_a_link_goes(
    disk: Disk,
    depots: Seq<ResolvedDepotSpec>,
    path: Seq<Seq<char>>,
    k: int,
)
    requires
        disk.nodes.dom().contains(path),
        1 <= k < path.len(),
        run(start(depots), disk).1.nodes.dom().contains(path.take(k)),
        run(start(depots), disk).1.nodes[path.take(k)] is Link,
    ensures
        run(start(depots), disk).1.nodes.dom().contains(path),
{
    law_pass_cleans(disk, depots);
    let end = clean(disk, depots).1;
    assert(is_link(end, path.take(k)));
    assert(behind_link(end, path));
    if let Some(keep) = known_keep(disk, depots) {
        lemma_linked_builds(disk, depots, keep, builds_in(disk), 0, end);
    }
}

// ---------------------------------------------------------------------------
// Only directories that were used go
// ---------------------------------------------------------------------------

/// A directory that a pass may look at: one of the named ones is it or is
/// below it, or a file that is gone was.
spec fn is_used(
    before: Disk,
    now: Disk,
    named: Set<Seq<Seq<char>>>,
    dir: Seq<Seq<char>>,
) -> bool {
    ||| exists|path: Seq<Seq<char>>| #[trigger]
        named.contains(path) && (path == dir || is_below(path, dir))
    ||| exists|path: Seq<Seq<char>>| #[trigger]
        before.nodes.dom().contains(path) && before.nodes[path] !is Directory
            && !now.nodes.dom().contains(path) && is_below(path, dir)
}

/// Every directory that is gone, and every one of `dirs`, was used.
spec fn are_used(
    before: Disk,
    now: Disk,
    named: Set<Seq<Seq<char>>>,
    dirs: Seq<Seq<Seq<char>>>,
) -> bool {
    &&& is_part(now, before)
    &&& forall|d: Seq<Seq<char>>| #[trigger] dirs.contains(d) ==> is_used(before, now, named, d)
    &&& forall|d: Seq<Seq<char>>| #[trigger]
        before.nodes.dom().contains(d) && before.nodes[d] is Directory && !now.nodes.dom().contains(
            d,
        ) ==> is_used(before, now, named, d)
}

proof fn lemma_used_on(
    before: Disk,
    now: Disk,
    then: Disk,
    named: Set<Seq<Seq<char>>>,
    dir: Seq<Seq<char>>,
)
    requires
        is_part(then, now),
        is_used(before, now, named, dir),
    ensures
        is_used(before, then, named, dir),
{
    if !(exists|path: Seq<Seq<char>>| #[trigger]
        named.contains(path) && (path == dir || is_below(path, dir))) {
        let path = choose|path: Seq<Seq<char>>| #[trigger]
            before.nodes.dom().contains(path) && before.nodes[path] !is Directory
                && !now.nodes.dom().contains(path) && is_below(path, dir);
        assert(!then.nodes.dom().contains(path));
    }
}

proof fn lemma_below_parent(path: Seq<Seq<char>>, dir: Seq<Seq<char>>)
    requires
        dir.len() > 0,
        path == dir || is_below(path, dir),
    ensures
        is_below(path, dir.drop_last()),
{
    let up = dir.drop_last();
    assert(path.take(up.len() as int) == path.take(dir.len() as int).take(up.len() as int));
    assert(path.take(dir.len() as int) == dir);
    assert(dir.take(up.len() as int) == up);
}

proof fn lemma_used_up(
    before: Disk,
    now: Disk,
    named: Set<Seq<Seq<char>>>,
    dir: Seq<Seq<char>>,
)
    requires
        is_used(before, now, named, dir),
        dir.len() > 0,
    ensures
        is_used(before, now, named, dir.drop_last()),
{
    if exists|path: Seq<Seq<char>>| #[trigger]
        named.contains(path) && (path == dir || is_below(path, dir)) {
        let path = choose|path: Seq<Seq<char>>| #[trigger]
            named.contains(path) && (path == dir || is_below(path, dir));
        lemma_below_parent(path, dir);
    } else {
        let path = choose|path: Seq<Seq<char>>| #[trigger]
            before.nodes.dom().contains(path) && before.nodes[path] !is Directory
                && !now.nodes.dom().contains(path) && is_below(path, dir);
        lemma_below_parent(path, dir);
    }
}

/// What was used still is when one more node goes: a file, or a directory that
/// was used.
proof fn lemma_used_without(
    before: Disk,
    now: Disk,
    named: Set<Seq<Seq<char>>>,
    dirs: Seq<Seq<Seq<char>>>,
    gone: Seq<Seq<char>>,
)
    requires
        are_used(before, now, named, dirs),
        now.nodes.dom().contains(gone),
        now.nodes[gone] is Directory ==> is_used(before, now, named, gone),
    ensures
        are_used(before, without(now, gone), named, dirs),
{
    let then = without(now, gone);
    assert(is_part(then, now));
    assert forall|path: Seq<Seq<char>>| #[trigger] then.nodes.dom().contains(path) implies
        before.nodes.dom().contains(path) && then.nodes[path] == before.nodes[path] by {
        assert(now.nodes.dom().contains(path));
    }
    assert forall|d: Seq<Seq<char>>| #[trigger] dirs.contains(d) implies is_used(
        before,
        then,
        named,
        d,
    ) by {
        lemma_used_on(before, now, then, named, d);
    }
    assert forall|d: Seq<Seq<char>>| #[trigger]
        before.nodes.dom().contains(d) && before.nodes[d] is Directory && !then.nodes.dom().contains(
            d,
        ) implies is_used(before, then, named, d) by {
        if d == gone {
            assert(now.nodes[gone] == before.nodes[gone]);
        } else {
            assert(!now.nodes.dom().contains(d));
        }
        lemma_used_on(before, now, then, named, d);
    }
}

proof fn lemma_used_prune(
    before: Disk,
    now: Disk,
    keep: Set<Seq<char>>,
    named: Set<Seq<Seq<char>>>,
    dirs: Seq<Seq<Seq<char>>>,
    dir: Seq<Seq<char>>,
)
    requires
        are_used(before, now, named, dirs),
        is_used(before, now, named, dir),
    ensures
        are_used(before, prune_dir(now, keep, dir), named, dirs),
    decreases dir.len(),
{
    if !is_pinned(keep, dir) && dir_goes(now, dir) {
        let then = without(now, dir);
        lemma_used_without(before, now, named, dirs, dir);
        assert(is_part(then, now));
        lemma_used_up(before, now, named, dir);
        lemma_used_on(before, now, then, named, dir.drop_last());
        lemma_used_prune(before, then, keep, named, dirs, dir.drop_last());
    }
}

proof fn lemma_used_prunes(
    before: Disk,
    now: Disk,
    keep: Set<Seq<char>>,
    named: Set<Seq<Seq<char>>>,
    dirs: Seq<Seq<Seq<char>>>,
)
    requires
        are_used(before, now, named, dirs),
    ensures
        are_used(before, prune_dirs(now, keep, dirs), named, Seq::empty()),
    decreases dirs.len(),
{
    if dirs.len() > 0 {
        let init = dirs.drop_last();
        assert(dirs.contains(dirs.last()));
        assert forall|d: Seq<Seq<char>>| #[trigger] init.contains(d) implies is_used(
            before,
            now,
            named,
            d,
        ) by {
            let k = choose|k: int| 0 <= k < init.len() && init[k] == d;
            assert(dirs[k] == d);
            assert(dirs.contains(d));
        }
        lemma_used_prune(before, now, keep, named, init, dirs.last());
        lemma_used_prunes(before, prune_dir(now, keep, dirs.last()), keep, named, init);
    } else {
        assert(dirs == Seq::<Seq<Seq<char>>>::empty());
    }
}

/// All paths at which the entries name a directory that is safe to remove and
/// that no installed build holds.
spec fn are_named(
    keep: Set<Seq<char>>,
    entries: Seq<EntryView>,
    named: Set<Seq<Seq<char>>>,
) -> bool {
    forall|i: int|
        0 <= i < entries.len() && (#[trigger] entries[i]).is_dir && is_orphan(keep, entries[i].name)
            ==> named.contains(safe_parts(entries[i].name)->0)
}

proof fn lemma_used_entry(
    before: Disk,
    now: Disk,
    keep: Set<Seq<char>>,
    named: Set<Seq<Seq<char>>>,
    sweep: SweepView,
)
    requires
        0 <= sweep.i < sweep.entries.len(),
        are_inside(sweep.dirs),
        are_used(before, now, named, sweep.dirs),
        are_named(keep, sweep.entries, named),
    ensures
        ({
            let (count, then, rest) = sweep_entry(now, keep, sweep);
            are_inside(rest.dirs) && are_used(before, then, named, rest.dirs)
        }),
{
    let entry = sweep.entries[sweep.i];
    let parts = safe_parts(entry.name)->0;
    let (count, then, rest) = sweep_entry(now, keep, sweep);
    if is_orphan(keep, entry.name) && !behind_link(now, parts) {
        lemma_parts_inside(entry.name);
        if entry.is_dir {
            lemma_with_dir(sweep.dirs, parts);
            lemma_with_dir_inside(sweep.dirs, parts);
            assert(named.contains(parts));
        } else if file_goes(now, parts) {
            let parent = parts.drop_last();
            let first = without(now, parts);
            lemma_used_without(before, now, named, sweep.dirs, parts);
            if has_backup(keep, entry.name) && file_goes(first, backup_of(parts)) {
                lemma_used_without(before, first, named, sweep.dirs, backup_of(parts));
            }
            assert(before.nodes.dom().contains(parts));
            assert(!then.nodes.dom().contains(parts));
            lemma_below_parent(parts, parts);
            assert(is_used(before, then, named, parent));
            if parts.len() > 1 {
                lemma_parent_inside(parts);
                lemma_with_dir(sweep.dirs, parent);
                lemma_with_dir_inside(sweep.dirs, parent);
            }
        }
    }
}

proof fn lemma_used_entries(
    before: Disk,
    now: Disk,
    keep: Set<Seq<char>>,
    named: Set<Seq<Seq<char>>>,
    sweep: SweepView,
)
    requires
        0 <= sweep.i,
        are_inside(sweep.dirs),
        are_used(before, now, named, sweep.dirs),
        are_named(keep, sweep.entries, named),
    ensures
        ({
            let (count, then, dirs) = sweep_entries(now, keep, sweep);
            are_used(before, then, named, dirs)
        }),
    decreases sweep.entries.len() - sweep.i,
{
    if sweep.i < sweep.entries.len() {
        let (one, then, rest) = sweep_entry(now, keep, sweep);
        lemma_used_entry(before, now, keep, named, sweep);
        lemma_used_entries(before, then, keep, named, rest);
    }
}

proof fn lemma_used_unmarked(
    before: Disk,
    now: Disk,
    named: Set<Seq<Seq<char>>>,
    build: (u32, u64),
)
    requires
        are_used(before, now, named, Seq::empty()),
    ensures
        are_used(before, unmarked(now, build), named, Seq::empty()),
{
    let then = unmarked(now, build);
    assert(then.nodes == now.nodes);
    assert(is_part(then, now));
    assert forall|d: Seq<Seq<char>>| #[trigger]
        before.nodes.dom().contains(d) && before.nodes[d] is Directory && !then.nodes.dom().contains(
            d,
        ) implies is_used(before, then, named, d) by {
        lemma_used_on(before, now, then, named, d);
    }
}

proof fn lemma_used_builds(
    before: Disk,
    now: Disk,
    depots: Seq<ResolvedDepotSpec>,
    keep: Set<Seq<char>>,
    named: Set<Seq<Seq<char>>>,
    builds: Seq<(u32, u64)>,
    at: int,
)
    requires
        0 <= at,
        are_used(before, now, named, Seq::empty()),
        forall|k: int|
            0 <= k < builds.len() && is_stale(before.installed, #[trigger] builds[k]) ==> (
            entries_in(before, depots, builds[k]) matches Some(entries) ==> are_named(
                keep,
                entries,
                named,
            )),
    ensures
        are_used(
            before,
            clean_builds(now, depots, keep, builds, at).1,
            named,
            Seq::empty(),
        ),
    decreases builds.len() - at,
{
    if at < builds.len() {
        let build = builds[at];
        let then = clean_build(now, depots, keep, build).1;
        let none = Seq::<Seq<Seq<char>>>::empty();
        lemma_used_unmarked(before, now, named, build);
        assert(entries_in(now, depots, build) == entries_in(before, depots, build));
        if is_stale(now.installed, build) {
            if let Some(entries) = entries_in(now, depots, build) {
                let sweep = whole_sweep(entries);
                let (count, swept, dirs) = sweep_entries(now, keep, sweep);
                assert(sweep.dirs == none);
                assert(are_inside(sweep.dirs));
                lemma_used_entries(before, now, keep, named, sweep);
                lemma_used_prunes(before, swept, keep, named, dirs);
                lemma_used_unmarked(before, prune_dirs(swept, keep, dirs), named, build);
            }
        }
        lemma_used_builds(before, then, depots, keep, named, builds, at + 1);
    }
}

/// The entry `i` of the build `at` on disk names a directory: the build is
/// old, the path is safe, and no installed build holds it.
pub open spec fn names_old_dir(
    disk: Disk,
    depots: Seq<ResolvedDepotSpec>,
    at: int,
    i: int,
    path: Seq<Seq<char>>,
) -> bool {
    let build = builds_in(disk)[at];
    let entry = entries_in(disk, depots, build)->0[i];
    &&& 0 <= at < builds_in(disk).len()
    &&& current_of(disk.installed, build.0) matches Some(gid) && gid != build.1
    &&& entries_in(disk, depots, build) is Some
    &&& 0 <= i < entries_in(disk, depots, build)->0.len()
    &&& entry.is_dir
    &&& safe_parts(entry.name) == Some(path)
    &&& !is_installed_key(disk, depots, disk.installed, path_key(entry.name))
}

/// A directory goes only if an old build names it, or one below it; or if a
/// file below it is gone.
pub proof fn law_gone_dir_was_used(
    disk: Disk,
    depots: Seq<ResolvedDepotSpec>,
    dir: Seq<Seq<char>>,
)
    requires
        disk.nodes.dom().contains(dir),
        disk.nodes[dir] is Directory,
        !run(start(depots), disk).1.nodes.dom().contains(dir),
    ensures
        (exists|at: int, i: int, path: Seq<Seq<char>>| #[trigger]
            names_old_dir(disk, depots, at, i, path) && (path == dir || is_below(path, dir))) || (
        exists|path: Seq<Seq<char>>| #[trigger]
            disk.nodes.dom().contains(path) && disk.nodes[path] !is Directory && !run(
                start(depots),
                disk,
            ).1.nodes.dom().contains(path) && is_below(path, dir)),
{
    law_pass_cleans(disk, depots);
    let keep = known_keep(disk, depots)->0;
    let builds = builds_in(disk);
    let named = Set::new(
        |path: Seq<Seq<char>>|
            exists|at: int, i: int| #[trigger] names_old_dir(disk, depots, at, i, path),
    );
    assert forall|k: int|
        0 <= k < builds.len() && is_stale(disk.installed, #[trigger] builds[k]) implies (entries_in(
        disk,
        depots,
        builds[k],
    ) matches Some(entries) ==> are_named(keep, entries, named)) by {
        if let Some(entries) = entries_in(disk, depots, builds[k]) {
            assert forall|i: int|
                0 <= i < entries.len() && (#[trigger] entries[i]).is_dir && is_orphan(
                    keep,
                    entries[i].name,
                ) implies named.contains(safe_parts(entries[i].name)->0) by {
                law_kept_is_installed(disk, depots, keep, path_key(entries[i].name));
                assert(names_old_dir(disk, depots, k, i, safe_parts(entries[i].name)->0));
            }
        }
    }
    lemma_used_builds(disk, disk, depots, keep, named, builds, 0);
    let end = clean(disk, depots).1;
    assert(is_used(disk, end, named, dir));
    if exists|path: Seq<Seq<char>>| #[trigger]
        named.contains(path) && (path == dir || is_below(path, dir)) {
        let path = choose|path: Seq<Seq<char>>| #[trigger]
            named.contains(path) && (path == dir || is_below(path, dir));
        let (at, i) = choose|at: int, i: int| #[trigger]
            names_old_dir(disk, depots, at, i, path);
        assert(names_old_dir(disk, depots, at, i, path));
    }
}

} // verus!
