//! What a cleanup pass promises whatever it is answered: what it may ask to be
//! removed, what it counts, when it gives up, and that it comes to an end.
use crate::depot_cleanup::builds::{marked_builds, with_builds};
use crate::depot_cleanup::filelist::{manifest_entries, read_filelist, EntryView};
use crate::depot_cleanup::paths::{is_control, is_real, is_unsafe, own_dir, parts_key, safe_parts};
use crate::depot_cleanup::records::usable_bytes;
use crate::depot_cleanup::soundness::{
    at_stage, at_stale, is_inside, is_sound, lemma_parts_inside, target_of,
};
use crate::depot_cleanup::steps::{
    answers, backup_of, build_in_hand, current_of, ending, has_backup, is_orphan, is_pinned, loaded,
    next, next_build, next_dir, next_entry, request, rest_of, rest_with_dir, whole_sweep, Ending,
    LoadView, NodeKind, PassView, ReplyView, RequestView, StageView, StepView, SweepView,
    BACKUP_SUFFIX,
};
use crate::depot_config::INVALID_MANIFEST_ID;
use crate::depot_downloader::key_of;
use crate::text::{join, lower};
use vstd::prelude::*;

verus! {

// ---------------------------------------------------------------------------
// Backups
// ---------------------------------------------------------------------------

proof fn lemma_lower_append(a: Seq<char>, b: Seq<char>)
    ensures
        lower(a + b) == lower(a) + lower(b),
{
    assert(lower(a + b) =~= lower(a) + lower(b));
}

proof fn lemma_backup_suffix()
    ensures
        lower(BACKUP_SUFFIX@) == BACKUP_SUFFIX@,
        BACKUP_SUFFIX@.len() == 13,
        BACKUP_SUFFIX@.last() == 'e',
        forall|k: int| 0 <= k < 13 ==> BACKUP_SUFFIX@[k] != '/' && !is_control(
            #[trigger] BACKUP_SUFFIX@[k],
        ),
{
    reveal_strlit(".original.exe");
    assert(lower(BACKUP_SUFFIX@) =~= BACKUP_SUFFIX@);
}

/// The key of a backup is that of its file with the backup's suffix, so that
/// an installed build that holds a file under that name protects it.
pub proof fn law_backup_key(parts: Seq<Seq<char>>)
    requires
        parts.len() > 0,
    ensures
        parts_key(backup_of(parts)) == parts_key(parts) + BACKUP_SUFFIX@,
{
    let fold = |part: Seq<char>| lower(part);
    let whole = parts.map_values(fold);
    let backup = backup_of(parts).map_values(fold);
    lemma_backup_suffix();
    lemma_lower_append(parts.last(), BACKUP_SUFFIX@);
    assert(backup.drop_last() == whole.drop_last());
    assert(backup.last() == whole.last() + BACKUP_SUFFIX@);
    if parts.len() > 1 {
        let head = join(whole.drop_last(), '/').push('/');
        assert(head + (whole.last() + BACKUP_SUFFIX@) == head + whole.last() + BACKUP_SUFFIX@);
    }
}

proof fn lemma_backup_inside(parts: Seq<Seq<char>>)
    requires
        is_inside(parts),
    ensures
        is_inside(backup_of(parts)),
{
    let backup = backup_of(parts);
    lemma_backup_suffix();
    lemma_lower_append(parts.last(), BACKUP_SUFFIX@);
    assert forall|i: int| 0 <= i < backup.len() implies is_real(#[trigger] backup[i])
        && !is_unsafe(backup[i]) && !backup[i].contains('/') by {
        let name = parts[i];
        assert(is_real(name));
        if i == parts.len() - 1 {
            let long = name + BACKUP_SUFFIX@;
            assert(backup[i] == long);
            assert(long.len() > 2);
            assert forall|k: int| 0 <= k < long.len() implies !is_control(#[trigger] long[k])
                && long[k] != '/' by {
                if k < name.len() {
                    assert(!is_control(name[k]));
                    assert(name.contains(name[k]));
                } else {
                    assert(long[k] == BACKUP_SUFFIX@[k - name.len()]);
                }
            }
        }
    }
    if parts.len() == 1 {
        reveal_strlit(".DepotDownloader");
        let first = lower(backup[0]);
        assert(first.last() == 'e');
        assert(own_dir().last() == 'r');
    }
}

// ---------------------------------------------------------------------------
// What is removed
// ---------------------------------------------------------------------------

/// A file that an entry of an old build condemns: no installed build holds it,
/// it is safe to remove, and it is at the entry's path, or is the backup of an
/// executable there.
pub open spec fn condemns(keep: Set<Seq<char>>, entry: EntryView, target: Seq<Seq<char>>) -> bool {
    &&& !entry.is_dir
    &&& is_orphan(keep, entry.name)
    &&& target == target_of(entry, false) || (has_backup(keep, entry.name) && target == target_of(
        entry,
        true,
    ))
}

/// A condemned file is inside the install directory, and no installed build
/// holds it.
pub proof fn law_condemned_is_unkept(
    keep: Set<Seq<char>>,
    entry: EntryView,
    target: Seq<Seq<char>>,
)
    requires
        condemns(keep, entry, target),
    ensures
        is_inside(target),
        !keep.contains(parts_key(target)),
{
    let parts = safe_parts(entry.name)->0;
    lemma_parts_inside(entry.name);
    lemma_backup_inside(parts);
    law_backup_key(parts);
    crate::depot_cleanup::paths::law_safe_parts_keep_key(entry.name);
}

/// A file is removed only for an entry of an old build that condemns it.
pub proof fn law_removed_files_are_condemned(s: PassView)
    requires
        is_sound(s),
        request(s) is RemoveFile,
    ensures
        s.stage matches StageView::Sweep { at, sweep, target, .. } && {
            &&& request(s) == RequestView::RemoveFile(target)
            &&& at_stale(s, at)
            &&& 0 <= sweep.i < sweep.entries.len()
            &&& condemns(s.keep, sweep.entries[sweep.i], target)
            &&& is_inside(target)
            &&& !s.keep.contains(parts_key(target))
        },
{
    if let StageView::Sweep { at, sweep, target, backup, step } = s.stage {
        law_condemned_is_unkept(s.keep, sweep.entries[sweep.i], target);
    }
}

/// A directory is removed only below the install directory, and only where no
/// installed build holds it.
pub proof fn law_removed_dirs_are_unkept(s: PassView, dir: Seq<Seq<char>>)
    requires
        is_sound(s),
        request(s) == RequestView::RemoveDir(dir),
    ensures
        is_inside(dir),
        !s.keep.contains(parts_key(dir)),
{
}

/// A marker is dropped only of a build on disk whose depot is installed: the
/// builds of an unknown depot keep theirs.
pub proof fn law_dropped_markers_are_known(s: PassView, depot_id: u32, manifest_id: u64)
    requires
        is_sound(s),
        request(s) == RequestView::DropMarker(depot_id, manifest_id),
    ensures
        s.builds.contains((depot_id, manifest_id)),
        current_of(s.installed, depot_id) is Some,
{
    if let StageView::Drop { at } = s.stage {
        assert(s.builds[at] == (depot_id, manifest_id));
    }
}

/// What is behind a linked directory is left alone: the pass goes on with the
/// next entry.
pub proof fn law_links_are_not_followed(s: PassView)
    requires
        is_sound(s),
        request(s) is IsLink,
    ensures
        s.stage matches StageView::Sweep { at, sweep, .. } && next(s, ReplyView::Flag(true)).stage
            == next_entry(s.keep, at, rest_of(sweep)),
{
}

proof fn lemma_dir_stage(keep: Set<Seq<char>>, at: int, dirs: Seq<Seq<Seq<char>>>)
    ensures
        next_dir(keep, at, dirs) is Prune || next_dir(keep, at, dirs) is Drop,
    decreases dirs.len(),
{
    if dirs.len() > 0 {
        lemma_dir_stage(keep, at, dirs.drop_last());
    }
}

proof fn lemma_build_stage(installed: Seq<(u32, u64)>, builds: Seq<(u32, u64)>, at: int)
    ensures
        match next_build(installed, builds, at) {
            StageView::Done(why) => why == Ending::Finished,
            StageView::Drop { .. } => true,
            StageView::Load { stale, load, .. } => stale && load is Sidecar,
            _ => false,
        },
    decreases builds.len() - at,
{
    if at < builds.len() {
        lemma_build_stage(installed, builds, at + 1);
    }
}

/// The entries are first asked for at their first ancestor.
proof fn lemma_entry_stage(keep: Set<Seq<char>>, at: int, sweep: SweepView)
    ensures
        match next_entry(keep, at, sweep) {
            StageView::Sweep { target, backup, step, .. } => {
                &&& !backup
                &&& step == StepView::Link(1) || (step is Stat && target.len() == 1)
            },
            StageView::Prune { .. } => true,
            StageView::Drop { .. } => true,
            _ => false,
        },
    decreases sweep.entries.len() - sweep.i,
{
    lemma_dir_stage(keep, at, sweep.dirs);
    if sweep.i < sweep.entries.len() {
        let entry = sweep.entries[sweep.i];
        lemma_entry_stage(keep, at, rest_of(sweep));
        lemma_entry_stage(keep, at, rest_with_dir(sweep, safe_parts(entry.name)->0));
    }
}

/// Of the file in hand, the directory `k` components deep is asked for.
pub open spec fn asks_ancestor(s: PassView, sweep: SweepView, target: Seq<Seq<char>>, k: int) -> bool {
    s.stage matches StageView::Sweep { sweep: in_hand, target: parts, step, .. } && in_hand == sweep
        && parts == target && step == StepView::Link(k)
}

/// The ancestors of an entry are asked for from the first to the last, and the
/// entry only when the last of them was no link. It is removed only when
/// something other than a directory is there.
pub proof fn law_ancestors_come_first(s: PassView, reply: ReplyView)
    requires
        is_sound(s),
        answers(s, reply),
        next(s, reply).stage is Sweep,
    ensures
        next(s, reply).stage matches StageView::Sweep { sweep, target, backup, step, .. } && (backup
            || match step {
            StepView::Link(k) => k == 1 || (asks_ancestor(s, sweep, target, k - 1) && reply
                == ReplyView::Flag(false)),
            StepView::Stat => target.len() == 1 || (asks_ancestor(
                s,
                sweep,
                target,
                target.len() - 1,
            ) && reply == ReplyView::Flag(false)),
            StepView::Remove => request(s) == RequestView::Stat(target) && reply
                == ReplyView::Kind(NodeKind::Other),
        }),
{
    match s.stage {
        StageView::Sweep { at, sweep, target, backup, step } => {
            lemma_entry_stage(s.keep, at, rest_of(sweep));
            lemma_entry_stage(
                s.keep,
                at,
                rest_with_dir(sweep, safe_parts(sweep.entries[sweep.i].name)->0),
            );
            lemma_entry_stage(s.keep, at, rest_with_dir(sweep, target.drop_last()));
        },
        StageView::Load { stale, at, load } => {
            lemma_build_stage(s.installed, s.builds, 0);
            match reply {
                ReplyView::Text(Some(text)) => {
                    if let Some(entries) = read_filelist(text) {
                        lemma_entry_stage(s.keep, at, whole_sweep(entries));
                    }
                },
                ReplyView::Manifest(Some(files)) => {
                    lemma_entry_stage(s.keep, at, whole_sweep(manifest_entries(files)));
                },
                _ => {},
            }
        },
        StageView::Marked => {
            if let ReplyView::Names(names) = reply {
                let builds = with_builds(s.builds, marked_builds(names));
                lemma_build_stage(s.installed, builds, 0);
            }
        },
        StageView::Probe { at, .. } => {
            lemma_build_stage(s.installed, s.builds, at + 1);
        },
        StageView::Prune { at, dirs, .. } => {
            lemma_dir_stage(s.keep, at, dirs);
        },
        StageView::Drop { at } => {
            lemma_build_stage(s.installed, s.builds, at + 1);
        },
        _ => {},
    }
}

// ---------------------------------------------------------------------------
// What is counted, and what is settled
// ---------------------------------------------------------------------------

/// A file is counted exactly when it was asked to be removed and was.
pub proof fn law_count_is_of_removed_files(s: PassView, reply: ReplyView)
    ensures
        next(s, reply).deleted == s.deleted + if request(s) is RemoveFile && reply
            == ReplyView::Flag(true) {
            1nat
        } else {
            0
        },
{
}

/// The part of a pass in which things are removed.
pub open spec fn is_removing(s: PassView) -> bool {
    match s.stage {
        StageView::Load { stale, .. } => stale,
        StageView::Probe { .. } => true,
        StageView::Sweep { .. } => true,
        StageView::Prune { .. } => true,
        StageView::Drop { .. } => true,
        _ => false,
    }
}

/// Nothing is removed before all that the installed builds hold is known: in
/// the part of the pass that can ask for a removal, the installed builds, the
/// builds on disk and what is kept stay the same, until the pass is done.
pub proof fn law_keep_is_settled(s: PassView, reply: ReplyView)
    requires
        is_removing(s),
    ensures
        next(s, reply).installed == s.installed,
        next(s, reply).builds == s.builds,
        next(s, reply).keep == s.keep,
        is_removing(next(s, reply)) || next(s, reply).stage is Done,
{
    lemma_removing_stays(s, reply);
}

/// What asks for a removal is in that part.
pub proof fn law_removals_come_last(s: PassView)
    requires
        request(s) is RemoveFile || request(s) is RemoveDir || request(s) is DropMarker,
    ensures
        is_removing(s),
{
}

proof fn lemma_removing_stays(s: PassView, reply: ReplyView)
    requires
        is_removing(s),
    ensures
        is_removing(next(s, reply)) || next(s, reply).stage is Done,
{
    match s.stage {
        StageView::Load { at, .. } => {
            match reply {
                ReplyView::Text(Some(text)) => {
                    if let Some(entries) = read_filelist(text) {
                        lemma_entry_stage(s.keep, at, whole_sweep(entries));
                    }
                },
                ReplyView::Manifest(Some(files)) => {
                    lemma_entry_stage(s.keep, at, whole_sweep(manifest_entries(files)));
                },
                _ => {},
            }
        },
        StageView::Probe { at, .. } => {
            lemma_build_stage(s.installed, s.builds, at + 1);
        },
        StageView::Sweep { at, sweep, target, .. } => {
            lemma_entry_stage(s.keep, at, rest_of(sweep));
            lemma_entry_stage(
                s.keep,
                at,
                rest_with_dir(sweep, safe_parts(sweep.entries[sweep.i].name)->0),
            );
            lemma_entry_stage(s.keep, at, rest_with_dir(sweep, target.drop_last()));
        },
        StageView::Prune { at, dirs, .. } => {
            lemma_dir_stage(s.keep, at, dirs);
        },
        StageView::Drop { at } => {
            lemma_build_stage(s.installed, s.builds, at + 1);
        },
        _ => {},
    }
}

/// An installed build that cannot be read ends the pass, and nothing was
/// removed.
pub proof fn law_unreadable_install_defers(s: PassView, reply: ReplyView)
    requires
        is_sound(s),
        s.stage matches StageView::Load { stale, at, load } && !stale && match (load, reply) {
            (LoadView::Sidecar, ReplyView::Text(text)) => key_of(s.depots, s.installed[at].0)
                is None && (text matches Some(text) ==> read_filelist(text) is None),
            (LoadView::Manifest, ReplyView::Bytes(raw)) => usable_bytes(raw) is None,
            (LoadView::Decode(_), ReplyView::Manifest(files)) => files is None,
            _ => false,
        },
    ensures
        request(next(s, reply)) == RequestView::Done(0),
        s.stage matches StageView::Load { at, .. } && ending(next(s, reply)) == Some(
            Ending::Unreadable(s.installed[at].0, s.installed[at].1),
        ),
{
}

/// An installed build that is in progress ends the pass, and so does a config
/// that lists nothing; nothing was removed.
pub proof fn law_unknown_install_defers(s: PassView, names: Seq<Seq<char>>)
    requires
        is_sound(s),
        s.stage is Marked,
        s.installed.len() == 0 || s.installed[0].1 == INVALID_MANIFEST_ID,
    ensures
        request(next(s, ReplyView::Names(names))) == RequestView::Done(0),
{
}

/// A pass that is done has looked at every build on disk, or has removed
/// nothing.
pub proof fn law_deferred_pass_removed_nothing(s: PassView)
    requires
        is_sound(s),
        ending(s) is Some,
    ensures
        ending(s) == Some(Ending::Finished) || request(s) == RequestView::Done(0),
{
}

// ---------------------------------------------------------------------------
// The end
// ---------------------------------------------------------------------------

/// How far a pass is from its end, in five parts of falling weight: which of
/// its parts it is in, how many builds are left, what is done with the one in
/// hand, how many entries or directories are left, and what is done with the
/// one in hand.
pub open spec fn left(s: PassView) -> (nat, nat, nat, nat, nat) {
    match s.stage {
        StageView::Config => (5, 0, 0, 0, 0),
        StageView::Cached => (4, 0, 0, 0, 0),
        StageView::Marked => (3, 0, 0, 0, 0),
        StageView::Load { stale, at, load } => {
            let step: nat = match load {
                LoadView::Sidecar => 8,
                LoadView::Manifest => 7,
                LoadView::Decode(_) => 6,
            };
            if stale {
                (1, (s.builds.len() - at) as nat, step, 0, 0)
            } else {
                (2, (s.installed.len() - at) as nat, step, 0, 0)
            }
        },
        StageView::Probe { at, manifest } => {
            let step: nat = if manifest {
                4
            } else {
                5
            };
            (1, (s.builds.len() - at) as nat, step, 0, 0)
        },
        StageView::Sweep { at, sweep, target, backup, step } => {
            let rest: nat = match step {
                StepView::Link(k) => (4 + target.len() - k) as nat,
                StepView::Stat => if backup {
                    2
                } else {
                    4
                },
                StepView::Remove => if backup {
                    1
                } else {
                    3
                },
            };
            (1, (s.builds.len() - at) as nat, 3, (sweep.entries.len() - sweep.i) as nat, rest)
        },
        StageView::Prune { at, dirs, dir } => (
            1,
            (s.builds.len() - at) as nat,
            2,
            dirs.len(),
            dir.len(),
        ),
        StageView::Drop { at } => (1, (s.builds.len() - at) as nat, 1, 0, 0),
        StageView::Done(_) => (0, 0, 0, 0, 0),
    }
}

/// The order of distances: the first part that differs decides.
pub open spec fn nearer(a: (nat, nat, nat, nat, nat), b: (nat, nat, nat, nat, nat)) -> bool {
    a.0 < b.0 || (a.0 == b.0 && (a.1 < b.1 || (a.1 == b.1 && (a.2 < b.2 || (a.2 == b.2 && (a.3
        < b.3 || (a.3 == b.3 && a.4 < b.4)))))))
}

proof fn lemma_build_left(s: PassView, at: int)
    requires
        0 <= at,
    ensures
        left(at_stage(s, next_build(s.installed, s.builds, at))).0 == 0 || (left(
            at_stage(s, next_build(s.installed, s.builds, at)),
        ).0 == 1 && left(at_stage(s, next_build(s.installed, s.builds, at))).1 <= s.builds.len()
            - at),
    decreases s.builds.len() - at,
{
    if at < s.builds.len() {
        lemma_build_left(s, at + 1);
    }
}

proof fn lemma_dir_left(s: PassView, at: int, dirs: Seq<Seq<Seq<char>>>)
    requires
        0 <= at < s.builds.len(),
    ensures
        nearer(
            left(at_stage(s, next_dir(s.keep, at, dirs))),
            (1, (s.builds.len() - at) as nat, 2, dirs.len(), 0),
        ),
    decreases dirs.len(),
{
    if dirs.len() > 0 {
        lemma_dir_left(s, at, dirs.drop_last());
    }
}

proof fn lemma_entry_left(s: PassView, at: int, sweep: SweepView)
    requires
        0 <= at < s.builds.len(),
        0 <= sweep.i <= sweep.entries.len(),
    ensures
        nearer(
            left(at_stage(s, next_entry(s.keep, at, sweep))),
            (1, (s.builds.len() - at) as nat, 3, (sweep.entries.len() - sweep.i + 1) as nat, 0),
        ),
    decreases sweep.entries.len() - sweep.i,
{
    lemma_dir_left(s, at, sweep.dirs);
    if sweep.i < sweep.entries.len() {
        let entry = sweep.entries[sweep.i];
        lemma_entry_left(s, at, rest_of(sweep));
        lemma_entry_left(s, at, rest_with_dir(sweep, safe_parts(entry.name)->0));
    }
}

proof fn lemma_loaded_left(s: PassView, stale: bool, at: int, entries: Option<Seq<EntryView>>)
    requires
        is_sound(s),
        s.stage matches StageView::Load { stale: of, at: here, .. } && of == stale && here == at,
    ensures
        nearer(left(loaded(s, stale, at, entries)), left(s)),
{
    lemma_build_left(s, 0);
    if let Some(entries) = entries {
        if stale {
            lemma_entry_left(s, at, whole_sweep(entries));
        }
    }
}

/// Every answer brings a pass nearer to its end, whatever it says. A pass that
/// is answered comes to its end.
pub proof fn law_answers_bring_the_end(s: PassView, reply: ReplyView)
    requires
        is_sound(s),
        answers(s, reply),
    ensures
        nearer(left(next(s, reply)), left(s)),
{
    match s.stage {
        StageView::Marked => {
            if let ReplyView::Names(names) = reply {
                let builds = with_builds(s.builds, marked_builds(names));
                lemma_build_left(PassView { builds, ..s }, 0);
            }
        },
        StageView::Load { stale, at, load } => {
            match reply {
                ReplyView::Text(Some(text)) => {
                    lemma_loaded_left(s, stale, at, read_filelist(text));
                },
                ReplyView::Manifest(Some(files)) => {
                    lemma_loaded_left(s, stale, at, Some(manifest_entries(files)));
                },
                _ => {},
            }
            lemma_loaded_left(s, stale, at, None);
        },
        StageView::Probe { at, .. } => {
            lemma_build_left(s, at + 1);
        },
        StageView::Sweep { at, sweep, target, backup, step } => {
            let parts = safe_parts(sweep.entries[sweep.i].name)->0;
            let more = PassView { deleted: s.deleted + 1, ..s };
            lemma_entry_left(s, at, rest_of(sweep));
            lemma_entry_left(s, at, rest_with_dir(sweep, parts));
            lemma_entry_left(s, at, rest_with_dir(sweep, target.drop_last()));
            lemma_entry_left(more, at, rest_of(sweep));
            lemma_entry_left(more, at, rest_with_dir(sweep, target.drop_last()));
        },
        StageView::Prune { at, dirs, .. } => {
            lemma_dir_left(s, at, dirs);
        },
        StageView::Drop { at } => {
            lemma_build_left(s, at + 1);
        },
        _ => {},
    }
}

// ---------------------------------------------------------------------------
// What a caller is told
// ---------------------------------------------------------------------------

/// An answer counts if and only if it is one to the question: any other leaves
/// the pass as it is.
pub proof fn law_only_answers_count(s: PassView, reply: ReplyView)
    requires
        is_sound(s),
    ensures
        answers(s, reply) <==> next(s, reply) != s,
{
    if answers(s, reply) {
        law_answers_bring_the_end(s, reply);
    }
}

/// A pass says that it is done if and only if it says why, and then it says
/// how many files it has removed.
pub proof fn law_end_is_told(s: PassView)
    ensures
        request(s) is Done <==> ending(s) is Some,
        request(s) matches RequestView::Done(count) ==> count == s.deleted,
{
}

/// The build that a pass is at is the one that it asks for; it is at one only
/// where it may remove something.
pub proof fn law_build_in_hand_is_asked_for(s: PassView)
    ensures
        build_in_hand(s) is Some <==> is_removing(s),
        match request(s) {
            RequestView::DropMarker(depot_id, manifest_id) => build_in_hand(s) == Some(
                (depot_id, manifest_id),
            ),
            RequestView::SidecarExists(depot_id, manifest_id) => build_in_hand(s) == Some(
                (depot_id, manifest_id),
            ),
            RequestView::ManifestExists(depot_id, manifest_id) => build_in_hand(s) == Some(
                (depot_id, manifest_id),
            ),
            RequestView::Sidecar(depot_id, manifest_id) => build_in_hand(s) matches Some(build)
                ==> build == (depot_id, manifest_id),
            RequestView::Manifest(depot_id, manifest_id) => build_in_hand(s) matches Some(build)
                ==> build == (depot_id, manifest_id),
            RequestView::Installed => build_in_hand(s) is None,
            RequestView::Names => build_in_hand(s) is None,
            RequestView::Done(_) => build_in_hand(s) is None,
            _ => true,
        },
{
}

/// A pass stays at a build until it has asked for all of it: it leaves it when
/// the marker was dropped, or when the build cannot be read though a file of it
/// is there.
pub proof fn law_build_in_hand_stays(s: PassView, reply: ReplyView)
    requires
        is_sound(s),
        answers(s, reply),
        build_in_hand(s) is Some,
        !(request(s) is DropMarker),
        !((request(s) is SidecarExists || request(s) is ManifestExists) && reply
            == ReplyView::Flag(true)),
    ensures
        build_in_hand(next(s, reply)) == build_in_hand(s),
{
    match s.stage {
        StageView::Load { stale, at, load } => {
            if stale {
                assert forall|entries: Seq<EntryView>|
                    build_in_hand(
                        at_stage(s, #[trigger] next_entry(s.keep, at, whole_sweep(entries))),
                    ) == Some(s.builds[at]) by {
                    lemma_entry_stage_at(s, at, whole_sweep(entries));
                }
            }
        },
        StageView::Sweep { at, sweep, target, .. } => {
            let parts = safe_parts(sweep.entries[sweep.i].name)->0;
            lemma_entry_stage_at(s, at, rest_of(sweep));
            lemma_entry_stage_at(s, at, rest_with_dir(sweep, parts));
            lemma_entry_stage_at(s, at, rest_with_dir(sweep, target.drop_last()));
        },
        StageView::Prune { at, dirs, dir } => {
            lemma_dir_stage_at(s, at, dirs);
        },
        _ => {},
    }
}

proof fn lemma_dir_stage_at(s: PassView, at: int, dirs: Seq<Seq<Seq<char>>>)
    ensures
        build_in_hand(at_stage(s, next_dir(s.keep, at, dirs))) == Some(s.builds[at]),
    decreases dirs.len(),
{
    if dirs.len() > 0 && is_pinned(s.keep, dirs.last()) {
        lemma_dir_stage_at(s, at, dirs.drop_last());
    }
}

proof fn lemma_entry_stage_at(s: PassView, at: int, sweep: SweepView)
    ensures
        build_in_hand(at_stage(s, next_entry(s.keep, at, sweep))) == Some(s.builds[at]),
    decreases sweep.entries.len() - sweep.i,
{
    if sweep.i >= sweep.entries.len() {
        lemma_dir_stage_at(s, at, sweep.dirs);
    } else {
        let parts = safe_parts(sweep.entries[sweep.i].name)->0;
        lemma_entry_stage_at(s, at, rest_of(sweep));
        lemma_entry_stage_at(s, at, rest_with_dir(sweep, parts));
    }
}

/// Why a pass ends: nothing is on disk; or nothing is installed; or the next
/// installed build is in progress; or the installed build that was read cannot
/// be; or all builds on disk were looked at, and all that is installed was
/// read.
pub proof fn law_why_a_pass_ends(s: PassView, reply: ReplyView)
    requires
        is_sound(s),
        ending(s) is None,
    ensures
        match ending(next(s, reply)) {
            None => true,
            Some(Ending::NothingOnDisk) => s.stage is Marked && next(s, reply).builds.len() == 0,
            Some(Ending::NothingInstalled) => s.stage is Marked && next(s, reply).builds.len() > 0
                && s.installed.len() == 0,
            Some(Ending::InProgress(depot_id)) => {
                ||| s.stage is Marked && next(s, reply).builds.len() > 0 && s.installed.len() > 0
                    && s.installed[0] == (depot_id, 0xffff_ffff_ffff_ffffu64)
                ||| s.stage matches StageView::Load { stale, at, .. } && !stale && at + 1
                    < s.installed.len() && s.installed[at + 1] == (
                    depot_id,
                    0xffff_ffff_ffff_ffffu64,
                )
            },
            Some(Ending::Unreadable(depot_id, manifest_id)) => s.stage matches StageView::Load {
                stale,
                at,
                ..
            } && !stale && s.installed[at] == (depot_id, manifest_id),
            Some(Ending::Finished) => {
                ||| s.stage matches StageView::Load { stale, at, .. } && !stale && at + 1
                    == s.installed.len()
                ||| is_removing(s)
            },
        },
{
    lemma_build_stage(s.installed, s.builds, 0);
    if is_removing(s) {
        if let StageView::Load { stale, at, .. } = s.stage {
            assert forall|entries: Seq<EntryView>|
                build_in_hand(at_stage(s, #[trigger] next_entry(s.keep, at, whole_sweep(entries))))
                    is Some by {
                lemma_entry_stage_at(s, at, whole_sweep(entries));
            }
        }
        if let StageView::Probe { at, .. } = s.stage {
            lemma_build_stage(s.installed, s.builds, at + 1);
        }
        if let StageView::Drop { at } = s.stage {
            lemma_build_stage(s.installed, s.builds, at + 1);
        }
        if let StageView::Sweep { at, sweep, target, .. } = s.stage {
            let parts = safe_parts(sweep.entries[sweep.i].name)->0;
            lemma_entry_stage_at(s, at, rest_of(sweep));
            lemma_entry_stage_at(s, at, rest_with_dir(sweep, parts));
            lemma_entry_stage_at(s, at, rest_with_dir(sweep, target.drop_last()));
        }
        if let StageView::Prune { at, dirs, dir } = s.stage {
            lemma_dir_stage_at(s, at, dirs);
        }
    }
    if s.stage is Marked {
        if let ReplyView::Names(names) = reply {
            lemma_build_stage(s.installed, next(s, reply).builds, 0);
        }
    }
}

} // verus!
