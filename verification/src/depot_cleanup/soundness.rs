//! What holds of a cleanup pass whatever it is answered: which states it can
//! be in, what it may ask to be removed, and that it comes to an end.
use crate::depot_cleanup::builds::{marked_builds, with_builds};
use crate::depot_cleanup::dirs::{lemma_with_dir, ordered, path_less, with_dir};
use crate::depot_cleanup::filelist::{manifest_entries, read_filelist, EntryView};
use crate::depot_cleanup::paths::{
    is_real, is_unsafe, lemma_real_parts, own_dir, real_parts, safe_parts,
};
use crate::depot_cleanup::steps::{
    backup_of, current_of, has_backup, is_orphan, is_pinned, is_stale, keep_with, load_build,
    loaded, next, next_build, next_dir, next_entry, next_installed, rest_of, rest_with_dir, start,
    whole_sweep, Ending, LoadView, PassView, ReplyView, StageView, StepView, SweepView,
};
use crate::depot_downloader::{key_of, ResolvedDepotSpec};
use crate::text::lower;
use vstd::prelude::*;

verus! {

// ---------------------------------------------------------------------------
// States that a pass can be in
// ---------------------------------------------------------------------------

/// A path below the install directory, and outside the directory of the
/// downloader's own files.
pub open spec fn is_inside(parts: Seq<Seq<char>>) -> bool {
    &&& parts.len() > 0
    &&& lower(parts[0]) != own_dir()
    &&& forall|i: int|
        0 <= i < parts.len() ==> is_real(#[trigger] parts[i]) && !is_unsafe(parts[i])
            && !parts[i].contains('/')
}

/// Directories that may be looked at for being empty.
pub open spec fn are_inside(dirs: Seq<Seq<Seq<char>>>) -> bool {
    ordered(dirs) && forall|d: Seq<Seq<char>>| #[trigger] dirs.contains(d) ==> is_inside(d)
}

/// The build at `at` is one whose files are removed.
pub open spec fn at_stale(s: PassView, at: int) -> bool {
    0 <= at < s.builds.len() && is_stale(s.installed, s.builds[at])
}

/// The path that stands for an entry, or for the backup of one.
pub open spec fn target_of(entry: EntryView, backup: bool) -> Seq<Seq<char>> {
    if backup {
        backup_of(safe_parts(entry.name)->0)
    } else {
        safe_parts(entry.name)->0
    }
}

/// A state that a pass can be in.
pub open spec fn is_sound(s: PassView) -> bool {
    match s.stage {
        StageView::Config => s.deleted == 0,
        StageView::Cached => s.deleted == 0,
        StageView::Marked => s.deleted == 0,
        StageView::Load { stale, at, load } => {
            &&& if stale {
                at_stale(s, at)
            } else {
                0 <= at < s.installed.len() && s.builds.len() > 0 && s.deleted == 0
            }
            &&& load !is Sidecar ==> key_of(s.depots, load_build(s, stale, at).0) is Some
            &&& load matches LoadView::Decode(raw) ==> raw.len() > 0
        },
        StageView::Probe { at, .. } => at_stale(s, at),
        StageView::Sweep { at, sweep, target, backup, step } => {
            &&& at_stale(s, at)
            &&& 0 <= sweep.i < sweep.entries.len()
            &&& is_orphan(s.keep, sweep.entries[sweep.i].name)
            &&& target == target_of(sweep.entries[sweep.i], backup)
            &&& backup ==> has_backup(s.keep, sweep.entries[sweep.i].name)
            &&& match step {
                StepView::Link(k) => !backup && 1 <= k < target.len(),
                _ => !sweep.entries[sweep.i].is_dir,
            }
            &&& are_inside(sweep.dirs)
        },
        StageView::Prune { at, dirs, dir } => {
            &&& at_stale(s, at)
            &&& are_inside(dirs)
            &&& is_inside(dir)
            &&& !is_pinned(s.keep, dir)
        },
        StageView::Drop { at } => 0 <= at < s.builds.len() && current_of(
            s.installed,
            s.builds[at].0,
        ) is Some,
        StageView::Done(why) => why == Ending::Finished || s.deleted == 0,
    }
}

/// The pass with another stage.
pub open spec fn at_stage(s: PassView, stage: StageView) -> PassView {
    PassView { stage, ..s }
}

pub proof fn lemma_next_build(s: PassView, at: int)
    requires
        0 <= at,
    ensures
        is_sound(at_stage(s, next_build(s.installed, s.builds, at))),
    decreases s.builds.len() - at,
{
    if at < s.builds.len() && current_of(s.installed, s.builds[at].0) is None {
        lemma_next_build(s, at + 1);
    }
}

pub proof fn lemma_next_installed(s: PassView, at: int)
    requires
        0 <= at,
        s.builds.len() > 0,
        s.deleted == 0,
    ensures
        is_sound(at_stage(s, next_installed(s.installed, s.builds, at))),
{
    lemma_next_build(s, 0);
}

pub proof fn lemma_init_inside(dirs: Seq<Seq<Seq<char>>>)
    requires
        are_inside(dirs),
        dirs.len() > 0,
    ensures
        are_inside(dirs.drop_last()),
        is_inside(dirs.last()),
{
    let init = dirs.drop_last();
    assert(dirs.contains(dirs[dirs.len() - 1]));
    assert forall|i: int, j: int| 0 <= i < j < init.len() implies path_less(init[i], init[j]) by {
        assert(path_less(dirs[i], dirs[j]));
    }
    assert forall|d: Seq<Seq<char>>| #[trigger] init.contains(d) implies is_inside(d) by {
        let k = choose|k: int| 0 <= k < init.len() && init[k] == d;
        assert(dirs[k] == d);
        assert(dirs.contains(d));
    }
}

pub proof fn lemma_next_dir(s: PassView, at: int, dirs: Seq<Seq<Seq<char>>>)
    requires
        at_stale(s, at),
        are_inside(dirs),
    ensures
        is_sound(at_stage(s, next_dir(s.keep, at, dirs))),
    decreases dirs.len(),
{
    if dirs.len() > 0 {
        let init = dirs.drop_last();
        lemma_init_inside(dirs);
        lemma_next_dir(s, at, init);
    }
}

/// The components that may be removed are inside the install directory.
pub proof fn lemma_parts_inside(name: Seq<char>)
    requires
        safe_parts(name) is Some,
    ensures
        is_inside(safe_parts(name)->0),
{
    lemma_real_parts(name);
    let parts = real_parts(name);
    assert forall|i: int| 0 <= i < parts.len() implies is_real(#[trigger] parts[i]) && !is_unsafe(
        parts[i],
    ) && !parts[i].contains('/') by {
        assert(!is_unsafe(parts[i]));
    }
}

pub proof fn lemma_parent_inside(parts: Seq<Seq<char>>)
    requires
        is_inside(parts),
        parts.len() > 1,
    ensures
        is_inside(parts.drop_last()),
{
    let dir = parts.drop_last();
    assert forall|i: int| 0 <= i < dir.len() implies is_real(#[trigger] dir[i]) && !is_unsafe(
        dir[i],
    ) && !dir[i].contains('/') by {
        assert(dir[i] == parts[i]);
        assert(is_real(parts[i]));
    }
}

pub proof fn lemma_with_dir_inside(dirs: Seq<Seq<Seq<char>>>, dir: Seq<Seq<char>>)
    requires
        are_inside(dirs),
        is_inside(dir),
    ensures
        are_inside(with_dir(dirs, dir)),
{
    lemma_with_dir(dirs, dir);
}

pub proof fn lemma_next_entry(s: PassView, at: int, sweep: SweepView)
    requires
        at_stale(s, at),
        0 <= sweep.i,
        are_inside(sweep.dirs),
    ensures
        is_sound(at_stage(s, next_entry(s.keep, at, sweep))),
    decreases sweep.entries.len() - sweep.i,
{
    if sweep.i >= sweep.entries.len() {
        lemma_next_dir(s, at, sweep.dirs);
    } else {
        let entry = sweep.entries[sweep.i];
        if !is_orphan(s.keep, entry.name) {
            lemma_next_entry(s, at, rest_of(sweep));
        } else {
            let parts = safe_parts(entry.name)->0;
            lemma_parts_inside(entry.name);
            if parts.len() == 1 && entry.is_dir {
                lemma_with_dir_inside(sweep.dirs, parts);
                lemma_next_entry(s, at, rest_with_dir(sweep, parts));
            }
        }
    }
}

proof fn lemma_loaded(s: PassView, stale: bool, at: int, entries: Option<Seq<EntryView>>)
    requires
        if stale {
            at_stale(s, at)
        } else {
            0 <= at && s.builds.len() > 0 && s.deleted == 0
        },
    ensures
        is_sound(loaded(s, stale, at, entries)),
{
    if let Some(entries) = entries {
        if stale {
            assert(are_inside(whole_sweep(entries).dirs));
            lemma_next_entry(s, at, whole_sweep(entries));
        } else {
            lemma_next_installed(PassView { keep: keep_with(s.keep, entries), ..s }, at + 1);
        }
    }
}

proof fn lemma_swept(s: PassView, reply: ReplyView)
    requires
        is_sound(s),
        s.stage is Sweep,
    ensures
        is_sound(next(s, reply)),
{
    if let StageView::Sweep { at, sweep, target, backup, step } = s.stage {
        let entry = sweep.entries[sweep.i];
        let parts = safe_parts(entry.name)->0;
        let more = PassView { deleted: s.deleted + 1, ..s };
        lemma_parts_inside(entry.name);
        lemma_next_entry(s, at, rest_of(sweep));
        lemma_next_entry(more, at, rest_of(sweep));
        lemma_with_dir_inside(sweep.dirs, parts);
        lemma_next_entry(s, at, rest_with_dir(sweep, parts));
        if target.len() > 1 {
            assert(target.drop_last() == parts.drop_last());
            lemma_parent_inside(parts);
            lemma_with_dir_inside(sweep.dirs, parts.drop_last());
            lemma_next_entry(s, at, rest_with_dir(sweep, target.drop_last()));
            lemma_next_entry(more, at, rest_with_dir(sweep, target.drop_last()));
        }
    }
}

/// A pass starts in a sound state.
pub proof fn law_start_is_sound(depots: Seq<ResolvedDepotSpec>)
    ensures
        is_sound(start(depots)),
{
}

/// A pass stays in sound states, whatever it is answered.
pub proof fn law_next_is_sound(s: PassView, reply: ReplyView)
    requires
        is_sound(s),
    ensures
        is_sound(next(s, reply)),
{
    match s.stage {
        StageView::Marked => {
            if let ReplyView::Names(names) = reply {
                let builds = with_builds(s.builds, marked_builds(names));
                if builds.len() > 0 {
                    lemma_next_installed(PassView { builds, ..s }, 0);
                }
            }
        },
        StageView::Load { stale, at, load } => {
            match reply {
                ReplyView::Text(Some(text)) => {
                    lemma_loaded(s, stale, at, read_filelist(text));
                },
                ReplyView::Manifest(Some(files)) => {
                    lemma_loaded(s, stale, at, Some(manifest_entries(files)));
                },
                _ => {},
            }
            lemma_loaded(s, stale, at, None);
        },
        StageView::Probe { at, manifest } => {
            lemma_next_build(s, at + 1);
        },
        StageView::Sweep { .. } => {
            lemma_swept(s, reply);
        },
        StageView::Prune { at, dirs, dir } => {
            lemma_next_dir(s, at, dirs);
            if dir.len() > 1 {
                lemma_parent_inside(dir);
            }
        },
        StageView::Drop { at } => {
            lemma_next_build(s, at + 1);
        },
        _ => {},
    }
}

} // verus!
