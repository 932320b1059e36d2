//! The files that a depot build leaves in the config directory: their names,
//! and the builds that a directory listing speaks of. A build is a depot id
//! with a manifest id.
use crate::text::{
    decimal, decimal_text, parse_decimal, parse_decimal_text, split, split_text, strip_suffix,
    strip_suffix_text, texts,
};
use vstd::prelude::*;

verus! {

pub const STALE_CLEANUP_SUFFIX: &'static str = ".stalecleanup";

pub const FILELIST_SUFFIX: &'static str = ".filelist";

pub const MANIFEST_SUFFIX: &'static str = ".manifest";

// ---------------------------------------------------------------------------
// Names
// ---------------------------------------------------------------------------

/// The name of a build's file with the given suffix.
pub open spec fn build_file(depot_id: u32, manifest_id: u64, suffix: Seq<char>) -> Seq<char> {
    decimal(depot_id as nat).push('_') + decimal(manifest_id as nat) + suffix
}

/// The path of `name` in directory `dir`.
pub open spec fn path_in(dir: Seq<char>, name: Seq<char>) -> Seq<char> {
    if dir.len() == 0 || dir.last() == '/' {
        dir + name
    } else {
        dir.push('/') + name
    }
}

/// The name of a build's file with the given suffix.
pub fn build_file_name(depot_id: u32, manifest_id: u64, suffix: &str) -> (name: String)
    ensures
        name@ == build_file(depot_id, manifest_id, suffix@),
{
    let mut name = decimal_text(depot_id as u64);
    name.push('_');
    name.append(decimal_text(manifest_id).as_str());
    name.append(suffix);
    name
}

/// The path of `name` in directory `dir`.
fn join_path(dir: &str, name: &str) -> (path: String)
    ensures
        path@ == path_in(dir@, name@),
{
    let chars = crate::text::chars_of(dir);
    let mut path = dir.to_owned();
    if chars.len() > 0 && chars[chars.len() - 1] != '/' {
        path.push('/');
    }
    path.append(name);
    path
}

/// The name of the marker that a build's files are to be cleaned up.
pub fn stale_cleanup_marker_name(depot_id: u32, manifest_id: u64) -> (name: String)
    ensures
        name@ == build_file(depot_id, manifest_id, STALE_CLEANUP_SUFFIX@),
{
    build_file_name(depot_id, manifest_id, STALE_CLEANUP_SUFFIX)
}

/// The path of that marker in the config directory.
pub fn stale_cleanup_marker_path(config_dir: &str, depot_id: u32, manifest_id: u64) -> (path:
    String)
    ensures
        path@ == path_in(config_dir@, build_file(depot_id, manifest_id, STALE_CLEANUP_SUFFIX@)),
{
    join_path(config_dir, stale_cleanup_marker_name(depot_id, manifest_id).as_str())
}

/// The path of a build's file list in the config directory.
pub fn filelist_sidecar_path(config_dir: &str, depot_id: u32, manifest_id: u64) -> (path: String)
    ensures
        path@ == path_in(config_dir@, build_file(depot_id, manifest_id, FILELIST_SUFFIX@)),
{
    join_path(config_dir, build_file_name(depot_id, manifest_id, FILELIST_SUFFIX).as_str())
}

// ---------------------------------------------------------------------------
// Builds by name
// ---------------------------------------------------------------------------

/// The build that a file name without its suffix stands for: the two ids in
/// decimal, with an underscore between them.
pub open spec fn build_of_stem(stem: Seq<char>) -> Option<(u32, u64)> {
    let pieces = split(stem, '_');
    if pieces.len() == 2 {
        match (
            parse_decimal(pieces[0], u32::MAX as nat),
            parse_decimal(pieces[1], u64::MAX as nat),
        ) {
            (Some(depot_id), Some(manifest_id)) => Some((depot_id as u32, manifest_id as u64)),
            _ => None,
        }
    } else {
        None
    }
}

/// The build whose cleanup marker has this name.
pub open spec fn marker_build(name: Seq<char>) -> Option<(u32, u64)> {
    match strip_suffix(name, STALE_CLEANUP_SUFFIX@) {
        Some(stem) => build_of_stem(stem),
        None => None,
    }
}

/// The build whose file list or manifest has this name.
pub open spec fn cached_build(name: Seq<char>) -> Option<(u32, u64)> {
    match strip_suffix(name, FILELIST_SUFFIX@) {
        Some(stem) => build_of_stem(stem),
        None => match strip_suffix(name, MANIFEST_SUFFIX@) {
            Some(stem) => build_of_stem(stem),
            None => None,
        },
    }
}

fn parse_stem(stem: &str) -> (build: Option<(u32, u64)>)
    ensures
        build == build_of_stem(stem@),
{
    let pieces = split_text(stem, '_');
    proof {
        assert(texts(pieces@).len() == pieces@.len());
    }
    if pieces.len() != 2 {
        return None;
    }
    proof {
        assert(texts(pieces@)[0] == pieces@[0]@);
        assert(texts(pieces@)[1] == pieces@[1]@);
    }
    let depot = parse_decimal_text(pieces[0].as_str(), u32::MAX as u64);
    let manifest = parse_decimal_text(pieces[1].as_str(), u64::MAX);
    match (depot, manifest) {
        (Some(depot_id), Some(manifest_id)) => Some((depot_id as u32, manifest_id)),
        _ => None,
    }
}

fn parse_marker_name(name: &str) -> (build: Option<(u32, u64)>)
    ensures
        build == marker_build(name@),
{
    match strip_suffix_text(name, STALE_CLEANUP_SUFFIX) {
        Some(stem) => parse_stem(stem.as_str()),
        None => None,
    }
}

fn parse_cached_name(name: &str) -> (build: Option<(u32, u64)>)
    ensures
        build == cached_build(name@),
{
    match strip_suffix_text(name, FILELIST_SUFFIX) {
        Some(stem) => parse_stem(stem.as_str()),
        None => match strip_suffix_text(name, MANIFEST_SUFFIX) {
            Some(stem) => parse_stem(stem.as_str()),
            None => None,
        },
    }
}

// ---------------------------------------------------------------------------
// Sets of builds
// ---------------------------------------------------------------------------

/// The order of builds: by depot id, then by manifest id.
pub open spec fn build_less(a: (u32, u64), b: (u32, u64)) -> bool {
    a.0 < b.0 || (a.0 == b.0 && a.1 < b.1)
}

/// A set of builds is kept in ascending order, each build once.
pub open spec fn ascending(builds: Seq<(u32, u64)>) -> bool {
    forall|i: int, j: int| 0 <= i < j < builds.len() ==> build_less(builds[i], builds[j])
}

/// The set with one more build.
pub open spec fn with_build(builds: Seq<(u32, u64)>, build: (u32, u64)) -> Seq<(u32, u64)>
    decreases builds.len(),
{
    if builds.len() == 0 {
        seq![build]
    } else if builds.last() == build {
        builds
    } else if build_less(builds.last(), build) {
        builds.push(build)
    } else {
        with_build(builds.drop_last(), build).push(builds.last())
    }
}

/// The set with every build of another.
pub open spec fn with_builds(builds: Seq<(u32, u64)>, more: Seq<(u32, u64)>) -> Seq<(u32, u64)>
    decreases more.len(),
{
    if more.len() == 0 {
        builds
    } else {
        with_build(with_builds(builds, more.drop_last()), more.last())
    }
}

/// The builds that have a marker among these names.
pub open spec fn marked_builds(names: Seq<Seq<char>>) -> Seq<(u32, u64)>
    decreases names.len(),
{
    if names.len() == 0 {
        Seq::empty()
    } else {
        let before = marked_builds(names.drop_last());
        match marker_build(names.last()) {
            Some(build) => with_build(before, build),
            None => before,
        }
    }
}

/// The builds that have a file list or a manifest among these names.
pub open spec fn cached_builds(names: Seq<Seq<char>>) -> Seq<(u32, u64)>
    decreases names.len(),
{
    if names.len() == 0 {
        Seq::empty()
    } else {
        let before = cached_builds(names.drop_last());
        match cached_build(names.last()) {
            Some(build) => with_build(before, build),
            None => before,
        }
    }
}

pub proof fn lemma_with_build(builds: Seq<(u32, u64)>, build: (u32, u64))
    requires
        ascending(builds),
    ensures
        ascending(with_build(builds, build)),
        forall|b: (u32, u64)|
            #[trigger] with_build(builds, build).contains(b) <==> builds.contains(b) || b == build,
    decreases builds.len(),
{
    let out = with_build(builds, build);
    if builds.len() == 0 {
        lemma_contains_push(builds, build);
        assert(out == builds.push(build));
    } else if builds.last() == build {
        assert(builds[builds.len() - 1] == build);
    } else if build_less(builds.last(), build) {
        assert forall|i: int, j: int| 0 <= i < j < out.len() implies build_less(out[i], out[j]) by {
            if j == builds.len() {
                assert(i == builds.len() - 1 || build_less(builds[i], builds[builds.len() - 1]));
            }
        }
        lemma_contains_push(builds, build);
    } else {
        let init = builds.drop_last();
        lemma_with_build(init, build);
        let inner = with_build(init, build);
        assert forall|i: int, j: int| 0 <= i < j < out.len() implies build_less(out[i], out[j]) by {
            if j == inner.len() {
                assert(inner.contains(inner[i]));
                if inner[i] != build {
                    let k = choose|k: int| 0 <= k < init.len() && init[k] == inner[i];
                    assert(build_less(builds[k], builds[builds.len() - 1]));
                }
            } else {
                assert(build_less(inner[i], inner[j]));
            }
        }
        lemma_contains_push(inner, builds.last());
        lemma_contains_push(init, builds.last());
        assert(init.push(builds.last()) == builds);
    }
}

proof fn lemma_contains_push(builds: Seq<(u32, u64)>, build: (u32, u64))
    ensures
        forall|b: (u32, u64)| #[trigger]
            builds.push(build).contains(b) <==> builds.contains(b) || b == build,
{
    let out = builds.push(build);
    assert forall|b: (u32, u64)| out.contains(b) <==> builds.contains(b) || b == build by {
        if builds.contains(b) {
            let k = choose|k: int| 0 <= k < builds.len() && builds[k] == b;
            assert(out[k] == b);
        }
        if b == build {
            assert(out[builds.len() as int] == b);
        }
    }
}

pub proof fn lemma_with_builds(builds: Seq<(u32, u64)>, more: Seq<(u32, u64)>)
    requires
        ascending(builds),
    ensures
        ascending(with_builds(builds, more)),
        forall|b: (u32, u64)|
            #[trigger] with_builds(builds, more).contains(b) <==> builds.contains(b)
                || more.contains(b),
    decreases more.len(),
{
    if more.len() > 0 {
        lemma_with_builds(builds, more.drop_last());
        lemma_with_build(with_builds(builds, more.drop_last()), more.last());
        lemma_contains_push(more.drop_last(), more.last());
        assert(more.drop_last().push(more.last()) == more);
    }
}

/// The marked builds are those of the marker names, in ascending order.
pub proof fn lemma_marked_builds(names: Seq<Seq<char>>)
    ensures
        ascending(marked_builds(names)),
        forall|b: (u32, u64)|
            marked_builds(names).contains(b) <==> exists|i: int|
                0 <= i < names.len() && #[trigger] marker_build(names[i]) == Some(b),
    decreases names.len(),
{
    if names.len() > 0 {
        let init = names.drop_last();
        let before = marked_builds(init);
        lemma_marked_builds(init);
        if let Some(build) = marker_build(names.last()) {
            lemma_with_build(before, build);
        }
        assert forall|b: (u32, u64)|
            marked_builds(names).contains(b) <==> exists|i: int|
                0 <= i < names.len() && #[trigger] marker_build(names[i]) == Some(b) by {
            if before.contains(b) {
                let i = choose|i: int| 0 <= i < init.len() && #[trigger] marker_build(init[i]) == Some(b);
                assert(marker_build(names[i]) == Some(b));
            }
            if marker_build(names.last()) == Some(b) {
                assert(marker_build(names[names.len() - 1]) == Some(b));
            }
            if exists|i: int| 0 <= i < names.len() && #[trigger] marker_build(names[i]) == Some(b) {
                let i = choose|i: int| 0 <= i < names.len() && #[trigger] marker_build(names[i]) == Some(b);
                if i < init.len() {
                    assert(marker_build(init[i]) == Some(b));
                }
            }
        }
    }
}

/// The cached builds are those of the file list and manifest names, in
/// ascending order.
pub proof fn lemma_cached_builds(names: Seq<Seq<char>>)
    ensures
        ascending(cached_builds(names)),
        forall|b: (u32, u64)|
            cached_builds(names).contains(b) <==> exists|i: int|
                0 <= i < names.len() && #[trigger] cached_build(names[i]) == Some(b),
    decreases names.len(),
{
    if names.len() > 0 {
        let init = names.drop_last();
        let before = cached_builds(init);
        lemma_cached_builds(init);
        if let Some(build) = cached_build(names.last()) {
            lemma_with_build(before, build);
        }
        assert forall|b: (u32, u64)|
            cached_builds(names).contains(b) <==> exists|i: int|
                0 <= i < names.len() && #[trigger] cached_build(names[i]) == Some(b) by {
            if before.contains(b) {
                let i = choose|i: int| 0 <= i < init.len() && #[trigger] cached_build(init[i]) == Some(b);
                assert(cached_build(names[i]) == Some(b));
            }
            if cached_build(names.last()) == Some(b) {
                assert(cached_build(names[names.len() - 1]) == Some(b));
            }
            if exists|i: int| 0 <= i < names.len() && #[trigger] cached_build(names[i]) == Some(b) {
                let i = choose|i: int| 0 <= i < names.len() && #[trigger] cached_build(names[i]) == Some(b);
                if i < init.len() {
                    assert(cached_build(init[i]) == Some(b));
                }
            }
        }
    }
}

/// Adds a build to a set of builds.
fn insert_build(builds: &mut Vec<(u32, u64)>, build: (u32, u64))
    ensures
        final(builds)@ == with_build(old(builds)@, build),
{
    let ghost all = builds@;
    let mut at: usize = builds.len();
    proof {
        assert(all.take(at as int) == all);
        assert(with_build(all, build) + all.skip(at as int) == with_build(all, build));
    }
    while at > 0
        invariant
            all == old(builds)@,
            builds@ == all,
            at <= all.len(),
            with_build(all, build) == with_build(all.take(at as int), build) + all.skip(at as int),
        decreases at,
    {
        let here = builds[at - 1];
        proof {
            assert(all.take(at as int).last() == here);
            assert(all.take(at as int).drop_last() == all.take(at - 1));
            assert(all.take(at as int) + all.skip(at as int) == all);
        }
        if here.0 == build.0 && here.1 == build.1 {
            return;
        }
        if here.0 < build.0 || (here.0 == build.0 && here.1 < build.1) {
            builds.insert(at, build);
            proof {
                assert(builds@ == all.take(at as int).push(build) + all.skip(at as int));
            }
            return;
        }
        proof {
            assert(with_build(all.take(at - 1), build).push(here) + all.skip(at as int)
                == with_build(all.take(at - 1), build) + all.skip(at - 1)) by {
                assert(all.skip(at - 1) == seq![here] + all.skip(at as int));
            }
        }
        at -= 1;
    }
    builds.insert(0, build);
    proof {
        assert(all.take(0) == Seq::<(u32, u64)>::empty());
        assert(builds@ == seq![build] + all.skip(0));
    }
}

/// Adds every build of one set to another.
pub fn insert_builds(builds: &mut Vec<(u32, u64)>, more: &Vec<(u32, u64)>)
    ensures
        final(builds)@ == with_builds(old(builds)@, more@),
{
    let ghost all = builds@;
    for i in 0..more.len()
        invariant
            builds@ == with_builds(all, more@.take(i as int)),
    {
        proof {
            assert(more@.take(i + 1).drop_last() == more@.take(i as int));
            assert(more@.take(i + 1).last() == more@[i as int]);
        }
        insert_build(builds, more[i]);
    }
    proof {
        assert(more@.take(more@.len() as int) == more@);
    }
}

/// The builds that have a cleanup marker among the names in the config
/// directory.
pub fn pending_cleanup_markers(names: &Vec<String>) -> (markers: Vec<(u32, u64)>)
    ensures
        markers@ == marked_builds(texts(names@)),
        ascending(markers@),
        forall|b: (u32, u64)|
            markers@.contains(b) <==> exists|i: int|
                0 <= i < names@.len() && #[trigger] marker_build(names@[i]@) == Some(b),
{
    let mut markers: Vec<(u32, u64)> = Vec::new();
    for i in 0..names.len()
        invariant
            markers@ == marked_builds(texts(names@).take(i as int)),
    {
        proof {
            assert(texts(names@).take(i + 1).drop_last() == texts(names@).take(i as int));
            assert(texts(names@).take(i + 1).last() == names@[i as int]@);
        }
        if let Some(build) = parse_marker_name(names[i].as_str()) {
            insert_build(&mut markers, build);
        }
    }
    proof {
        let all = texts(names@);
        assert(all.take(all.len() as int) == all);
        lemma_marked_builds(all);
        assert forall|b: (u32, u64)|
            markers@.contains(b) <==> exists|i: int|
                0 <= i < names@.len() && #[trigger] marker_build(names@[i]@) == Some(b) by {
            if markers@.contains(b) {
                let i = choose|i: int| 0 <= i < all.len() && #[trigger] marker_build(all[i]) == Some(b);
                assert(marker_build(names@[i]@) == Some(b));
            }
            if exists|i: int| 0 <= i < names@.len() && #[trigger] marker_build(names@[i]@) == Some(b) {
                let i = choose|i: int|
                    0 <= i < names@.len() && #[trigger] marker_build(names@[i]@) == Some(b);
                assert(marker_build(all[i]) == Some(b));
            }
        }
    }
    markers
}

/// Every build with a cached file list or manifest among the names in the
/// config directory: the builds whose files can be compared with the current
/// install.
pub fn collect_cached_builds(names: &Vec<String>) -> (builds: Vec<(u32, u64)>)
    ensures
        builds@ == cached_builds(texts(names@)),
        ascending(builds@),
        forall|b: (u32, u64)|
            builds@.contains(b) <==> exists|i: int|
                0 <= i < names@.len() && #[trigger] cached_build(names@[i]@) == Some(b),
{
    let mut builds: Vec<(u32, u64)> = Vec::new();
    for i in 0..names.len()
        invariant
            builds@ == cached_builds(texts(names@).take(i as int)),
    {
        proof {
            assert(texts(names@).take(i + 1).drop_last() == texts(names@).take(i as int));
            assert(texts(names@).take(i + 1).last() == names@[i as int]@);
        }
        if let Some(build) = parse_cached_name(names[i].as_str()) {
            insert_build(&mut builds, build);
        }
    }
    proof {
        let all = texts(names@);
        assert(all.take(all.len() as int) == all);
        lemma_cached_builds(all);
        assert forall|b: (u32, u64)|
            builds@.contains(b) <==> exists|i: int|
                0 <= i < names@.len() && #[trigger] cached_build(names@[i]@) == Some(b) by {
            if builds@.contains(b) {
                let i = choose|i: int| 0 <= i < all.len() && #[trigger] cached_build(all[i]) == Some(b);
                assert(cached_build(names@[i]@) == Some(b));
            }
            if exists|i: int| 0 <= i < names@.len() && #[trigger] cached_build(names@[i]@) == Some(b) {
                let i = choose|i: int|
                    0 <= i < names@.len() && #[trigger] cached_build(names@[i]@) == Some(b);
                assert(cached_build(all[i]) == Some(b));
            }
        }
    }
    builds
}

// ---------------------------------------------------------------------------
// Laws
// ---------------------------------------------------------------------------

proof fn lemma_digits_hold_no(s: Seq<char>, c: char)
    requires
        crate::text::all_digits(s),
        !crate::text::is_digit(c),
    ensures
        !s.contains(c),
{
    if s.contains(c) {
        let i = choose|i: int| 0 <= i < s.len() && s[i] == c;
        assert(crate::text::is_digit(s[i]));
    }
}

/// The two ids are read back from the name of a build's file.
pub proof fn law_stem_names_build(depot_id: u32, manifest_id: u64, suffix: Seq<char>)
    ensures
        strip_suffix(build_file(depot_id, manifest_id, suffix), suffix) matches Some(stem)
            && build_of_stem(stem) == Some((depot_id, manifest_id)),
{
    let first = decimal(depot_id as nat);
    let second = decimal(manifest_id as nat);
    let stem = first.push('_') + second;
    let name = stem + suffix;
    assert(name.skip(name.len() - suffix.len()) == suffix);
    assert(name.take(name.len() - suffix.len()) == stem);
    crate::text::lemma_decimal(depot_id as nat);
    crate::text::lemma_decimal(manifest_id as nat);
    lemma_digits_hold_no(first, '_');
    lemma_digits_hold_no(second, '_');
    crate::text::lemma_split_single(first, '_');
    crate::text::lemma_split_append(first, second, '_');
    assert(split(stem, '_') == seq![first, second]);
    crate::text::lemma_parse_decimal(depot_id as nat, u32::MAX as nat);
    crate::text::lemma_parse_decimal(manifest_id as nat, u64::MAX as nat);
}

/// A marker is found under the build that it was written for, and is taken
/// for no cached file.
pub proof fn law_marker_names_build(depot_id: u32, manifest_id: u64)
    ensures
        ({
            let name = build_file(depot_id, manifest_id, STALE_CLEANUP_SUFFIX@);
            &&& marker_build(name) == Some((depot_id, manifest_id))
            &&& cached_build(name) is None
        }),
{
    law_stem_names_build(depot_id, manifest_id, STALE_CLEANUP_SUFFIX@);
    lemma_last_of_name(depot_id, manifest_id, STALE_CLEANUP_SUFFIX@);
    reveal_strlit(".stalecleanup");
    reveal_strlit(".filelist");
    reveal_strlit(".manifest");
    let name = build_file(depot_id, manifest_id, STALE_CLEANUP_SUFFIX@);
    lemma_other_suffix(name, FILELIST_SUFFIX@);
    lemma_other_suffix(name, MANIFEST_SUFFIX@);
}

/// A file list, and a manifest, is found under the build that it was written
/// for, and is taken for no marker.
pub proof fn law_cached_file_names_build(depot_id: u32, manifest_id: u64)
    ensures
        ({
            let name = build_file(depot_id, manifest_id, FILELIST_SUFFIX@);
            &&& cached_build(name) == Some((depot_id, manifest_id))
            &&& marker_build(name) is None
        }),
        ({
            let name = build_file(depot_id, manifest_id, MANIFEST_SUFFIX@);
            &&& cached_build(name) == Some((depot_id, manifest_id))
            &&& marker_build(name) is None
        }),
{
    law_stem_names_build(depot_id, manifest_id, FILELIST_SUFFIX@);
    law_stem_names_build(depot_id, manifest_id, MANIFEST_SUFFIX@);
    lemma_last_of_name(depot_id, manifest_id, FILELIST_SUFFIX@);
    lemma_last_of_name(depot_id, manifest_id, MANIFEST_SUFFIX@);
    reveal_strlit(".stalecleanup");
    reveal_strlit(".filelist");
    reveal_strlit(".manifest");
    lemma_other_suffix(
        build_file(depot_id, manifest_id, FILELIST_SUFFIX@),
        STALE_CLEANUP_SUFFIX@,
    );
    let manifest = build_file(depot_id, manifest_id, MANIFEST_SUFFIX@);
    lemma_other_suffix(manifest, STALE_CLEANUP_SUFFIX@);
    // Both suffixes have nine characters, so one is not a suffix of the other.
    assert(manifest.skip(manifest.len() - 9) == MANIFEST_SUFFIX@);
    assert(MANIFEST_SUFFIX@[1] == 'm');
    assert(FILELIST_SUFFIX@[1] == 'f');
    assert(strip_suffix(manifest, FILELIST_SUFFIX@) is None);
}

proof fn lemma_last_of_name(depot_id: u32, manifest_id: u64, suffix: Seq<char>)
    ensures
        suffix.len() > 0 ==> build_file(depot_id, manifest_id, suffix).last() == suffix.last(),
        build_file(depot_id, manifest_id, suffix).len() >= suffix.len(),
{
}

proof fn lemma_other_suffix(name: Seq<char>, suffix: Seq<char>)
    requires
        suffix.len() > 0,
        name.len() > 0,
        name.last() != suffix.last(),
    ensures
        strip_suffix(name, suffix) is None,
{
    if suffix.len() <= name.len() && name.skip(name.len() - suffix.len()) == suffix {
        assert(name.skip(name.len() - suffix.len()).last() == name.last());
    }
}

// ---------------------------------------------------------------------------
// Laws: names by their characters
// ---------------------------------------------------------------------------

/// The names of a build's files: the two ids in decimal, an underscore between
/// them, and a suffix.
pub proof fn law_build_file_names(depot_id: u32, manifest_id: u64)
    ensures
        ({
            let stem = decimal(depot_id as nat) + seq!['_'] + decimal(manifest_id as nat);
            &&& build_file(depot_id, manifest_id, STALE_CLEANUP_SUFFIX@) == stem + seq![
                '.',
                's',
                't',
                'a',
                'l',
                'e',
                'c',
                'l',
                'e',
                'a',
                'n',
                'u',
                'p',
            ]
            &&& build_file(depot_id, manifest_id, FILELIST_SUFFIX@) == stem + seq![
                '.',
                'f',
                'i',
                'l',
                'e',
                'l',
                'i',
                's',
                't',
            ]
            &&& build_file(depot_id, manifest_id, MANIFEST_SUFFIX@) == stem + seq![
                '.',
                'm',
                'a',
                'n',
                'i',
                'f',
                'e',
                's',
                't',
            ]
        }),
{
    reveal_strlit(".stalecleanup");
    reveal_strlit(".filelist");
    reveal_strlit(".manifest");
    let stem = decimal(depot_id as nat) + seq!['_'] + decimal(manifest_id as nat);
    assert(decimal(depot_id as nat).push('_') + decimal(manifest_id as nat) == stem);
    assert(STALE_CLEANUP_SUFFIX@ =~= seq![
        '.',
        's',
        't',
        'a',
        'l',
        'e',
        'c',
        'l',
        'e',
        'a',
        'n',
        'u',
        'p',
    ]);
    assert(FILELIST_SUFFIX@ =~= seq!['.', 'f', 'i', 'l', 'e', 'l', 'i', 's', 't']);
    assert(MANIFEST_SUFFIX@ =~= seq!['.', 'm', 'a', 'n', 'i', 'f', 'e', 's', 't']);
}

/// A name in a directory: right behind a separator or an empty path, else
/// behind one separator more.
pub proof fn law_path_in(dir: Seq<char>, name: Seq<char>)
    ensures
        path_in(Seq::empty(), name) == name,
        path_in(dir.push('/'), name) == dir + seq!['/'] + name,
        dir.len() > 0 && dir[dir.len() - 1] != '/' ==> path_in(dir, name) == dir + seq!['/'] + name,
{
    assert(Seq::<char>::empty() + name == name);
    assert(dir.push('/') == dir + seq!['/']);
}

/// A stem of two halves without underscores stands for the build whose ids
/// they spell, if they spell numbers that fit.
pub proof fn law_stem_of_two(first: Seq<char>, second: Seq<char>)
    requires
        forall|k: int| 0 <= k < first.len() ==> first[k] != '_',
        forall|k: int| 0 <= k < second.len() ==> second[k] != '_',
    ensures
        build_of_stem(first + seq!['_'] + second) == match (
            parse_decimal(first, 0xffff_ffff),
            parse_decimal(second, 0xffff_ffff_ffff_ffff),
        ) {
            (Some(depot_id), Some(manifest_id)) => Some((depot_id as u32, manifest_id as u64)),
            _ => None,
        },
{
    crate::text::laws::law_split_apart(first, second, '_');
    crate::text::laws::law_split_whole(first, '_');
    crate::text::laws::law_split_whole(second, '_');
    assert(first + seq!['_'] + second == first.push('_') + second);
    assert(seq![first] + seq![second] == seq![first, second]);
}

/// A stem that stands for a build has two halves without underscores, with one
/// underscore between them.
pub proof fn law_stem_has_two_halves(stem: Seq<char>)
    requires
        build_of_stem(stem) is Some,
    ensures
        exists|first: Seq<char>, second: Seq<char>| #[trigger]
            (first + seq!['_'] + second) == stem && !first.contains('_') && !second.contains('_'),
{
    let pieces = split(stem, '_');
    crate::text::lemma_split_pieces(stem, '_');
    crate::text::lemma_join_split(stem, '_');
    let first = pieces[0];
    let second = pieces[1];
    assert(pieces == seq![first, second]);
    crate::text::laws::law_join(seq![first], second, '_');
    assert(seq![first].push(second) == pieces);
    assert(first + seq!['_'] + second == stem);
}

/// A marker's name is the stem of its build and the suffix of markers; no
/// other name is a marker.
pub proof fn law_marker_names(stem: Seq<char>, name: Seq<char>)
    ensures
        ({
            let suffix = seq!['.', 's', 't', 'a', 'l', 'e', 'c', 'l', 'e', 'a', 'n', 'u', 'p'];
            &&& marker_build(stem + suffix) == build_of_stem(stem)
            &&& marker_build(name) is Some ==> name.len() >= 13 && name == name.take(
                name.len() - 13,
            ) + suffix
        }),
{
    reveal_strlit(".stalecleanup");
    let suffix = seq!['.', 's', 't', 'a', 'l', 'e', 'c', 'l', 'e', 'a', 'n', 'u', 'p'];
    assert(STALE_CLEANUP_SUFFIX@ =~= suffix);
    crate::text::laws::law_strip_suffix(stem, suffix);
    if marker_build(name) is Some {
        let front = strip_suffix(name, suffix)->0;
        assert(name == front + suffix);
        assert(name.take(name.len() - 13) == front);
    }
}

/// A cached file's name is the stem of its build and the suffix of file lists
/// or of manifests; no other name is a cached file.
pub proof fn law_cached_names(stem: Seq<char>, name: Seq<char>)
    ensures
        ({
            let list = seq!['.', 'f', 'i', 'l', 'e', 'l', 'i', 's', 't'];
            let manifest = seq!['.', 'm', 'a', 'n', 'i', 'f', 'e', 's', 't'];
            &&& cached_build(stem + list) == build_of_stem(stem)
            &&& cached_build(stem + manifest) == build_of_stem(stem)
            &&& cached_build(name) is Some ==> name.len() >= 9 && (name == name.take(
                name.len() - 9,
            ) + list || name == name.take(name.len() - 9) + manifest)
        }),
{
    reveal_strlit(".filelist");
    reveal_strlit(".manifest");
    let list = seq!['.', 'f', 'i', 'l', 'e', 'l', 'i', 's', 't'];
    let manifest = seq!['.', 'm', 'a', 'n', 'i', 'f', 'e', 's', 't'];
    assert(FILELIST_SUFFIX@ =~= list);
    assert(MANIFEST_SUFFIX@ =~= manifest);
    crate::text::laws::law_strip_suffix(stem, list);
    crate::text::laws::law_strip_suffix(stem, manifest);
    if strip_suffix(stem + manifest, list) is Some {
        let front = strip_suffix(stem + manifest, list)->0;
        assert(stem + manifest == front + list);
        assert((stem + manifest)[stem.len() as int + 1] == 'm');
        assert((front + list)[stem.len() as int + 1] == 'f');
    }
    if cached_build(name) is Some {
        if strip_suffix(name, list) is Some {
            let front = strip_suffix(name, list)->0;
            assert(name == front + list);
            assert(name.take(name.len() - 9) == front);
        } else {
            let front = strip_suffix(name, manifest)->0;
            assert(name == front + manifest);
            assert(name.take(name.len() - 9) == front);
        }
    }
}

/// Pending builds come each once, in the order of their depots, and of their
/// manifests where the depot is the same.
pub proof fn law_pending_builds(names: Seq<Seq<char>>, i: int, j: int)
    requires
        0 <= i < j < marked_builds(names).len(),
    ensures
        ({
            let (a, b) = (marked_builds(names)[i], marked_builds(names)[j]);
            a.0 < b.0 || (a.0 == b.0 && a.1 < b.1)
        }),
{
    lemma_marked_builds(names);
    assert(build_less(marked_builds(names)[i], marked_builds(names)[j]));
}

/// Cached builds come each once, in the same order.
pub proof fn law_cached_builds(names: Seq<Seq<char>>, i: int, j: int)
    requires
        0 <= i < j < cached_builds(names).len(),
    ensures
        ({
            let (a, b) = (cached_builds(names)[i], cached_builds(names)[j]);
            a.0 < b.0 || (a.0 == b.0 && a.1 < b.1)
        }),
{
    lemma_cached_builds(names);
    assert(build_less(cached_builds(names)[i], cached_builds(names)[j]));
}

/// A build is found in a listing if and only if one of the names is that of its
/// marker, or of a cached file of it.
pub proof fn law_found_builds(names: Seq<Seq<char>>, build: (u32, u64))
    ensures
        marked_builds(names).contains(build) <==> exists|k: int|
            0 <= k < names.len() && #[trigger] marker_build(names[k]) == Some(build),
        cached_builds(names).contains(build) <==> exists|k: int|
            0 <= k < names.len() && #[trigger] cached_build(names[k]) == Some(build),
        with_builds(cached_builds(names), marked_builds(names)).contains(build) <==> (
        cached_builds(names).contains(build) || marked_builds(names).contains(build)),
{
    lemma_marked_builds(names);
    lemma_cached_builds(names);
    lemma_with_builds(cached_builds(names), marked_builds(names));
}

/// Joined sets of builds are in the same order, each build once.
pub proof fn law_joined_builds_in_order(names: Seq<Seq<char>>, i: int, j: int)
    requires
        0 <= i < j < with_builds(cached_builds(names), marked_builds(names)).len(),
    ensures
        ({
            let all = with_builds(cached_builds(names), marked_builds(names));
            all[i].0 < all[j].0 || (all[i].0 == all[j].0 && all[i].1 < all[j].1)
        }),
{
    let all = with_builds(cached_builds(names), marked_builds(names));
    lemma_cached_builds(names);
    lemma_with_builds(cached_builds(names), marked_builds(names));
    assert(build_less(all[i], all[j]));
}

} // verus!
