//! Manifest paths: the key by which two spellings of a path are compared, and
//! the components that are safe to delete under the install directory.
use crate::text::{chars_of, join, lower, lower_text, lemma_split_nonempty, split, texts};
use vstd::prelude::*;
use vstd::string::StrSliceExecFns;

verus! {

/// The texts that a sequence of string slices holds.
pub open spec fn strs(slices: Seq<&str>) -> Seq<Seq<char>> {
    slices.map_values(|s: &str| s@)
}

/// A component that names something: neither empty nor ".".
pub open spec fn is_real(part: Seq<char>) -> bool {
    part.len() > 0 && part != seq!['.']
}

/// The components of a path, without the empty ones and ".".
pub open spec fn real_parts(rel: Seq<char>) -> Seq<Seq<char>> {
    split(rel, '/').filter(|part: Seq<char>| is_real(part))
}

/// The key of the path with these components: case is folded.
pub open spec fn parts_key(parts: Seq<Seq<char>>) -> Seq<char> {
    join(parts.map_values(|part: Seq<char>| lower(part)), '/')
}

/// The key of a path as a manifest spells it.
pub open spec fn path_key(rel: Seq<char>) -> Seq<char> {
    parts_key(real_parts(rel))
}

/// An ASCII control character.
pub open spec fn is_control(c: char) -> bool {
    c < ' ' || c == '\u{7f}'
}

/// A component that could leave the install directory, or that holds a
/// control character.
pub open spec fn is_unsafe(part: Seq<char>) -> bool {
    part == seq!['.', '.'] || exists|i: int| 0 <= i < part.len() && is_control(#[trigger] part[i])
}

/// The directory of the downloader's own files, case folded.
pub open spec fn own_dir() -> Seq<char> {
    lower(".DepotDownloader"@)
}

/// Components that may be deleted under the install directory.
pub open spec fn deletable(parts: Seq<Seq<char>>) -> bool {
    &&& parts.len() > 0
    &&& forall|i: int| 0 <= i < parts.len() ==> !is_unsafe(#[trigger] parts[i])
    &&& lower(parts[0]) != own_dir()
}

/// The components of a manifest path that is safe to delete.
pub open spec fn safe_parts(rel: Seq<char>) -> Option<Seq<Seq<char>>> {
    if (rel.len() > 0 && rel[0] == '/') || rel.contains(':') || !deletable(real_parts(rel)) {
        None
    } else {
        Some(real_parts(rel))
    }
}

/// The pieces of `text` between the occurrences of `sep`.
fn split_slices<'a>(text: &'a str, sep: char) -> (pieces: Vec<&'a str>)
    ensures
        strs(pieces@) == split(text@, sep),
{
    let chars = chars_of(text);
    let mut pieces: Vec<&'a str> = Vec::new();
    let mut from: usize = 0;
    let count: usize = chars.len();
    proof {
        assert(text@.take(0) == Seq::<char>::empty());
        assert(text@.subrange(0, 0) == Seq::<char>::empty());
        assert(strs(pieces@).push(Seq::<char>::empty()) == seq![Seq::<char>::empty()]);
    }
    for i in 0..count
        invariant
            chars@ == text@,
            count == chars@.len(),
            from <= i,
            split(text@.take(i as int), sep) == strs(pieces@).push(text@.subrange(from as int, i as int)),
    {
        let ghost before = split(text@.take(i as int), sep);
        proof {
            assert(text@.take(i + 1).drop_last() == text@.take(i as int));
            assert(text@.take(i + 1).last() == text@[i as int]);
            assert(before.drop_last() == strs(pieces@));
        }
        if chars[i] == sep {
            let ghost old_pieces = pieces@;
            let piece = text.substring_char(from, i);
            pieces.push(piece);
            from = i + 1;
            proof {
                assert(strs(pieces@) == strs(old_pieces).push(piece@));
                assert(text@.subrange(from as int, i + 1) == Seq::<char>::empty());
            }
        } else {
            proof {
                assert(text@.subrange(from as int, i + 1) == text@.subrange(from as int, i as int).push(
                    text@[i as int],
                ));
            }
        }
    }
    proof {
        assert(text@.take(count as int) == text@);
    }
    let ghost old_pieces = pieces@;
    let piece = text.substring_char(from, count);
    pieces.push(piece);
    proof {
        assert(strs(pieces@) == strs(old_pieces).push(piece@));
    }
    pieces
}

/// Whether `part` names something.
fn names_something(part: &str) -> (yes: bool)
    ensures
        yes == is_real(part@),
{
    let chars = chars_of(part);
    let dot = chars.len() == 1 && chars[0] == '.';
    proof {
        if dot {
            assert(part@ == seq!['.']);
        }
    }
    chars.len() > 0 && !dot
}

/// Whether `part` is ".." or holds a control character.
fn unsafe_part(part: &str) -> (yes: bool)
    ensures
        yes == is_unsafe(part@),
{
    let chars = chars_of(part);
    if chars.len() == 2 && chars[0] == '.' && chars[1] == '.' {
        proof {
            assert(part@ == seq!['.', '.']);
        }
        return true;
    }
    for i in 0..chars.len()
        invariant
            chars@ == part@,
            forall|k: int| 0 <= k < i ==> !is_control(#[trigger] part@[k]),
    {
        if chars[i] < ' ' || chars[i] == '\u{7f}' {
            proof {
                assert(is_control(part@[i as int]));
            }
            return true;
        }
    }
    false
}

/// The components of `rel` that name something.
fn real_slices<'a>(rel: &'a str) -> (parts: Vec<&'a str>)
    ensures
        strs(parts@) == real_parts(rel@),
{
    reveal(Seq::filter);
    let pieces = split_slices(rel, '/');
    let ghost named = |part: Seq<char>| is_real(part);
    let mut parts: Vec<&'a str> = Vec::new();
    for i in 0..pieces.len()
        invariant
            strs(pieces@) == split(rel@, '/'),
            named == (|part: Seq<char>| is_real(part)),
            strs(parts@) == strs(pieces@).take(i as int).filter(named),
    {
        let piece = pieces[i];
        proof {
            reveal(Seq::filter);
            assert(strs(pieces@).take(i + 1).drop_last() == strs(pieces@).take(i as int));
            assert(strs(pieces@).take(i + 1).last() == piece@);
        }
        if names_something(piece) {
            let ghost old_parts = parts@;
            parts.push(piece);
            proof {
                assert(strs(parts@) == strs(old_parts).push(piece@));
            }
        }
    }
    proof {
        assert(strs(pieces@).take(pieces@.len() as int) == strs(pieces@));
    }
    parts
}

/// The key by which manifest paths are compared. Separators are slashes
/// already; empty components and "." are dropped, since a file can be written
/// under "./a" and "a//b", and case is folded, so that both sides of a
/// comparison normalize alike.
pub fn normalized_key(rel: &str) -> (key: String)
    ensures
        key@ == path_key(rel@),
{
    let parts = real_slices(rel);
    let ghost folded = real_parts(rel@).map_values(|part: Seq<char>| lower(part));
    let mut key = String::new();
    for i in 0..parts.len()
        invariant
            strs(parts@) == real_parts(rel@),
            folded == real_parts(rel@).map_values(|part: Seq<char>| lower(part)),
            key@ == join(folded.take(i as int), '/'),
    {
        let small = lower_text(parts[i]);
        proof {
            assert(strs(parts@)[i as int] == parts@[i as int]@);
            assert(folded[i as int] == small@);
            assert(folded.take(i + 1).drop_last() == folded.take(i as int));
            assert(folded.take(i + 1).last() == small@);
        }
        if i > 0 {
            key.push('/');
        }
        let ghost before = key@;
        key.append(small.as_str());
        proof {
            if i == 0 {
                assert(before + small@ == small@);
            }
        }
    }
    proof {
        assert(folded.take(folded.len() as int) == folded);
    }
    key
}

/// The key of the path with these components.
pub fn key_of_parts(parts: &Vec<String>) -> (key: String)
    ensures
        key@ == parts_key(texts(parts@)),
{
    let ghost folded = texts(parts@).map_values(|part: Seq<char>| lower(part));
    let mut key = String::new();
    for i in 0..parts.len()
        invariant
            folded == texts(parts@).map_values(|part: Seq<char>| lower(part)),
            key@ == join(folded.take(i as int), '/'),
    {
        let small = lower_text(parts[i].as_str());
        proof {
            assert(folded[i as int] == small@);
            assert(folded.take(i + 1).drop_last() == folded.take(i as int));
            assert(folded.take(i + 1).last() == small@);
        }
        if i > 0 {
            key.push('/');
        }
        let ghost before = key@;
        key.append(small.as_str());
        proof {
            if i == 0 {
                assert(before + small@ == small@);
            }
        }
    }
    proof {
        assert(folded.take(folded.len() as int) == folded);
    }
    key
}

/// The components of `rel`, where it is safe to delete what it names under
/// the install directory: a plain relative path, and not one into the
/// directory of the downloader's own files. Empty components and "." are
/// dropped, as in `normalized_key`.
pub fn sanitized_components<'a>(rel: &'a str) -> (parts: Option<Vec<&'a str>>)
    ensures
        match parts {
            Some(parts) => safe_parts(rel@) == Some(strs(parts@)),
            None => safe_parts(rel@) is None,
        },
{
    let chars = chars_of(rel);
    if chars.len() > 0 && chars[0] == '/' {
        return None;
    }
    for i in 0..chars.len()
        invariant
            chars@ == rel@,
            forall|k: int| 0 <= k < i ==> rel@[k] != ':',
    {
        if chars[i] == ':' {
            proof {
                assert(rel@[i as int] == ':');
            }
            return None;
        }
    }
    let parts = real_slices(rel);
    proof {
        assert(strs(parts@).len() == parts@.len());
    }
    if parts.len() == 0 {
        return None;
    }
    for i in 0..parts.len()
        invariant
            strs(parts@) == real_parts(rel@),
            forall|k: int| 0 <= k < i ==> !is_unsafe(#[trigger] real_parts(rel@)[k]),
    {
        proof {
            assert(real_parts(rel@)[i as int] == parts@[i as int]@);
        }
        if unsafe_part(parts[i]) {
            return None;
        }
    }
    let first = lower_text(parts[0]);
    proof {
        assert(real_parts(rel@)[0] == parts@[0]@);
    }
    if first == lower_text(".DepotDownloader") {
        return None;
    }
    Some(parts)
}

// ---------------------------------------------------------------------------
// Laws
// ---------------------------------------------------------------------------

/// Folding case changes neither which characters separate components nor
/// which components name something.
proof fn lemma_lower(s: Seq<char>)
    ensures
        lower(lower(s)) == lower(s),
        is_real(lower(s)) == is_real(s),
        lower(s).contains('/') == s.contains('/'),
{
    assert forall|i: int| 0 <= i < s.len() implies #[trigger] lower(s)[i] == crate::text::lower_char(
        s[i],
    ) && crate::text::lower_char(lower(s)[i]) == lower(s)[i] && ((lower(s)[i] == '/') == (s[i]
        == '/')) && ((lower(s)[i] == '.') == (s[i] == '.')) by {}
    assert(lower(lower(s)) == lower(s));
    if lower(s) == seq!['.'] {
        assert(lower(s)[0] == '.');
        assert(s == seq!['.']);
    }
    if s == seq!['.'] {
        assert(lower(s)[0] == '.');
        assert(lower(s) == seq!['.']);
    }
    if s.contains('/') {
        let i = choose|i: int| 0 <= i < s.len() && s[i] == '/';
        assert(lower(s)[i] == '/');
    }
    if lower(s).contains('/') {
        let i = choose|i: int| 0 <= i < lower(s).len() && lower(s)[i] == '/';
        assert(s[i] == '/');
    }
}

proof fn lemma_split_lower(s: Seq<char>)
    ensures
        split(lower(s), '/') == split(s, '/').map_values(|part: Seq<char>| lower(part)),
    decreases s.len(),
{
    let fold = |part: Seq<char>| lower(part);
    let pieces = split(s, '/');
    assert(lower(Seq::<char>::empty()) == Seq::<char>::empty());
    if s.len() == 0 {
        assert(lower(s) == Seq::<char>::empty());
        assert(pieces.map_values(fold) == seq![Seq::<char>::empty()]);
    } else {
        let head = split(s.drop_last(), '/');
        lemma_split_lower(s.drop_last());
        lemma_split_nonempty(s.drop_last(), '/');
        lemma_lower(s);
        assert(lower(s).drop_last() == lower(s.drop_last()));
        assert(lower(s).last() == crate::text::lower_char(s.last()));
        if s.last() == '/' {
            assert(pieces.map_values(fold) == head.map_values(fold).push(Seq::<char>::empty()));
        } else {
            let piece = head.last().push(s.last());
            assert(lower(piece) == lower(head.last()).push(crate::text::lower_char(s.last())));
            assert(head.map_values(fold).drop_last() == head.drop_last().map_values(fold));
            assert(head.map_values(fold).last() == lower(head.last()));
            assert(pieces.map_values(fold) == head.drop_last().map_values(fold).push(lower(piece)));
        }
    }
}

proof fn lemma_filter_lower(pieces: Seq<Seq<char>>)
    ensures
        pieces.map_values(|part: Seq<char>| lower(part)).filter(|part: Seq<char>| is_real(part))
            == pieces.filter(|part: Seq<char>| is_real(part)).map_values(
            |part: Seq<char>| lower(part),
        ),
    decreases pieces.len(),
{
    reveal(Seq::filter);
    let fold = |part: Seq<char>| lower(part);
    let named = |part: Seq<char>| is_real(part);
    if pieces.len() > 0 {
        lemma_filter_lower(pieces.drop_last());
        lemma_lower(pieces.last());
        assert(pieces.map_values(fold).drop_last() == pieces.drop_last().map_values(fold));
        assert(pieces.map_values(fold).last() == lower(pieces.last()));
        let kept = pieces.drop_last().filter(named);
        assert(kept.push(pieces.last()).map_values(fold) == kept.map_values(fold).push(
            lower(pieces.last()),
        ));
    }
    assert(pieces.map_values(fold).filter(named) == pieces.filter(named).map_values(fold));
}

/// The case of a path does not matter to its key.
pub proof fn law_key_ignores_case(rel: Seq<char>)
    ensures
        path_key(lower(rel)) == path_key(rel),
{
    let fold = |part: Seq<char>| lower(part);
    lemma_split_lower(rel);
    lemma_filter_lower(split(rel, '/'));
    let parts = real_parts(rel);
    assert(real_parts(lower(rel)) == parts.map_values(fold));
    assert forall|i: int| 0 <= i < parts.len() implies #[trigger] parts.map_values(fold).map_values(
        fold,
    )[i] == parts.map_values(fold)[i] by {
        lemma_lower(parts[i]);
    }
    assert(parts.map_values(fold).map_values(fold) == parts.map_values(fold));
}

/// The components of a path name something and hold no separator.
pub proof fn lemma_real_parts(rel: Seq<char>)
    ensures
        forall|i: int|
            0 <= i < real_parts(rel).len() ==> is_real(#[trigger] real_parts(rel)[i])
                && !real_parts(rel)[i].contains('/'),
{
    crate::text::lemma_split_pieces(rel, '/');
    lemma_filter_members(split(rel, '/'));
}

proof fn lemma_filter_members(pieces: Seq<Seq<char>>)
    requires
        forall|i: int| 0 <= i < pieces.len() ==> !(#[trigger] pieces[i]).contains('/'),
    ensures
        ({
            let kept = pieces.filter(|part: Seq<char>| is_real(part));
            forall|i: int|
                0 <= i < kept.len() ==> is_real(#[trigger] kept[i]) && !kept[i].contains('/')
        }),
    decreases pieces.len(),
{
    reveal(Seq::filter);
    if pieces.len() > 0 {
        let init = pieces.drop_last();
        assert forall|i: int| 0 <= i < init.len() implies !(#[trigger] init[i]).contains('/') by {
            assert(init[i] == pieces[i]);
        }
        lemma_filter_members(init);
        assert(!pieces[pieces.len() - 1].contains('/'));
        let named = |part: Seq<char>| is_real(part);
        let before = init.filter(named);
        let kept = pieces.filter(named);
        assert forall|i: int| 0 <= i < kept.len() implies is_real(#[trigger] kept[i])
            && !kept[i].contains('/') by {
            if i < before.len() {
                assert(kept[i] == before[i]);
            }
        }
    }
}

proof fn lemma_filter_all(pieces: Seq<Seq<char>>)
    requires
        forall|i: int| 0 <= i < pieces.len() ==> is_real(#[trigger] pieces[i]),
    ensures
        pieces.filter(|part: Seq<char>| is_real(part)) == pieces,
    decreases pieces.len(),
{
    reveal(Seq::filter);
    if pieces.len() > 0 {
        let init = pieces.drop_last();
        assert forall|i: int| 0 <= i < init.len() implies is_real(#[trigger] init[i]) by {
            assert(init[i] == pieces[i]);
        }
        lemma_filter_all(init);
        assert(is_real(pieces[pieces.len() - 1]));
        assert(init.push(pieces.last()) == pieces);
    }
}

/// A path put together from components has those components.
pub proof fn lemma_real_parts_of_join(parts: Seq<Seq<char>>)
    requires
        forall|i: int|
            0 <= i < parts.len() ==> is_real(#[trigger] parts[i]) && !parts[i].contains('/'),
    ensures
        real_parts(join(parts, '/')) == parts,
{
    if parts.len() == 0 {
        reveal(Seq::filter);
        let pieces = split(join(parts, '/'), '/');
        assert(pieces == seq![Seq::<char>::empty()]);
        let named = |part: Seq<char>| is_real(part);
        assert(pieces.drop_last() == Seq::<Seq<char>>::empty());
        assert(pieces.drop_last().filter(named) == Seq::<Seq<char>>::empty());
        assert(!named(pieces.last()));
        assert(real_parts(join(parts, '/')) == parts);
    } else {
        crate::text::lemma_split_join(parts, '/');
        lemma_filter_all(parts);
    }
}

/// A key is its own key: normalizing twice is normalizing once.
pub proof fn law_key_is_normal(rel: Seq<char>)
    ensures
        path_key(path_key(rel)) == path_key(rel),
{
    let fold = |part: Seq<char>| lower(part);
    let parts = real_parts(rel).map_values(fold);
    lemma_real_parts(rel);
    assert forall|i: int| 0 <= i < parts.len() implies is_real(#[trigger] parts[i])
        && !parts[i].contains('/') by {
        assert(is_real(real_parts(rel)[i]));
        lemma_lower(real_parts(rel)[i]);
    }
    lemma_real_parts_of_join(parts);
    assert forall|i: int| 0 <= i < parts.len() implies #[trigger] parts.map_values(fold)[i]
        == parts[i] by {
        lemma_lower(real_parts(rel)[i]);
    }
    assert(parts.map_values(fold) == parts);
}

/// Components joined to a path have the key that they have on their own.
pub proof fn law_joined_key(parts: Seq<Seq<char>>)
    requires
        forall|i: int|
            0 <= i < parts.len() ==> is_real(#[trigger] parts[i]) && !parts[i].contains('/'),
    ensures
        path_key(join(parts, '/')) == parts_key(parts),
{
    lemma_real_parts_of_join(parts);
}

/// The components that may be deleted, joined again, have the key of the path
/// that they come from.
pub proof fn law_safe_parts_keep_key(rel: Seq<char>)
    requires
        safe_parts(rel) is Some,
    ensures
        path_key(join(safe_parts(rel)->0, '/')) == path_key(rel),
        parts_key(safe_parts(rel)->0) == path_key(rel),
{
    lemma_real_parts(rel);
    law_joined_key(real_parts(rel));
}

/// What may be deleted lies below the install directory and outside the
/// directory of the downloader's own files: no component is empty, ".", ".."
/// or holds a separator, a drive mark or a control character.
pub proof fn law_safe_parts_stay_inside(rel: Seq<char>)
    requires
        safe_parts(rel) is Some,
    ensures
        ({
            let parts = safe_parts(rel)->0;
            &&& parts.len() > 0
            &&& lower(parts[0]) != own_dir()
            &&& forall|i: int|
                0 <= i < parts.len() ==> {
                    &&& (#[trigger] parts[i]).len() > 0
                    &&& parts[i] != seq!['.']
                    &&& parts[i] != seq!['.', '.']
                    &&& !parts[i].contains('/')
                    &&& !parts[i].contains(':')
                    &&& forall|k: int|
                        0 <= k < parts[i].len() ==> !is_control(#[trigger] parts[i][k])
                }
        }),
{
    let parts = safe_parts(rel)->0;
    lemma_real_parts(rel);
    assert forall|i: int| 0 <= i < parts.len() implies !(#[trigger] parts[i]).contains(':') by {
        lemma_part_of_path(rel, i);
        if parts[i].contains(':') {
            let k = choose|k: int| 0 <= k < parts[i].len() && parts[i][k] == ':';
            assert(rel.contains(parts[i][k]));
        }
    }
    assert forall|i: int| 0 <= i < parts.len() implies parts[i] != seq!['.', '.'] && forall|k: int|
        0 <= k < parts[i].len() ==> !is_control(#[trigger] parts[i][k]) by {
        assert(!is_unsafe(parts[i]));
    }
}

/// Every character of a component stands in the path.
proof fn lemma_part_of_path(rel: Seq<char>, i: int)
    requires
        0 <= i < real_parts(rel).len(),
    ensures
        forall|k: int|
            0 <= k < real_parts(rel)[i].len() ==> rel.contains(#[trigger] real_parts(rel)[i][k]),
{
    let pieces = split(rel, '/');
    let named = |part: Seq<char>| is_real(part);
    pieces.lemma_filter_contains_rev(named, real_parts(rel)[i]);
    let j = choose|j: int| 0 <= j < pieces.len() && pieces[j] == real_parts(rel)[i];
    lemma_piece_of_text(rel, j);
}

proof fn lemma_piece_of_text(s: Seq<char>, j: int)
    requires
        0 <= j < split(s, '/').len(),
    ensures
        forall|k: int| 0 <= k < split(s, '/')[j].len() ==> s.contains(#[trigger] split(s, '/')[j][k]),
    decreases s.len(),
{
    if s.len() > 0 {
        let head = split(s.drop_last(), '/');
        lemma_split_nonempty(s.drop_last(), '/');
        assert forall|k: int| 0 <= k < split(s, '/')[j].len() implies s.contains(
            #[trigger] split(s, '/')[j][k],
        ) by {
            if j < head.len() && k < head[j].len() {
                lemma_piece_of_text(s.drop_last(), j);
                assert(split(s, '/')[j][k] == head[j][k]);
                assert(s.drop_last().contains(head[j][k]));
                let m = choose|m: int| 0 <= m < s.drop_last().len() && s.drop_last()[m] == head[j][k];
                assert(s[m] == head[j][k]);
            } else {
                assert(split(s, '/')[j][k] == s.last());
                assert(s[s.len() - 1] == s.last());
            }
        }
    }
}

// ---------------------------------------------------------------------------
// Laws: what keys and components are
// ---------------------------------------------------------------------------

/// A name without a separator is its own component, unless it is empty or a
/// single dot.
pub proof fn law_single_component(name: Seq<char>)
    requires
        forall|k: int| 0 <= k < name.len() ==> name[k] != '/',
    ensures
        real_parts(name) == if name.len() == 0 || (name.len() == 1 && name[0] == '.') {
            Seq::<Seq<char>>::empty()
        } else {
            seq![name]
        },
{
    let named = |part: Seq<char>| is_real(part);
    crate::text::laws::law_split_whole(name, '/');
    reveal(Seq::filter);
    let pieces = seq![name];
    assert(pieces.drop_last() == Seq::<Seq<char>>::empty());
    assert(pieces.drop_last().filter(named) == Seq::<Seq<char>>::empty());
    if name.len() == 1 && name[0] == '.' {
        assert(name == seq!['.']);
    }
    assert(real_parts(name) =~= if name.len() == 0 || (name.len() == 1 && name[0] == '.') {
        Seq::<Seq<char>>::empty()
    } else {
        seq![name]
    });
}

/// At a separator a path falls apart: its components are those of what stands
/// before, then those of what stands behind.
pub proof fn law_components_fall_apart(before: Seq<char>, behind: Seq<char>)
    ensures
        real_parts(before.push('/') + behind) == real_parts(before) + real_parts(behind),
{
    let named = |part: Seq<char>| is_real(part);
    crate::text::laws::law_split_apart(before, behind, '/');
    Seq::filter_distributes_over_add(split(before, '/'), split(behind, '/'), named);
}

/// The key of a name without a separator is the name with the capital letters
/// of ASCII made small; an empty name and a single dot have an empty key.
pub proof fn law_single_key(name: Seq<char>)
    requires
        forall|k: int| 0 <= k < name.len() ==> name[k] != '/',
    ensures
        if name.len() == 0 || (name.len() == 1 && name[0] == '.') {
            path_key(name).len() == 0
        } else {
            &&& path_key(name).len() == name.len()
            &&& forall|k: int|
                0 <= k < name.len() ==> (#[trigger] path_key(name)[k]) as int == if 65
                    <= name[k] as int <= 90 {
                    name[k] as int + 32
                } else {
                    name[k] as int
                }
        },
{
    let fold = |part: Seq<char>| lower(part);
    law_single_component(name);
    if !(name.len() == 0 || (name.len() == 1 && name[0] == '.')) {
        assert(seq![name].map_values(fold) == seq![lower(name)]);
        assert(path_key(name) == lower(name));
        assert forall|k: int| 0 <= k < name.len() implies (#[trigger] path_key(name)[k]) as int
            == if 65 <= name[k] as int <= 90 {
            name[k] as int + 32
        } else {
            name[k] as int
        } by {
            crate::text::laws::law_lower(name, k);
        }
    } else {
        assert(real_parts(name).map_values(fold) == Seq::<Seq<char>>::empty());
    }
}

proof fn lemma_join_parts(first: Seq<Seq<char>>, second: Seq<Seq<char>>)
    ensures
        join(first + second, '/') == if first.len() == 0 {
            join(second, '/')
        } else if second.len() == 0 {
            join(first, '/')
        } else {
            join(first, '/').push('/') + join(second, '/')
        },
    decreases second.len(),
{
    if first.len() == 0 {
        assert(first + second == second);
    } else if second.len() == 0 {
        assert(first + second == first);
    } else {
        let init = second.drop_last();
        let last = second.last();
        assert(first + second == (first + init).push(last));
        crate::text::laws::law_join(first + init, last, '/');
        lemma_join_parts(first, init);
        if init.len() > 0 {
            assert(init.push(last) == second);
            crate::text::laws::law_join(init, last, '/');
            assert((join(first, '/').push('/') + join(init, '/')).push('/') + last == join(
                first,
                '/',
            ).push('/') + (join(init, '/').push('/') + last));
        } else {
            assert(second == seq![last]);
        }
    }
}

proof fn lemma_join_empty(parts: Seq<Seq<char>>)
    requires
        parts.len() > 0,
        forall|i: int| 0 <= i < parts.len() ==> (#[trigger] parts[i]).len() > 0,
    ensures
        join(parts, '/').len() > 0,
    decreases parts.len(),
{
    assert(parts[0].len() > 0);
}

/// The key of a path is made of the keys of its halves, with a separator
/// between them where neither is empty.
pub proof fn law_key_falls_apart(before: Seq<char>, behind: Seq<char>)
    ensures
        path_key(before.push('/') + behind) == if path_key(before).len() == 0 {
            path_key(behind)
        } else if path_key(behind).len() == 0 {
            path_key(before)
        } else {
            path_key(before).push('/') + path_key(behind)
        },
{
    let fold = |part: Seq<char>| lower(part);
    let first = real_parts(before).map_values(fold);
    let second = real_parts(behind).map_values(fold);
    law_components_fall_apart(before, behind);
    assert((real_parts(before) + real_parts(behind)).map_values(fold) == first + second);
    lemma_join_parts(first, second);
    lemma_real_parts(before);
    lemma_real_parts(behind);
    if first.len() > 0 {
        assert forall|i: int| 0 <= i < first.len() implies (#[trigger] first[i]).len() > 0 by {
            assert(is_real(real_parts(before)[i]));
        }
        lemma_join_empty(first);
    }
    if second.len() > 0 {
        assert forall|i: int| 0 <= i < second.len() implies (#[trigger] second[i]).len() > 0 by {
            assert(is_real(real_parts(behind)[i]));
        }
        lemma_join_empty(second);
    }
}

/// Every character but the separator stands in one of the pieces.
proof fn lemma_in_some_piece(s: Seq<char>, k: int)
    requires
        0 <= k < s.len(),
        s[k] != '/',
    ensures
        exists|j: int, m: int|
            0 <= j < split(s, '/').len() && 0 <= m < split(s, '/')[j].len() && #[trigger] split(
                s,
                '/',
            )[j][m] == s[k],
    decreases s.len(),
{
    let head = split(s.drop_last(), '/');
    lemma_split_nonempty(s.drop_last(), '/');
    if k == s.len() - 1 {
        let j = head.len() - 1;
        assert(split(s, '/')[j][head.last().len() as int] == s[k]);
    } else {
        lemma_in_some_piece(s.drop_last(), k);
        let (j, m) = choose|j: int, m: int|
            0 <= j < head.len() && 0 <= m < head[j].len() && #[trigger] head[j][m] == s.drop_last()[k];
        assert(split(s, '/')[j][m] == s[k]);
    }
}

/// Which paths may be deleted: those that do not begin with a separator, hold
/// no colon and no control character, and have a component, none of them "..",
/// the first of them not the directory of the downloader's own files in any
/// case. All others are refused.
pub proof fn law_safe_paths(rel: Seq<char>)
    ensures
        safe_parts(rel) == (if {
            &&& rel.len() > 0 ==> rel[0] != '/'
            &&& forall|k: int|
                0 <= k < rel.len() ==> (#[trigger] rel[k]) != ':' && rel[k] as int >= 32
                    && rel[k] as int != 127
            &&& real_parts(rel).len() > 0
            &&& forall|i: int|
                0 <= i < real_parts(rel).len() ==> !((#[trigger] real_parts(rel)[i]).len() == 2
                    && real_parts(rel)[i][0] == '.' && real_parts(rel)[i][1] == '.')
            &&& lower(real_parts(rel)[0]) != seq![
                '.',
                'd',
                'e',
                'p',
                'o',
                't',
                'd',
                'o',
                'w',
                'n',
                'l',
                'o',
                'a',
                'd',
                'e',
                'r',
            ]
        } {
            Some(real_parts(rel))
        } else {
            None
        }),
{
    let parts = real_parts(rel);
    let own = seq!['.', 'd', 'e', 'p', 'o', 't', 'd', 'o', 'w', 'n', 'l', 'o', 'a', 'd', 'e', 'r'];
    assert(own_dir() == own) by {
        reveal_strlit(".DepotDownloader");
        assert(own_dir() =~= own);
    }
    assert forall|i: int| 0 <= i < parts.len() && (#[trigger] parts[i]).len() == 2 && parts[i][0]
        == '.' && parts[i][1] == '.' implies is_unsafe(parts[i]) by {
        assert(parts[i] == seq!['.', '.']);
    }
    if exists|k: int|
        0 <= k < rel.len() && ((#[trigger] rel[k]) as int == 127 || (rel[k] as int) < 32) {
        let k = choose|k: int|
            0 <= k < rel.len() && ((#[trigger] rel[k]) as int == 127 || (rel[k] as int) < 32);
        let c = rel[k];
        assert(is_control(c));
        lemma_in_some_piece(rel, k);
        let pieces = split(rel, '/');
        let (j, m) = choose|j: int, m: int|
            0 <= j < pieces.len() && 0 <= m < pieces[j].len() && #[trigger] pieces[j][m] == rel[k];
        let piece = pieces[j];
        let named = |part: Seq<char>| is_real(part);
        assert(piece[m] == c);
        assert(is_real(piece)) by {
            if piece == seq!['.'] {
                assert(piece[0] == '.');
            }
        }
        pieces.lemma_filter_contains(named, j);
        let i = choose|i: int| 0 <= i < parts.len() && parts[i] == piece;
        assert(is_unsafe(parts[i]));
        assert(!deletable(parts));
        assert(safe_parts(rel) is None);
    } else {
        assert forall|i: int| 0 <= i < parts.len() && is_unsafe(#[trigger] parts[i]) implies
            parts[i].len() == 2 && parts[i][0] == '.' && parts[i][1] == '.' by {
            if parts[i] != seq!['.', '.'] {
                let m = choose|m: int| 0 <= m < parts[i].len() && is_control(#[trigger] parts[i][m]);
                lemma_part_of_path(rel, i);
                assert(rel.contains(parts[i][m]));
                let k = choose|k: int| 0 <= k < rel.len() && rel[k] == parts[i][m];
                assert(rel[k] as int == 127 || (rel[k] as int) < 32);
            }
        }
        if rel.contains(':') {
            let k = choose|k: int| 0 <= k < rel.len() && rel[k] == ':';
            assert(rel[k] == ':');
        }
        if exists|k: int| 0 <= k < rel.len() && (#[trigger] rel[k]) == ':' {
            let k = choose|k: int| 0 <= k < rel.len() && (#[trigger] rel[k]) == ':';
            assert(rel.contains(rel[k]));
        }
    }
}

} // verus!
