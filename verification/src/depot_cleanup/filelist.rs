//! The file list of a build: a copy of its manifest's names in plain text, so
//! that a depot can be read without its key.
use crate::content_manifest::{ContentManifest, ManifestFileView};
use crate::depot_writer::DEPOT_FILE_FLAG_DIRECTORY;
use crate::text::{
    chars_of, decimal, decimal_text, lines, lines_of, parse_decimal, parse_decimal_text, text_of,
    texts, trim, trim_text,
};
use vstd::prelude::*;

verus! {

pub const FILELIST_HEADER: &'static str = "WNFL1";

/// A file or a directory that a build installs.
#[derive(Clone, Debug, Eq, PartialEq)]
pub struct FileEntry {
    pub name: String,
    pub is_dir: bool,
}

/// A file entry by its values.
#[verifier::ext_equal]
pub struct EntryView {
    pub name: Seq<char>,
    pub is_dir: bool,
}

impl View for FileEntry {
    type V = EntryView;

    open spec fn view(&self) -> EntryView {
        EntryView { name: self.name@, is_dir: self.is_dir }
    }
}

/// The values of a sequence of entries.
pub open spec fn entries_view(entries: Seq<FileEntry>) -> Seq<EntryView> {
    entries.map_values(|entry: FileEntry| entry@)
}

// ---------------------------------------------------------------------------
// Entries of a manifest
// ---------------------------------------------------------------------------

/// The entry of a manifest file.
pub open spec fn manifest_entry(file: ManifestFileView) -> EntryView {
    EntryView { name: file.filename, is_dir: file.flags & DEPOT_FILE_FLAG_DIRECTORY != 0 }
}

/// The entries of a manifest, in its order.
pub open spec fn manifest_entries(files: Seq<ManifestFileView>) -> Seq<EntryView> {
    files.map_values(|file: ManifestFileView| manifest_entry(file))
}

/// The entries of `manifest`.
pub fn entries_of_manifest(manifest: &ContentManifest) -> (entries: Vec<FileEntry>)
    ensures
        entries_view(entries@) == manifest_entries(manifest@),
{
    let mut entries: Vec<FileEntry> = Vec::new();
    for i in 0..manifest.files.len()
        invariant
            entries_view(entries@) == manifest_entries(manifest@).take(i as int),
    {
        let file = &manifest.files[i];
        let entry = FileEntry {
            name: file.filename.clone(),
            is_dir: (file.flags & DEPOT_FILE_FLAG_DIRECTORY) != 0,
        };
        let ghost before = entries@;
        let ghost value = entry@;
        entries.push(entry);
        proof {
            assert(manifest@[i as int] == file@);
            assert(entries_view(entries@) == entries_view(before).push(value));
            assert(manifest_entries(manifest@).take(i + 1) == manifest_entries(manifest@).take(
                i as int,
            ).push(manifest_entries(manifest@)[i as int]));
        }
    }
    proof {
        let all = manifest_entries(manifest@);
        assert(all.take(all.len() as int) == all);
    }
    entries
}

// ---------------------------------------------------------------------------
// Writing
// ---------------------------------------------------------------------------

/// Whether a name fits on a line of the file list.
pub open spec fn fits_line(name: Seq<char>) -> bool {
    !name.contains('\n') && !name.contains('\r')
}

/// The entries that a file list holds: those whose names fit on a line.
pub open spec fn listed(entries: Seq<EntryView>) -> Seq<EntryView> {
    entries.filter(|entry: EntryView| fits_line(entry.name))
}

/// An entry's line, without its ending.
pub open spec fn entry_line(entry: EntryView) -> Seq<char> {
    seq![
        if entry.is_dir {
            'D'
        } else {
            'F'
        },
        ' ',
    ] + entry.name
}

/// The lines of the entries.
pub open spec fn entry_lines(entries: Seq<EntryView>) -> Seq<char>
    decreases entries.len(),
{
    if entries.len() == 0 {
        Seq::empty()
    } else {
        entry_lines(entries.drop_last()) + entry_line(entries.last()).push('\n')
    }
}

/// The first line, without its ending: it holds the number of entries, since
/// a list cut short would otherwise pass for a shorter list.
pub open spec fn header_line(count: nat) -> Seq<char> {
    FILELIST_HEADER@.push(' ') + decimal(count)
}

/// The file list of these entries.
pub open spec fn filelist_text(entries: Seq<EntryView>) -> Seq<char> {
    header_line(entries.len()).push('\n') + entry_lines(entries)
}

/// Whether `name` fits on a line.
fn name_fits_line(name: &str) -> (fits: bool)
    ensures
        fits == fits_line(name@),
{
    let chars = chars_of(name);
    for i in 0..chars.len()
        invariant
            chars@ == name@,
            forall|k: int| 0 <= k < i ==> name@[k] != '\n' && name@[k] != '\r',
    {
        if chars[i] == '\n' || chars[i] == '\r' {
            proof {
                assert(name@[i as int] == chars@[i as int]);
            }
            return false;
        }
    }
    true
}

/// The file list of `manifest`: names that do not fit on a line are left out.
pub fn filelist_of_manifest(manifest: &ContentManifest) -> (text: String)
    ensures
        text@ == filelist_text(listed(manifest_entries(manifest@))),
{
    let ghost all = manifest_entries(manifest@);
    let mut body = String::new();
    let mut written: u64 = 0;
    proof {
        reveal(Seq::filter);
        assert(listed(all.take(0)) == Seq::<EntryView>::empty());
    }
    for i in 0..manifest.files.len()
        invariant
            all == manifest_entries(manifest@),
            written <= i,
            written == listed(all.take(i as int)).len(),
            body@ == entry_lines(listed(all.take(i as int))),
    {
        let file = &manifest.files[i];
        proof {
            reveal(Seq::filter);
            assert(manifest@[i as int] == file@);
            assert(all.take(i + 1).drop_last() == all.take(i as int));
            assert(all.take(i + 1).last() == all[i as int]);
        }
        if name_fits_line(file.filename.as_str()) {
            let kind = if (file.flags & DEPOT_FILE_FLAG_DIRECTORY) != 0 {
                'D'
            } else {
                'F'
            };
            let ghost before = body@;
            written += 1;
            body.push(kind);
            body.push(' ');
            body.append(file.filename.as_str());
            body.push('\n');
            proof {
                let entry = all[i as int];
                let shorter = listed(all.take(i as int));
                assert(listed(all.take(i + 1)) == shorter.push(entry));
                assert(shorter.push(entry).drop_last() == shorter);
                assert(body@ == before + entry_line(entry).push('\n'));
            }
        }
    }
    proof {
        assert(all.take(all.len() as int) == all);
    }
    let mut text = FILELIST_HEADER.to_owned();
    text.push(' ');
    text.append(decimal_text(written).as_str());
    text.push('\n');
    text.append(body.as_str());
    text
}

// ---------------------------------------------------------------------------
// Reading
// ---------------------------------------------------------------------------

/// The entry on a line. A line with an empty name is the torn end of a list,
/// not an entry.
pub open spec fn entry_of_line(line: Seq<char>) -> Option<EntryView> {
    if line.len() > 2 && (line[0] == 'F' || line[0] == 'D') && line[1] == ' ' {
        Some(EntryView { name: line.skip(2), is_dir: line[0] == 'D' })
    } else {
        None
    }
}

/// The entries on these lines; other lines are passed over.
pub open spec fn entries_of_lines(found: Seq<Seq<char>>) -> Seq<EntryView>
    decreases found.len(),
{
    if found.len() == 0 {
        Seq::empty()
    } else {
        let before = entries_of_lines(found.drop_last());
        match entry_of_line(found.last()) {
            Some(entry) => before.push(entry),
            None => before,
        }
    }
}

/// The number of entries that a header line announces.
pub open spec fn announced(header: Seq<char>) -> Option<nat> {
    let mark = FILELIST_HEADER@;
    if header.len() >= mark.len() && header.take(mark.len() as int) == mark {
        parse_decimal(trim(header.skip(mark.len() as int)), usize::MAX as nat)
    } else {
        None
    }
}

/// The entries of a file list, where it holds as many as it announces.
pub open spec fn read_filelist(text: Seq<char>) -> Option<Seq<EntryView>> {
    let found = lines(text);
    if found.len() == 0 {
        None
    } else {
        let entries = entries_of_lines(found.skip(1));
        if announced(found[0]) == Some(entries.len()) {
            Some(entries)
        } else {
            None
        }
    }
}

fn read_line(line: &str) -> (entry: Option<FileEntry>)
    ensures
        match entry {
            Some(entry) => entry_of_line(line@) == Some(entry@),
            None => entry_of_line(line@) is None,
        },
{
    let chars = chars_of(line);
    if chars.len() > 2 && (chars[0] == 'F' || chars[0] == 'D') && chars[1] == ' ' {
        let name = text_of(chars.as_slice(), 2, chars.len());
        proof {
            assert(line@.subrange(2, line@.len() as int) == line@.skip(2));
        }
        Some(FileEntry { name, is_dir: chars[0] == 'D' })
    } else {
        None
    }
}

fn read_header(header: &str) -> (count: Option<u64>)
    ensures
        match count {
            Some(count) => announced(header@) == Some(count as nat),
            None => announced(header@) is None,
        },
{
    let chars = chars_of(header);
    let mark = chars_of(FILELIST_HEADER);
    if chars.len() < mark.len() {
        return None;
    }
    for i in 0..mark.len()
        invariant
            chars@ == header@,
            mark@ == FILELIST_HEADER@,
            mark@.len() <= chars@.len(),
            forall|k: int| 0 <= k < i ==> header@[k] == mark@[k],
    {
        if chars[i] != mark[i] {
            proof {
                assert(header@.take(mark@.len() as int)[i as int] != mark@[i as int]);
            }
            return None;
        }
    }
    proof {
        assert(header@.take(mark@.len() as int) == mark@);
        assert(header@.subrange(mark@.len() as int, header@.len() as int) == header@.skip(
            mark@.len() as int,
        ));
    }
    let rest = text_of(chars.as_slice(), mark.len(), chars.len());
    parse_decimal_text(trim_text(rest.as_str()).as_str(), usize::MAX as u64)
}

/// The entries of a file list that was read from disk. A list that holds more
/// or fewer entries than it announces is truncated, and counts as unreadable.
pub fn read_filelist_sidecar(blob: &str) -> (entries: Option<Vec<FileEntry>>)
    ensures
        match entries {
            Some(entries) => read_filelist(blob@) == Some(entries_view(entries@)),
            None => read_filelist(blob@) is None,
        },
{
    let found = lines_of(blob);
    proof {
        assert(texts(found@).len() == found@.len());
    }
    if found.len() == 0 {
        return None;
    }
    proof {
        assert(texts(found@)[0] == found@[0]@);
    }
    let expected: u64 = match read_header(found[0].as_str()) {
        Some(expected) => expected,
        None => {
            return None;
        },
    };
    let mut entries: Vec<FileEntry> = Vec::new();
    let ghost rest = texts(found@).skip(1);
    for i in 1..found.len()
        invariant
            rest == texts(found@).skip(1),
            1 <= i <= found@.len(),
            entries_view(entries@) == entries_of_lines(rest.take(i - 1)),
    {
        proof {
            assert(rest.take(i as int).drop_last() == rest.take(i - 1));
            assert(rest.take(i as int).last() == found@[i as int]@);
        }
        if let Some(entry) = read_line(found[i].as_str()) {
            let ghost before = entries@;
            let ghost value = entry@;
            entries.push(entry);
            proof {
                assert(entries_view(entries@) == entries_view(before).push(value));
            }
        }
    }
    proof {
        assert(rest.take(rest.len() as int) == rest);
    }
    if entries.len() as u64 != expected {
        return None;
    }
    Some(entries)
}

// ---------------------------------------------------------------------------
// Laws
// ---------------------------------------------------------------------------

/// Names that a file list gives back: not empty, and fit for a line.
pub open spec fn readable_names(entries: Seq<EntryView>) -> bool {
    forall|i: int|
        0 <= i < entries.len() ==> (#[trigger] entries[i]).name.len() > 0 && fits_line(
            entries[i].name,
        )
}

proof fn lemma_header_line(count: nat)
    ensures
        !header_line(count).contains('\n'),
        !header_line(count).contains('\r'),
        FILELIST_HEADER@.len() == 5,
        count <= usize::MAX ==> announced(header_line(count)) == Some(count),
{
    reveal_strlit("WNFL1");
    let header = header_line(count);
    crate::text::lemma_decimal(count);
    assert forall|i: int| 0 <= i < header.len() implies header[i] != '\n' && header[i] != '\r' by {
        if i >= 6 {
            assert(header[i] == decimal(count)[i - 6]);
            assert(crate::text::is_digit(decimal(count)[i - 6]));
        }
    }
    assert(header.take(5) == FILELIST_HEADER@);
    let rest = header.skip(5);
    assert(rest == seq![' '] + decimal(count));
    lemma_trim_number(decimal(count));
    if count <= usize::MAX {
        crate::text::lemma_parse_decimal(count, usize::MAX as nat);
    }
}

/// Trimming takes the blank off the front of a number.
proof fn lemma_trim_number(digits: Seq<char>)
    requires
        crate::text::all_digits(digits),
    ensures
        trim(seq![' '] + digits) == digits,
{
    let s = seq![' '] + digits;
    assert(s.skip(1) == digits);
    assert(crate::text::trim_start(s) == crate::text::trim_start(digits));
    if digits.len() > 0 {
        assert(crate::text::is_digit(digits[0]));
        assert(crate::text::is_digit(digits[digits.len() - 1]));
    }
}

proof fn lemma_entry_line(entry: EntryView)
    requires
        entry.name.len() > 0,
        fits_line(entry.name),
    ensures
        !entry_line(entry).contains('\n'),
        !entry_line(entry).contains('\r'),
        entry_of_line(entry_line(entry)) == Some(entry),
{
    let line = entry_line(entry);
    assert forall|i: int| 0 <= i < line.len() implies line[i] != '\n' && line[i] != '\r' by {
        if i >= 2 {
            assert(line[i] == entry.name[i - 2]);
            assert(entry.name.contains(line[i]));
        }
    }
    assert(line.skip(2) == entry.name);
}

/// The lines of a whole file list.
proof fn lemma_filelist_lines(count: nat, entries: Seq<EntryView>)
    requires
        readable_names(entries),
    ensures
        ({
            let text = header_line(count).push('\n') + entry_lines(entries);
            &&& crate::text::at_line_start(text)
            &&& lines(text).len() == entries.len() + 1
            &&& lines(text)[0] == header_line(count)
            &&& entries_of_lines(lines(text).skip(1)) == entries
        }),
    decreases entries.len(),
{
    let head = header_line(count);
    lemma_header_line(count);
    if entries.len() == 0 {
        let empty = Seq::<char>::empty();
        crate::text::lemma_lines_push(empty, head);
        assert(empty + head.push('\n') == head.push('\n') + entry_lines(entries));
        assert(crate::text::split(empty, '\n') == seq![empty]);
        assert(lines(empty) == Seq::<Seq<char>>::empty());
        assert(lines(head.push('\n') + entry_lines(entries)) == seq![head]);
        assert(seq![head].skip(1) == Seq::<Seq<char>>::empty());
        assert(entries == Seq::<EntryView>::empty());
    } else {
        let init = entries.drop_last();
        let last = entries.last();
        assert forall|i: int| 0 <= i < init.len() implies (#[trigger] init[i]).name.len() > 0
            && fits_line(init[i].name) by {
            assert(init[i] == entries[i]);
        }
        lemma_filelist_lines(count, init);
        assert(entries[entries.len() - 1] == last);
        lemma_entry_line(last);
        let before = head.push('\n') + entry_lines(init);
        let text = head.push('\n') + entry_lines(entries);
        assert(text == before + entry_line(last).push('\n'));
        crate::text::lemma_lines_push(before, entry_line(last));
        lemma_entries_push(lines(before), entry_line(last));
        assert(init.push(last) == entries);
    }
}

/// One more line after the header is one more entry, if it holds one.
proof fn lemma_entries_push(found: Seq<Seq<char>>, line: Seq<char>)
    requires
        found.len() > 0,
    ensures
        entries_of_lines(found.push(line).skip(1)) == match entry_of_line(line) {
            Some(entry) => entries_of_lines(found.skip(1)).push(entry),
            None => entries_of_lines(found.skip(1)),
        },
{
    assert(found.push(line).skip(1) == found.skip(1).push(line));
    assert(found.skip(1).push(line).drop_last() == found.skip(1));
}

/// What a file list was written from, it gives back: every entry whose name
/// fits on a line, in order. Left out are manifests with an empty filename: the
/// list counts such an entry, and is then unreadable.
pub proof fn law_filelist_roundtrip(files: Seq<ManifestFileView>)
    requires
        files.len() <= usize::MAX,
        forall|i: int| 0 <= i < files.len() ==> (#[trigger] files[i]).filename.len() > 0,
    ensures
        read_filelist(filelist_text(listed(manifest_entries(files)))) == Some(
            listed(manifest_entries(files)),
        ),
{
    let all = manifest_entries(files);
    let entries = listed(all);
    let fits = |entry: EntryView| fits_line(entry.name);
    all.lemma_filter_len(fits);
    assert forall|i: int| 0 <= i < entries.len() implies (#[trigger] entries[i]).name.len() > 0
        && fits_line(entries[i].name) by {
        all.lemma_filter_pred(fits, i);
        all.lemma_filter_contains_rev(fits, entries[i]);
        let k = choose|k: int| 0 <= k < all.len() && all[k] == entries[i];
        assert(files[k].filename.len() > 0);
    }
    lemma_filelist_lines(entries.len(), entries);
    lemma_header_line(entries.len());
}

/// A manifest whose every filename fits on a line is given back whole.
pub proof fn law_filelist_keeps_all(files: Seq<ManifestFileView>)
    requires
        files.len() <= usize::MAX,
        forall|i: int|
            0 <= i < files.len() ==> (#[trigger] files[i]).filename.len() > 0 && fits_line(
                files[i].filename,
            ),
    ensures
        read_filelist(filelist_text(listed(manifest_entries(files)))) == Some(
            manifest_entries(files),
        ),
{
    law_filelist_roundtrip(files);
    let all = manifest_entries(files);
    assert forall|i: int| 0 <= i < all.len() implies fits_line((#[trigger] all[i]).name) by {
        assert(files[i].filename.len() > 0);
    }
    lemma_listed_all(all);
}

proof fn lemma_listed_all(entries: Seq<EntryView>)
    requires
        forall|i: int| 0 <= i < entries.len() ==> fits_line((#[trigger] entries[i]).name),
    ensures
        listed(entries) == entries,
    decreases entries.len(),
{
    reveal(Seq::filter);
    if entries.len() > 0 {
        let init = entries.drop_last();
        assert forall|i: int| 0 <= i < init.len() implies fits_line((#[trigger] init[i]).name) by {
            assert(init[i] == entries[i]);
        }
        lemma_listed_all(init);
        assert(fits_line(entries[entries.len() - 1].name));
        assert(init.push(entries.last()) == entries);
    }
}

/// An entry as it may stand at the torn end of a list: of the same kind, with
/// the front of the name, or all of it.
pub open spec fn torn(cut: EntryView, whole: EntryView) -> bool {
    &&& cut.is_dir == whole.is_dir
    &&& 0 < cut.name.len() <= whole.name.len()
    &&& cut.name == whole.name.take(cut.name.len() as int)
}

/// A list cut short is either unreadable or still has every entry; only the
/// name on its last line may have lost its end. It never passes for a shorter
/// list.
pub proof fn law_truncated_filelist(entries: Seq<EntryView>, k: int)
    requires
        readable_names(entries),
        entries.len() <= usize::MAX,
        0 <= k <= filelist_text(entries).len(),
    ensures
        read_filelist(filelist_text(entries).take(k)) matches Some(found) ==> {
            &&& found.len() == entries.len()
            &&& forall|i: int| 0 <= i < entries.len() - 1 ==> found[i] == entries[i]
            &&& entries.len() > 0 ==> torn(found.last(), entries.last())
        },
{
    let count = entries.len();
    let head = header_line(count);
    let text = filelist_text(entries);
    let cut = text.take(k);
    lemma_header_line(count);
    if let Some(found) = read_filelist(cut) {
        if k <= head.len() {
            lemma_cut_header(count, k);
            assert(cut == head.take(k));
        } else {
            let m = k - head.len() - 1;
            assert(cut == head.push('\n') + entry_lines(entries).take(m));
            lemma_cut_entries(count, entries, m);
        }
    }
}

/// A list cut within its header is unreadable, unless it announced nothing.
proof fn lemma_cut_header(count: nat, k: int)
    requires
        0 <= k <= header_line(count).len(),
    ensures
        read_filelist(header_line(count).take(k)) matches Some(found) ==> found.len() == 0 && count
            == 0,
{
    let head = header_line(count);
    let cut = head.take(k);
    let empty = Seq::<char>::empty();
    lemma_header_line(count);
    assert(crate::text::split(empty, '\n') == seq![empty]);
    assert(lines(empty) == Seq::<Seq<char>>::empty());
    if k == 0 {
        assert(cut == empty);
    } else {
        assert(!cut.contains('\n')) by {
            if cut.contains('\n') {
                let i = choose|i: int| 0 <= i < cut.len() && cut[i] == '\n';
                assert(head[i] == '\n');
            }
        }
        crate::text::lemma_lines_tail(empty, cut);
        assert(empty + cut == cut);
        assert(lines(cut) == seq![cut]);
        assert(seq![cut].skip(1) == Seq::<Seq<char>>::empty());
        if let Some(found) = read_filelist(cut) {
            assert(found.len() == 0);
            assert(announced(cut) == Some(0nat));
            reveal_strlit("WNFL1");
            let digits = decimal(count).take(k - 6);
            if k < 6 {
                assert(cut.skip(5) == empty);
                assert(trim(empty) == empty);
                assert(false);
            }
            assert(cut.skip(5) == seq![' '] + digits);
            crate::text::lemma_decimal(count);
            assert(crate::text::all_digits(digits)) by {
                assert forall|i: int| 0 <= i < digits.len() implies crate::text::is_digit(
                    #[trigger] digits[i],
                ) by {
                    assert(crate::text::is_digit(decimal(count)[i]));
                }
            }
            lemma_trim_number(digits);
            if digits.len() > 0 {
                assert(crate::text::is_digit(digits[0]));
            }
            assert(crate::text::decimal_value(digits) == 0);
            crate::text::lemma_decimal_front(count, k - 6);
        }
    }
}

/// A list cut among its entries has lost an entry, or at most the end of the
/// last name.
proof fn lemma_cut_entries(count: nat, entries: Seq<EntryView>, m: int)
    requires
        readable_names(entries),
        0 <= m <= entry_lines(entries).len(),
    ensures
        ({
            let found = lines(header_line(count).push('\n') + entry_lines(entries).take(m));
            let got = entries_of_lines(found.skip(1));
            &&& found.len() > 0
            &&& found[0] == header_line(count)
            &&& got.len() <= entries.len()
            &&& got.len() == entries.len() ==> {
                &&& forall|i: int| 0 <= i < entries.len() - 1 ==> got[i] == entries[i]
                &&& entries.len() > 0 ==> torn(got.last(), entries.last())
            }
        }),
    decreases entries.len(),
{
    let head = header_line(count).push('\n');
    if entries.len() == 0 {
        lemma_filelist_lines(count, entries);
        assert(entry_lines(entries).take(m) == entry_lines(entries));
    } else {
        let init = entries.drop_last();
        let last = entries.last();
        let whole = entry_lines(init);
        assert forall|i: int| 0 <= i < init.len() implies (#[trigger] init[i]).name.len() > 0
            && fits_line(init[i].name) by {
            assert(init[i] == entries[i]);
        }
        assert(entries[entries.len() - 1] == last);
        if m <= whole.len() {
            lemma_cut_entries(count, init, m);
            assert(entry_lines(entries).take(m) == whole.take(m));
        } else {
            lemma_filelist_lines(count, init);
            lemma_entry_line(last);
            let before = head + whole;
            let line = entry_line(last);
            if m == entry_lines(entries).len() {
                lemma_filelist_lines(count, entries);
                assert(entry_lines(entries).take(m) == entry_lines(entries));
                assert(last.name.take(last.name.len() as int) == last.name);
            } else {
                let part = line.take(m - whole.len());
                assert(head + entry_lines(entries).take(m) == before + part);
                assert(!part.contains('\n')) by {
                    if part.contains('\n') {
                        let i = choose|i: int| 0 <= i < part.len() && part[i] == '\n';
                        assert(line[i] == '\n');
                    }
                }
                crate::text::lemma_lines_tail(before, part);
                lemma_entries_push(lines(before), part);
                if let Some(cut) = entry_of_line(part) {
                    assert(cut.name == last.name.take(cut.name.len() as int));
                    assert(torn(cut, last));
                }
            }
        }
    }
}

// ---------------------------------------------------------------------------
// Laws: what is written, and what is read
// ---------------------------------------------------------------------------

/// An entry has the name of its file, and is a directory if and only if the
/// seventh bit of the flags is set, whatever the others are.
pub proof fn law_entry_of_file(file: ManifestFileView)
    ensures
        manifest_entry(file).name == file.filename,
        manifest_entry(file).is_dir <==> (file.flags / 64) % 2 == 1,
{
    let flags = file.flags;
    assert((flags & 0x40u32 != 0) == ((flags / 64) % 2 == 1)) by (bit_vector);
}

/// The entries of a manifest are those of its files, one for one.
pub proof fn law_entries_of_files(files: Seq<ManifestFileView>, i: int)
    requires
        0 <= i < files.len(),
    ensures
        manifest_entries(files).len() == files.len(),
        manifest_entries(files)[i].name == files[i].filename,
        manifest_entries(files)[i].is_dir <==> (files[i].flags / 64) % 2 == 1,
{
    law_entry_of_file(files[i]);
}

/// A file list gives back the files of a manifest in order, all but those
/// whose names hold a line feed or a carriage return.
pub proof fn law_listed_names(files: Seq<ManifestFileView>)
    requires
        files.len() <= usize::MAX,
        forall|i: int| 0 <= i < files.len() ==> (#[trigger] files[i]).filename.len() > 0,
    ensures
        read_filelist(filelist_text(listed(manifest_entries(files)))) == Some(
            manifest_entries(files).filter(
                |entry: EntryView|
                    forall|k: int|
                        0 <= k < entry.name.len() ==> (#[trigger] entry.name[k]) != '\n'
                            && entry.name[k] != '\r',
            ),
        ),
{
    law_filelist_roundtrip(files);
    let fits = |entry: EntryView| fits_line(entry.name);
    let plain = |entry: EntryView|
        forall|k: int|
            0 <= k < entry.name.len() ==> (#[trigger] entry.name[k]) != '\n' && entry.name[k]
                != '\r';
    assert forall|entry: EntryView| #[trigger] fits(entry) == plain(entry) by {
        let name = entry.name;
        if name.contains('\n') {
            let k = choose|k: int| 0 <= k < name.len() && name[k] == '\n';
            assert(entry.name[k] == '\n');
        }
        if name.contains('\r') {
            let k = choose|k: int| 0 <= k < name.len() && name[k] == '\r';
            assert(entry.name[k] == '\r');
        }
        if !plain(entry) {
            let k = choose|k: int|
                0 <= k < entry.name.len() && !((#[trigger] entry.name[k]) != '\n' && entry.name[k]
                    != '\r');
            assert(name.contains(name[k]));
        }
    }
    lemma_same_filter(manifest_entries(files), fits, plain);
}

proof fn lemma_same_filter(
    entries: Seq<EntryView>,
    first: spec_fn(EntryView) -> bool,
    second: spec_fn(EntryView) -> bool,
)
    requires
        forall|entry: EntryView| #[trigger] first(entry) == second(entry),
    ensures
        entries.filter(first) == entries.filter(second),
    decreases entries.len(),
{
    reveal(Seq::filter);
    if entries.len() > 0 {
        lemma_same_filter(entries.drop_last(), first, second);
        assert(first(entries.last()) == second(entries.last()));
    }
}

/// A manifest whose names are not empty and hold no line feed and no carriage
/// return is given back whole: every file under its name, a directory where
/// its flags say so.
pub proof fn law_plain_names_are_given_back(files: Seq<ManifestFileView>)
    requires
        files.len() <= usize::MAX,
        forall|i: int| 0 <= i < files.len() ==> (#[trigger] files[i]).filename.len() > 0,
        forall|i: int, k: int|
            0 <= i < files.len() && 0 <= k < files[i].filename.len() ==> (
            #[trigger] files[i].filename[k]) != '\n' && files[i].filename[k] != '\r',
    ensures
        read_filelist(filelist_text(listed(manifest_entries(files)))) matches Some(found) && {
            &&& found == manifest_entries(files)
            &&& found.len() == files.len()
            &&& forall|i: int|
                0 <= i < files.len() ==> (#[trigger] found[i]).name == files[i].filename && (
                found[i].is_dir <==> (files[i].flags / 64) % 2 == 1)
        },
{
    assert forall|i: int| 0 <= i < files.len() implies (#[trigger] files[i]).filename.len() > 0
        && fits_line(files[i].filename) by {
        let name = files[i].filename;
        if name.contains('\n') {
            let k = choose|k: int| 0 <= k < name.len() && name[k] == '\n';
            assert(files[i].filename[k] == '\n');
        }
        if name.contains('\r') {
            let k = choose|k: int| 0 <= k < name.len() && name[k] == '\r';
            assert(files[i].filename[k] == '\r');
        }
    }
    law_filelist_keeps_all(files);
    let found = manifest_entries(files);
    assert forall|i: int| 0 <= i < files.len() implies (#[trigger] found[i]).name
        == files[i].filename && (found[i].is_dir <==> (files[i].flags / 64) % 2 == 1) by {
        law_entries_of_files(files, i);
    }
}

/// A file list by its characters: a first line with the number of entries, and
/// a line for each, which begins with a letter for its kind and a blank.
pub proof fn law_filelist_layout(entries: Seq<EntryView>, entry: EntryView)
    ensures
        filelist_text(entries) == seq!['W', 'N', 'F', 'L', '1', ' '] + decimal(entries.len())
            + seq!['\n'] + entry_lines(entries),
        entry_lines(Seq::empty()) == Seq::<char>::empty(),
        entry_lines(entries.push(entry)) == entry_lines(entries) + seq![
            if entry.is_dir {
                'D'
            } else {
                'F'
            },
            ' ',
        ] + entry.name + seq!['\n'],
{
    reveal_strlit("WNFL1");
    assert(entries.push(entry).drop_last() == entries);
    assert(filelist_text(entries) =~= seq!['W', 'N', 'F', 'L', '1', ' '] + decimal(entries.len())
        + seq!['\n'] + entry_lines(entries));
    assert(entry_lines(entries.push(entry)) =~= entry_lines(entries) + seq![
        if entry.is_dir {
            'D'
        } else {
            'F'
        },
        ' ',
    ] + entry.name + seq!['\n']);
}

/// A list is read if and only if it holds as many entries as it announces: it
/// is refused with fewer, and with more.
pub proof fn law_count_must_match(count: nat, entries: Seq<EntryView>)
    requires
        count <= usize::MAX,
        forall|i: int| 0 <= i < entries.len() ==> (#[trigger] entries[i]).name.len() > 0,
        forall|i: int, k: int|
            0 <= i < entries.len() && 0 <= k < entries[i].name.len() ==> (
            #[trigger] entries[i].name[k]) != '\n' && entries[i].name[k] != '\r',
    ensures
        read_filelist(
            seq!['W', 'N', 'F', 'L', '1', ' '] + decimal(count) + seq!['\n'] + entry_lines(entries),
        ) == if count == entries.len() {
            Some(entries)
        } else {
            None
        },
{
    let text = header_line(count).push('\n') + entry_lines(entries);
    reveal_strlit("WNFL1");
    assert(text =~= seq!['W', 'N', 'F', 'L', '1', ' '] + decimal(count) + seq!['\n']
        + entry_lines(entries));
    assert forall|i: int| 0 <= i < entries.len() implies (#[trigger] entries[i]).name.len() > 0
        && fits_line(entries[i].name) by {
        let name = entries[i].name;
        if name.contains('\n') {
            let k = choose|k: int| 0 <= k < name.len() && name[k] == '\n';
            assert(entries[i].name[k] == '\n');
        }
        if name.contains('\r') {
            let k = choose|k: int| 0 <= k < name.len() && name[k] == '\r';
            assert(entries[i].name[k] == '\r');
        }
    }
    lemma_filelist_lines(count, entries);
    lemma_header_line(count);
}

/// A line is an entry if and only if it is a letter for a kind, a blank and a
/// name that is not empty.
pub proof fn law_entry_lines(line: Seq<char>)
    ensures
        match entry_of_line(line) {
            Some(entry) => {
                &&& entry.name.len() > 0
                &&& line == seq![
                    if entry.is_dir {
                        'D'
                    } else {
                        'F'
                    },
                    ' ',
                ] + entry.name
            },
            None => line.len() <= 2 || (line[0] != 'F' && line[0] != 'D') || line[1] != ' ',
        },
{
    if let Some(entry) = entry_of_line(line) {
        assert(line =~= seq![
            if entry.is_dir {
                'D'
            } else {
                'F'
            },
            ' ',
        ] + entry.name);
    }
}

/// What a first line announces: the number behind the mark, white space about
/// it left aside. Without the mark it announces nothing.
pub proof fn law_announced(rest: Seq<char>, other: Seq<char>)
    ensures
        announced(seq!['W', 'N', 'F', 'L', '1'] + rest) == parse_decimal(
            trim(rest),
            usize::MAX as nat,
        ),
        announced(other) is Some ==> other.len() >= 5 && other.take(5) == seq![
            'W',
            'N',
            'F',
            'L',
            '1',
        ],
{
    reveal_strlit("WNFL1");
    let mark = seq!['W', 'N', 'F', 'L', '1'];
    assert(FILELIST_HEADER@ =~= mark);
    let header = mark + rest;
    assert(header.take(5) == mark);
    assert(header.skip(5) == rest);
}

/// A text is read as the entries on its lines after the first; lines that are
/// no entries are passed over.
pub proof fn law_lines_are_read(text: Seq<char>, found: Seq<EntryView>)
    requires
        read_filelist(text) == Some(found),
    ensures
        lines(text).len() > 0,
        announced(lines(text)[0]) == Some(found.len()),
        forall|e: EntryView|
            found.contains(e) <==> exists|i: int|
                1 <= i < lines(text).len() && #[trigger] entry_of_line(lines(text)[i]) == Some(e),
{
    let rest = lines(text).skip(1);
    lemma_entries_members(rest);
    assert forall|e: EntryView|
        found.contains(e) <==> exists|i: int|
            1 <= i < lines(text).len() && #[trigger] entry_of_line(lines(text)[i]) == Some(e) by {
        if found.contains(e) {
            let i = choose|i: int| 0 <= i < rest.len() && #[trigger] entry_of_line(rest[i]) == Some(e);
            assert(entry_of_line(lines(text)[i + 1]) == Some(e));
        }
        if exists|i: int|
            1 <= i < lines(text).len() && #[trigger] entry_of_line(lines(text)[i]) == Some(e) {
            let i = choose|i: int|
                1 <= i < lines(text).len() && #[trigger] entry_of_line(lines(text)[i]) == Some(e);
            assert(entry_of_line(rest[i - 1]) == Some(e));
        }
    }
}

proof fn lemma_entries_members(found: Seq<Seq<char>>)
    ensures
        forall|e: EntryView|
            entries_of_lines(found).contains(e) <==> exists|i: int|
                0 <= i < found.len() && #[trigger] entry_of_line(found[i]) == Some(e),
    decreases found.len(),
{
    if found.len() > 0 {
        let init = found.drop_last();
        let before = entries_of_lines(init);
        let all = entries_of_lines(found);
        lemma_entries_members(init);
        assert forall|e: EntryView|
            all.contains(e) <==> exists|i: int|
                0 <= i < found.len() && #[trigger] entry_of_line(found[i]) == Some(e) by {
            if all.contains(e) {
                let k = choose|k: int| 0 <= k < all.len() && all[k] == e;
                if k < before.len() {
                    assert(before[k] == e);
                    assert(before.contains(e));
                    let i = choose|i: int|
                        0 <= i < init.len() && #[trigger] entry_of_line(init[i]) == Some(e);
                    assert(entry_of_line(found[i]) == Some(e));
                } else {
                    assert(entry_of_line(found[found.len() - 1]) == Some(e));
                }
            }
            if exists|i: int|
                0 <= i < found.len() && #[trigger] entry_of_line(found[i]) == Some(e) {
                let i = choose|i: int|
                    0 <= i < found.len() && #[trigger] entry_of_line(found[i]) == Some(e);
                if i < init.len() {
                    assert(entry_of_line(init[i]) == Some(e));
                    assert(before.contains(e));
                    let k = choose|k: int| 0 <= k < before.len() && before[k] == e;
                    assert(all[k] == e);
                } else {
                    assert(all[before.len() as int] == e);
                }
            }
        }
    } else {
        assert(entries_of_lines(found) == Seq::<EntryView>::empty());
    }
}

} // verus!
