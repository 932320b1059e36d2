//! Text as a sequence of characters: splitting, joining, trimming, case
//! folding and decimal numbers.
use vstd::prelude::*;

pub mod laws;

verus! {

/// `String::push`: appends the character to the end of the string. Nothing
/// else is claimed of it.
pub assume_specification[ String::push ](text: &mut String, c: char)
    ensures
        final(text)@ == old(text)@.push(c),
;

// ---------------------------------------------------------------------------
// Views of collections of strings
// ---------------------------------------------------------------------------

/// The texts that a sequence of strings holds.
pub open spec fn texts(strings: Seq<String>) -> Seq<Seq<char>> {
    strings.map_values(|s: String| s@)
}

/// The characters of `text`, one by one.
pub fn chars_of(text: &str) -> (chars: Vec<char>)
    ensures
        chars@ == text@,
{
    let mut chars: Vec<char> = Vec::new();
    for c in it: text.chars()
        invariant
            it.seq() == text@,
            chars@ == text@.take(it.index() as int),
    {
        proof {
            assert(text@.take(it.index() as int + 1) == text@.take(it.index() as int).push(c));
        }
        chars.push(c);
    }
    chars
}

/// The string made of the characters `from..to`.
pub fn text_of(chars: &[char], from: usize, to: usize) -> (text: String)
    requires
        from <= to <= chars@.len(),
    ensures
        text@ == chars@.subrange(from as int, to as int),
{
    let mut text = String::new();
    for i in from..to
        invariant
            from <= i <= to <= chars@.len(),
            text@ == chars@.subrange(from as int, i as int),
    {
        proof {
            assert(chars@.subrange(from as int, i + 1) == chars@.subrange(from as int, i as int).push(
                chars@[i as int],
            ));
        }
        text.push(chars[i]);
    }
    text
}

// ---------------------------------------------------------------------------
// Splitting and joining
// ---------------------------------------------------------------------------

/// The pieces of `s` between the occurrences of `sep`; there is always one
/// more piece than there are separators.
pub open spec fn split(s: Seq<char>, sep: char) -> Seq<Seq<char>>
    decreases s.len(),
{
    if s.len() == 0 {
        seq![Seq::empty()]
    } else {
        let head = split(s.drop_last(), sep);
        if s.last() == sep {
            head.push(Seq::empty())
        } else {
            head.drop_last().push(head.last().push(s.last()))
        }
    }
}

/// The pieces in a row, with `sep` between each and the next.
pub open spec fn join(pieces: Seq<Seq<char>>, sep: char) -> Seq<char>
    decreases pieces.len(),
{
    if pieces.len() == 0 {
        Seq::empty()
    } else if pieces.len() == 1 {
        pieces[0]
    } else {
        join(pieces.drop_last(), sep).push(sep) + pieces.last()
    }
}

pub proof fn lemma_split_nonempty(s: Seq<char>, sep: char)
    ensures
        split(s, sep).len() >= 1,
    decreases s.len(),
{
    if s.len() > 0 {
        lemma_split_nonempty(s.drop_last(), sep);
    }
}

/// No piece holds the separator.
pub proof fn lemma_split_pieces(s: Seq<char>, sep: char)
    ensures
        split(s, sep).len() >= 1,
        forall|i: int| 0 <= i < split(s, sep).len() ==> !(#[trigger] split(s, sep)[i]).contains(sep),
    decreases s.len(),
{
    if s.len() > 0 {
        let head = split(s.drop_last(), sep);
        lemma_split_pieces(s.drop_last(), sep);
        assert forall|i: int| 0 <= i < split(s, sep).len() implies !(#[trigger] split(
            s,
            sep,
        )[i]).contains(sep) by {
            if s.last() == sep {
                if i < head.len() {
                    assert(split(s, sep)[i] == head[i]);
                }
            } else if i < head.len() - 1 {
                assert(split(s, sep)[i] == head[i]);
            } else {
                assert(split(s, sep)[i] == head.last().push(s.last()));
                let piece = head.last().push(s.last());
                if piece.contains(sep) {
                    let k = choose|k: int| 0 <= k < piece.len() && piece[k] == sep;
                    assert(k < head.last().len());
                    assert(head.last()[k] == sep);
                    assert(head.last().contains(sep));
                }
            }
        }
    }
}

/// Joining the pieces gives the text back.
pub proof fn lemma_join_split(s: Seq<char>, sep: char)
    ensures
        join(split(s, sep), sep) == s,
    decreases s.len(),
{
    if s.len() > 0 {
        let head = split(s.drop_last(), sep);
        lemma_join_split(s.drop_last(), sep);
        lemma_split_nonempty(s.drop_last(), sep);
        if s.last() == sep {
            assert(head.push(Seq::empty()).drop_last() == head);
            assert(join(head, sep).push(sep) + Seq::<char>::empty() == s);
        } else {
            let out = head.drop_last().push(head.last().push(s.last()));
            assert(out.drop_last() == head.drop_last());
            if head.len() == 1 {
                assert(join(out, sep) == head[0].push(s.last()));
                assert(s == s.drop_last().push(s.last()));
            } else {
                assert(join(out, sep) == join(head.drop_last(), sep).push(sep) + head.last().push(
                    s.last(),
                ));
                assert(join(head, sep) == join(head.drop_last(), sep).push(sep) + head.last());
                let front = join(head.drop_last(), sep).push(sep);
                assert(front + head.last().push(s.last()) == (front + head.last()).push(s.last()));
                assert(s == s.drop_last().push(s.last()));
            }
        }
    }
}

/// Splitting after a separator and a run without one: the run is a piece of
/// its own.
pub proof fn lemma_split_append(s: Seq<char>, tail: Seq<char>, sep: char)
    requires
        !tail.contains(sep),
    ensures
        split(s.push(sep) + tail, sep) == split(s, sep).push(tail),
    decreases tail.len(),
{
    let whole = s.push(sep) + tail;
    if tail.len() == 0 {
        assert(whole == s.push(sep));
        assert(whole.drop_last() == s);
        assert(tail == Seq::<char>::empty());
    } else {
        let shorter = tail.drop_last();
        assert(!shorter.contains(sep)) by {
            if shorter.contains(sep) {
                let k = choose|k: int| 0 <= k < shorter.len() && shorter[k] == sep;
                assert(tail[k] == sep);
            }
        }
        lemma_split_append(s, shorter, sep);
        assert(whole.drop_last() == s.push(sep) + shorter);
        assert(whole.last() == tail.last());
        assert(tail.contains(tail.last())) by {
            assert(tail[tail.len() - 1] == tail.last());
        }
        let head = split(s, sep).push(shorter);
        assert(head.drop_last() == split(s, sep));
        assert(shorter.push(tail.last()) == tail);
    }
}

/// A text without the separator is its only piece.
pub proof fn lemma_split_single(s: Seq<char>, sep: char)
    requires
        !s.contains(sep),
    ensures
        split(s, sep) == seq![s],
    decreases s.len(),
{
    if s.len() > 0 {
        let shorter = s.drop_last();
        assert(!shorter.contains(sep)) by {
            if shorter.contains(sep) {
                let k = choose|k: int| 0 <= k < shorter.len() && shorter[k] == sep;
                assert(s[k] == sep);
            }
        }
        lemma_split_single(shorter, sep);
        assert(s[s.len() - 1] == s.last());
        assert(shorter.push(s.last()) == s);
        assert(seq![shorter].drop_last() == Seq::<Seq<char>>::empty());
        assert(split(s, sep) == seq![s]);
    } else {
        assert(s == Seq::<char>::empty());
    }
}

/// Splitting undoes joining, for pieces without the separator.
pub proof fn lemma_split_join(pieces: Seq<Seq<char>>, sep: char)
    requires
        pieces.len() >= 1,
        forall|i: int| 0 <= i < pieces.len() ==> !(#[trigger] pieces[i]).contains(sep),
    ensures
        split(join(pieces, sep), sep) == pieces,
    decreases pieces.len(),
{
    if pieces.len() == 1 {
        lemma_split_single(pieces[0], sep);
        assert(pieces == seq![pieces[0]]);
    } else {
        let init = pieces.drop_last();
        assert forall|i: int| 0 <= i < init.len() implies !(#[trigger] init[i]).contains(sep) by {
            assert(init[i] == pieces[i]);
        }
        lemma_split_join(init, sep);
        assert(!pieces[pieces.len() - 1].contains(sep));
        lemma_split_append(join(init, sep), pieces.last(), sep);
        assert(init.push(pieces.last()) == pieces);
    }
}

/// The pieces of `text` between the occurrences of `sep`.
pub fn split_text(text: &str, sep: char) -> (pieces: Vec<String>)
    ensures
        texts(pieces@) == split(text@, sep),
{
    let chars = chars_of(text);
    let mut pieces: Vec<String> = Vec::new();
    let mut piece = String::new();
    for i in 0..chars.len()
        invariant
            chars@ == text@,
            split(text@.take(i as int), sep) == texts(pieces@).push(piece@),
    {
        let c = chars[i];
        let ghost before = split(text@.take(i as int), sep);
        proof {
            assert(text@.take(i + 1).drop_last() == text@.take(i as int));
            assert(text@.take(i + 1).last() == c);
            assert(before.drop_last() == texts(pieces@));
        }
        if c == sep {
            let ghost old_pieces = pieces@;
            let ghost old_piece = piece;
            pieces.push(piece);
            piece = String::new();
            proof {
                assert(texts(pieces@) == texts(old_pieces).push(old_piece@));
            }
        } else {
            piece.push(c);
        }
    }
    proof {
        assert(text@.take(text@.len() as int) == text@);
    }
    let ghost old_pieces = pieces@;
    let ghost old_piece = piece;
    pieces.push(piece);
    proof {
        assert(texts(pieces@) == texts(old_pieces).push(old_piece@));
    }
    pieces
}

// ---------------------------------------------------------------------------
// Lines
// ---------------------------------------------------------------------------

/// `line` without one carriage return at its end, if there is one.
pub open spec fn without_cr(line: Seq<char>) -> Seq<char> {
    if line.len() > 0 && line.last() == '\r' {
        line.drop_last()
    } else {
        line
    }
}

/// The lines of a text. A line ends in a line feed, or in a carriage return
/// and a line feed; the last line may lack its ending, and then keeps a
/// carriage return.
pub open spec fn lines(s: Seq<char>) -> Seq<Seq<char>> {
    let pieces = split(s, '\n');
    let ended = pieces.drop_last().map_values(|line: Seq<char>| without_cr(line));
    if pieces.last().len() == 0 {
        ended
    } else {
        ended.push(pieces.last())
    }
}

/// Whether a text stops at the end of a line.
pub open spec fn at_line_start(s: Seq<char>) -> bool {
    s.len() == 0 || s.last() == '\n'
}

/// After whole lines, a run of characters without a line feed is a last line
/// of its own.
pub proof fn lemma_lines_tail(s: Seq<char>, tail: Seq<char>)
    requires
        at_line_start(s),
        tail.len() > 0,
        !tail.contains('\n'),
    ensures
        lines(s + tail) == lines(s).push(tail),
{
    let cut = |line: Seq<char>| without_cr(line);
    if s.len() == 0 {
        assert(s + tail == tail);
        lemma_split_single(tail, '\n');
        assert(split(s, '\n') == seq![Seq::<char>::empty()]);
        assert(lines(s) == Seq::<Seq<char>>::empty());
        assert(seq![tail].drop_last().map_values(cut) == Seq::<Seq<char>>::empty());
        assert(lines(s + tail) == seq![tail]);
        assert(lines(s).push(tail) == seq![tail]);
    } else {
        let init = s.drop_last();
        assert(init.push('\n') == s);
        lemma_split_append(init, tail, '\n');
        lemma_split_append(init, Seq::empty(), '\n');
        assert(init.push('\n') + Seq::<char>::empty() == s);
        let pieces = split(init, '\n');
        assert(pieces.push(tail).drop_last() == pieces);
        assert(pieces.push(Seq::empty()).drop_last() == pieces);
    }
}

/// After whole lines, one more line with its ending is one more line.
pub proof fn lemma_lines_push(s: Seq<char>, line: Seq<char>)
    requires
        at_line_start(s),
        !line.contains('\n'),
        !line.contains('\r'),
    ensures
        lines(s + line.push('\n')) == lines(s).push(line),
{
    let cut = |line: Seq<char>| without_cr(line);
    let whole = s + line.push('\n');
    assert((s + line).push('\n') + Seq::<char>::empty() == whole);
    lemma_split_append(s + line, Seq::empty(), '\n');
    let pieces = split(s + line, '\n');
    assert(pieces.push(Seq::empty()).drop_last() == pieces);
    assert(without_cr(line) == line) by {
        if line.len() > 0 && line.last() == '\r' {
            assert(line[line.len() - 1] == '\r');
        }
    }
    if s.len() == 0 {
        assert(s + line == line);
        lemma_split_single(line, '\n');
        assert(split(s, '\n') == seq![Seq::<char>::empty()]);
        assert(lines(s) == Seq::<Seq<char>>::empty());
        assert(seq![line].map_values(cut) == seq![line]);
        assert(lines(s).push(line) == seq![line]);
    } else {
        let init = s.drop_last();
        assert(init.push('\n') == s);
        lemma_split_append(init, line, '\n');
        lemma_split_append(init, Seq::empty(), '\n');
        assert(init.push('\n') + Seq::<char>::empty() == s);
        let before = split(init, '\n');
        assert(before.push(Seq::empty()).drop_last() == before);
        assert(before.push(line).map_values(cut) == before.map_values(cut).push(line));
    }
}

/// The lines of `text`.
pub fn lines_of(text: &str) -> (found: Vec<String>)
    ensures
        texts(found@) == lines(text@),
{
    let mut found: Vec<String> = Vec::new();
    let pieces = split_text(text, '\n');
    proof {
        lemma_split_nonempty(text@, '\n');
        assert(texts(pieces@).len() == pieces@.len());
    }
    let ghost ended = split(text@, '\n').drop_last().map_values(
        |line: Seq<char>| without_cr(line),
    );
    let last: usize = pieces.len() - 1;
    for i in 0..last
        invariant
            texts(pieces@) == split(text@, '\n'),
            last == pieces@.len() - 1,
            ended == split(text@, '\n').drop_last().map_values(|line: Seq<char>| without_cr(line)),
            texts(found@) == ended.take(i as int),
    {
        let chars = chars_of(pieces[i].as_str());
        let ghost old_found = found@;
        let line = if chars.len() > 0 && chars[chars.len() - 1] == '\r' {
            text_of(chars.as_slice(), 0, chars.len() - 1)
        } else {
            text_of(chars.as_slice(), 0, chars.len())
        };
        proof {
            assert(chars@ == texts(pieces@)[i as int]);
            assert(chars@.subrange(0, chars@.len() as int) == chars@);
            if chars@.len() > 0 {
                assert(chars@.subrange(0, chars@.len() - 1) == chars@.drop_last());
            }
            assert(line@ == ended[i as int]);
        }
        let ghost text_line = line@;
        found.push(line);
        proof {
            assert(texts(found@) == texts(old_found).push(text_line));
            assert(ended.take(i + 1) == ended.take(i as int).push(ended[i as int]));
        }
    }
    proof {
        assert(ended.take(last as int) == ended);
        assert(texts(pieces@)[last as int] == pieces@[last as int]@);
    }
    let tail = pieces[last].clone();
    if !tail.as_str().is_empty() {
        let ghost old_found = found@;
        let ghost text_tail = tail@;
        found.push(tail);
        proof {
            assert(texts(found@) == texts(old_found).push(text_tail));
        }
    }
    found
}

// ---------------------------------------------------------------------------
// Case folding
// ---------------------------------------------------------------------------

/// `c` with an ASCII capital letter made small.
pub open spec fn lower_char(c: char) -> char {
    if 'A' <= c <= 'Z' {
        (c as u8 + 32) as u8 as char
    } else {
        c
    }
}

/// A text with every ASCII capital letter made small.
pub open spec fn lower(s: Seq<char>) -> Seq<char> {
    s.map_values(|c: char| lower_char(c))
}

/// `text` with every ASCII capital letter made small.
pub fn lower_text(text: &str) -> (folded: String)
    ensures
        folded@ == lower(text@),
{
    let chars = chars_of(text);
    let mut folded = String::new();
    for i in 0..chars.len()
        invariant
            chars@ == text@,
            folded@ == lower(text@).take(i as int),
    {
        let c = chars[i];
        let small = if 'A' <= c && c <= 'Z' {
            ((c as u8) + 32u8) as char
        } else {
            c
        };
        proof {
            assert(lower(text@)[i as int] == small);
            assert(lower(text@).take(i + 1) == lower(text@).take(i as int).push(small));
        }
        folded.push(small);
    }
    proof {
        assert(lower(text@).take(text@.len() as int) == lower(text@));
    }
    folded
}

// ---------------------------------------------------------------------------
// Suffixes
// ---------------------------------------------------------------------------

pub open spec fn ends_with(s: Seq<char>, suffix: Seq<char>) -> bool {
    suffix.len() <= s.len() && s.skip(s.len() - suffix.len()) == suffix
}

/// What stands before `suffix` at the end of `s`.
pub open spec fn strip_suffix(s: Seq<char>, suffix: Seq<char>) -> Option<Seq<char>> {
    if ends_with(s, suffix) {
        Some(s.take(s.len() - suffix.len()))
    } else {
        None
    }
}

/// `text` without `suffix` at its end, or nothing where it ends otherwise.
pub fn strip_suffix_text(text: &str, suffix: &str) -> (stem: Option<String>)
    ensures
        match stem {
            Some(stem) => strip_suffix(text@, suffix@) == Some(stem@),
            None => strip_suffix(text@, suffix@) is None,
        },
{
    let chars = chars_of(text);
    let end = chars_of(suffix);
    if end.len() > chars.len() {
        return None;
    }
    let cut: usize = chars.len() - end.len();
    for i in 0..end.len()
        invariant
            chars@ == text@,
            end@ == suffix@,
            cut + end.len() == chars.len(),
            forall|k: int| 0 <= k < i ==> chars@[cut + k] == end@[k],
    {
        if chars[cut + i] != end[i] {
            proof {
                assert(text@.skip(cut as int)[i as int] != suffix@[i as int]);
            }
            return None;
        }
    }
    proof {
        assert(text@.skip(cut as int) == suffix@);
        assert(text@.subrange(0, cut as int) == text@.take(cut as int));
    }
    Some(text_of(chars.as_slice(), 0, cut))
}

// ---------------------------------------------------------------------------
// White space
// ---------------------------------------------------------------------------

/// The characters with the Unicode property `White_Space`.
pub open spec fn is_white(c: char) -> bool {
    ||| '\u{9}' <= c <= '\u{d}'
    ||| c == ' '
    ||| c == '\u{85}'
    ||| c == '\u{a0}'
    ||| c == '\u{1680}'
    ||| '\u{2000}' <= c <= '\u{200a}'
    ||| c == '\u{2028}'
    ||| c == '\u{2029}'
    ||| c == '\u{202f}'
    ||| c == '\u{205f}'
    ||| c == '\u{3000}'
}

fn white(c: char) -> (yes: bool)
    ensures
        yes == is_white(c),
{
    ('\u{9}' <= c && c <= '\u{d}') || c == ' ' || c == '\u{85}' || c == '\u{a0}' || c == '\u{1680}'
        || ('\u{2000}' <= c && c <= '\u{200a}') || c == '\u{2028}' || c == '\u{2029}' || c
        == '\u{202f}' || c == '\u{205f}' || c == '\u{3000}'
}

pub open spec fn trim_start(s: Seq<char>) -> Seq<char>
    decreases s.len(),
{
    if s.len() > 0 && is_white(s[0]) {
        trim_start(s.skip(1))
    } else {
        s
    }
}

pub open spec fn trim_end(s: Seq<char>) -> Seq<char>
    decreases s.len(),
{
    if s.len() > 0 && is_white(s.last()) {
        trim_end(s.drop_last())
    } else {
        s
    }
}

/// A text without the white space at its two ends.
pub open spec fn trim(s: Seq<char>) -> Seq<char> {
    trim_end(trim_start(s))
}

/// `text` without the white space at its two ends.
pub fn trim_text(text: &str) -> (trimmed: String)
    ensures
        trimmed@ == trim(text@),
{
    let chars = chars_of(text);
    let mut from: usize = 0;
    proof {
        assert(text@.skip(0) == text@);
    }
    while from < chars.len() && white(chars[from])
        invariant
            chars@ == text@,
            from <= chars@.len(),
            trim_start(text@) == trim_start(text@.skip(from as int)),
        decreases chars@.len() - from,
    {
        proof {
            assert(text@.skip(from as int).skip(1) == text@.skip(from + 1));
        }
        from += 1;
    }
    let mut to: usize = chars.len();
    let ghost rest = text@.skip(from as int);
    proof {
        assert(trim_start(text@) == rest);
        assert(text@.subrange(from as int, to as int) == rest);
    }
    while to > from && white(chars[to - 1])
        invariant
            chars@ == text@,
            from <= to <= chars@.len(),
            trim_end(rest) == trim_end(text@.subrange(from as int, to as int)),
        decreases to,
    {
        proof {
            let now = text@.subrange(from as int, to as int);
            assert(now.last() == text@[to - 1]);
            assert(now.drop_last() == text@.subrange(from as int, to - 1));
        }
        to -= 1;
    }
    proof {
        let now = text@.subrange(from as int, to as int);
        if from < to {
            assert(now.last() == text@[to - 1]);
        }
        assert(trim_end(now) == now);
    }
    text_of(chars.as_slice(), from, to)
}

// ---------------------------------------------------------------------------
// Decimal numbers
// ---------------------------------------------------------------------------

pub open spec fn is_digit(c: char) -> bool {
    '0' <= c <= '9'
}

pub open spec fn all_digits(s: Seq<char>) -> bool {
    forall|i: int| 0 <= i < s.len() ==> is_digit(#[trigger] s[i])
}

/// The digit that stands for `d`, below ten.
pub open spec fn digit(d: nat) -> char {
    (d + 48) as u8 as char
}

/// `n` in decimal digits, without leading zeros.
pub open spec fn decimal(n: nat) -> Seq<char>
    decreases n,
{
    if n < 10 {
        seq![digit(n)]
    } else {
        decimal(n / 10).push(digit(n % 10))
    }
}

/// The number that a run of digits stands for.
pub open spec fn decimal_value(s: Seq<char>) -> nat
    decreases s.len(),
{
    if s.len() == 0 {
        0
    } else {
        decimal_value(s.drop_last()) * 10 + (s.last() as nat - 48) as nat
    }
}

/// The number, at most `max`, that a text stands for: one or more digits,
/// behind a plus sign or none.
pub open spec fn parse_decimal(s: Seq<char>, max: nat) -> Option<nat> {
    let digits = if s.len() > 0 && s[0] == '+' {
        s.skip(1)
    } else {
        s
    };
    if digits.len() > 0 && all_digits(digits) && decimal_value(digits) <= max {
        Some(decimal_value(digits))
    } else {
        None
    }
}

pub proof fn lemma_decimal(n: nat)
    ensures
        decimal(n).len() > 0,
        all_digits(decimal(n)),
        decimal_value(decimal(n)) == n,
    decreases n,
{
    if n < 10 {
        let s = seq![digit(n)];
        assert(s.drop_last() == Seq::<char>::empty());
        assert(decimal_value(s.drop_last()) == 0);
        assert(s.last() as nat == n + 48);
    } else {
        lemma_decimal(n / 10);
        let head = decimal(n / 10);
        let d = digit(n % 10);
        assert(d as nat == n % 10 + 48);
        assert(head.push(d).drop_last() == head);
    }
}

/// A number is read back from its digits.
pub proof fn lemma_parse_decimal(n: nat, max: nat)
    requires
        n <= max,
    ensures
        parse_decimal(decimal(n), max) == Some(n),
{
    lemma_decimal(n);
    assert(is_digit(decimal(n)[0]));
}

/// A number other than zero does not begin with a zero.
pub proof fn lemma_decimal_front(n: nat, k: int)
    requires
        0 < k <= decimal(n).len(),
        decimal_value(decimal(n).take(k)) == 0,
    ensures
        n == 0,
    decreases n,
{
    let digits = decimal(n);
    if k == digits.len() {
        assert(digits.take(k) == digits);
        lemma_decimal(n);
    } else {
        let head = decimal(n / 10);
        assert(digits.take(k) == head.take(k));
        lemma_decimal_front(n / 10, k);
    }
}

proof fn lemma_decimal_value_grows(s: Seq<char>, i: int)
    requires
        0 <= i <= s.len(),
    ensures
        decimal_value(s.take(i)) <= decimal_value(s),
    decreases s.len(),
{
    if i == s.len() {
        assert(s.take(i) == s);
    } else {
        lemma_decimal_value_grows(s.drop_last(), i);
        assert(s.drop_last().take(i) == s.take(i));
    }
}

/// The decimal digits of `n`.
pub fn decimal_text(n: u64) -> (text: String)
    ensures
        text@ == decimal(n as nat),
{
    let mut digits: Vec<char> = Vec::new();
    let mut rest: u64 = n;
    while rest >= 10
        invariant
            decimal(n as nat) == decimal(rest as nat) + digits@.reverse(),
        decreases rest,
    {
        let d = ((rest % 10) as u8 + 48u8) as char;
        let ghost old_digits = digits@;
        digits.push(d);
        proof {
            assert(digits@.reverse() == seq![d] + old_digits.reverse());
            assert(decimal(rest as nat) == decimal((rest / 10) as nat).push(d));
            assert(decimal((rest / 10) as nat).push(d) + old_digits.reverse() == decimal(
                (rest / 10) as nat,
            ) + digits@.reverse());
        }
        rest = rest / 10;
    }
    let ghost old_digits = digits@;
    let d = (rest as u8 + 48u8) as char;
    digits.push(d);
    proof {
        assert(digits@.reverse() == seq![d] + old_digits.reverse());
        assert(decimal(n as nat) == digits@.reverse());
    }
    let mut text = String::new();
    let mut left: usize = digits.len();
    while left > 0
        invariant
            left <= digits@.len(),
            text@ == digits@.reverse().take(digits@.len() - left),
        decreases left,
    {
        left -= 1;
        proof {
            let done = digits@.len() - left - 1;
            assert(digits@.reverse().take(done + 1) == digits@.reverse().take(done).push(
                digits@[left as int],
            ));
        }
        text.push(digits[left]);
    }
    proof {
        assert(digits@.reverse().take(digits@.len() as int) == digits@.reverse());
    }
    text
}

/// The number, at most `max`, that `text` stands for.
pub fn parse_decimal_text(text: &str, max: u64) -> (value: Option<u64>)
    ensures
        match value {
            Some(value) => parse_decimal(text@, max as nat) == Some(value as nat),
            None => parse_decimal(text@, max as nat) is None,
        },
{
    let chars = chars_of(text);
    let from: usize = if chars.len() > 0 && chars[0] == '+' {
        1
    } else {
        0
    };
    let ghost digits = text@.skip(from as int);
    proof {
        assert(text@.skip(0) == text@);
    }
    if from == chars.len() {
        return None;
    }
    let mut value: u64 = 0;
    for i in from..chars.len()
        invariant
            chars@ == text@,
            from <= i <= chars@.len(),
            digits == text@.skip(from as int),
            from == (if text@.len() > 0 && text@[0] == '+' {
                1int
            } else {
                0int
            }),
            digits.len() > 0,
            parse_decimal(text@, max as nat) == (if all_digits(digits) && decimal_value(digits)
                <= max {
                Some(decimal_value(digits))
            } else {
                None
            }),
            all_digits(digits.take(i - from)),
            value == decimal_value(digits.take(i - from)),
            value <= max,
    {
        let c = chars[i];
        let ghost k = i - from;
        proof {
            assert(digits[k] == c);
            assert(digits.take(k + 1).drop_last() == digits.take(k));
        }
        if c < '0' || '9' < c {
            return None;
        }
        let wide: u128 = (value as u128) * 10 + ((c as u8) - 48u8) as u128;
        proof {
            assert(wide == decimal_value(digits.take(k + 1)));
            lemma_decimal_value_grows(digits, k + 1);
        }
        if wide > max as u128 {
            return None;
        }
        value = wide as u64;
        proof {
            assert(digits.take(k + 1) == digits.take(k).push(c));
        }
    }
    proof {
        assert(digits.take(digits.len() as int) == digits);
    }
    Some(value)
}

} // verus!
