//! What the operations on text mean, said character by character.
use crate::text::{
    all_digits, decimal, decimal_value, digit, ends_with, is_digit, is_white, join,
    lemma_split_nonempty, lemma_split_single, lines, lower, lower_char, parse_decimal, split,
    strip_suffix, trim, trim_end, trim_start, without_cr,
};
use vstd::prelude::*;

verus! {

// ---------------------------------------------------------------------------
// Splitting, joining, lines
// ---------------------------------------------------------------------------

/// A text without the separator is one piece.
pub proof fn law_split_whole(s: Seq<char>, sep: char)
    requires
        forall|k: int| 0 <= k < s.len() ==> s[k] != sep,
    ensures
        split(s, sep) == seq![s],
{
    lemma_split_single(s, sep);
}

/// At a separator a text falls apart: its pieces are those of what stands
/// before, then those of what stands behind.
pub proof fn law_split_apart(before: Seq<char>, behind: Seq<char>, sep: char)
    ensures
        split(before.push(sep) + behind, sep) == split(before, sep) + split(behind, sep),
    decreases behind.len(),
{
    let whole = before.push(sep) + behind;
    let first = split(before, sep);
    lemma_split_nonempty(before, sep);
    if behind.len() == 0 {
        assert(whole == before.push(sep));
        assert(whole.drop_last() == before);
        assert(split(whole, sep) == first.push(Seq::empty()));
        assert(first + seq![Seq::<char>::empty()] == first.push(Seq::empty()));
    } else {
        let init = behind.drop_last();
        let second = split(init, sep);
        law_split_apart(before, init, sep);
        lemma_split_nonempty(init, sep);
        assert(whole.drop_last() == before.push(sep) + init);
        assert(whole.last() == behind.last());
        if behind.last() == sep {
            assert((first + second).push(Seq::empty()) == first + second.push(Seq::empty()));
        } else {
            let piece = second.last().push(behind.last());
            assert((first + second).last() == second.last());
            assert((first + second).drop_last() == first + second.drop_last());
            assert((first + second.drop_last()).push(piece) == first + second.drop_last().push(
                piece,
            ));
        }
    }
}

/// No piece joins to nothing, one piece to itself, and one more piece comes
/// behind a separator.
pub proof fn law_join(pieces: Seq<Seq<char>>, piece: Seq<char>, sep: char)
    ensures
        join(Seq::empty(), sep) == Seq::<char>::empty(),
        join(seq![piece], sep) == piece,
        pieces.len() > 0 ==> join(pieces.push(piece), sep) == join(pieces, sep).push(sep) + piece,
{
    assert(pieces.push(piece).drop_last() == pieces);
}

/// The first line ends at the first line feed, and loses one carriage return
/// before it; the other lines are those of the rest.
pub proof fn law_first_line(line: Seq<char>, rest: Seq<char>)
    requires
        forall|k: int| 0 <= k < line.len() ==> line[k] != '\n',
    ensures
        lines(line.push('\n') + rest) == seq![
            if line.len() > 0 && line[line.len() - 1] == '\r' {
                line.take(line.len() - 1)
            } else {
                line
            },
        ] + lines(rest),
{
    let cut = |line: Seq<char>| without_cr(line);
    let behind = split(rest, '\n');
    law_split_apart(line, rest, '\n');
    law_split_whole(line, '\n');
    lemma_split_nonempty(rest, '\n');
    let pieces = seq![line] + behind;
    assert(pieces.last() == behind.last());
    assert(pieces.drop_last() == seq![line] + behind.drop_last());
    assert(pieces.drop_last().map_values(cut) == seq![without_cr(line)]
        + behind.drop_last().map_values(cut));
    if line.len() > 0 && line[line.len() - 1] == '\r' {
        assert(line.drop_last() == line.take(line.len() - 1));
    }
    if behind.last().len() > 0 {
        assert((seq![without_cr(line)] + behind.drop_last().map_values(cut)).push(behind.last())
            == seq![without_cr(line)] + behind.drop_last().map_values(cut).push(behind.last()));
    }
}

/// A text without a line feed is one line, as it is; no text is no line.
pub proof fn law_last_line(s: Seq<char>)
    requires
        forall|k: int| 0 <= k < s.len() ==> s[k] != '\n',
    ensures
        lines(s) == if s.len() == 0 {
            Seq::<Seq<char>>::empty()
        } else {
            seq![s]
        },
{
    let cut = |line: Seq<char>| without_cr(line);
    law_split_whole(s, '\n');
    assert(seq![s].drop_last().map_values(cut) == Seq::<Seq<char>>::empty());
    assert(lines(s) =~= if s.len() == 0 {
        Seq::<Seq<char>>::empty()
    } else {
        seq![s]
    });
}

// ---------------------------------------------------------------------------
// Case, ends, white space
// ---------------------------------------------------------------------------

/// Folding case changes the capital letters of ASCII, by thirty-two code
/// points, and no other character.
pub proof fn law_lower(s: Seq<char>, k: int)
    requires
        0 <= k < s.len(),
    ensures
        lower(s).len() == s.len(),
        lower(s)[k] as int == if 65 <= s[k] as int <= 90 {
            s[k] as int + 32
        } else {
            s[k] as int
        },
{
    let c = s[k];
    assert(lower(s)[k] == lower_char(c));
    if 65 <= c as int <= 90 {
        let small: u8 = (c as u8 + 32) as u8;
        assert(small as int == c as int + 32);
        assert((small as char) as int == small as int);
    }
}

/// A suffix is stripped from what ends in it, and from nothing else.
pub proof fn law_strip_suffix(stem: Seq<char>, suffix: Seq<char>)
    ensures
        strip_suffix(stem + suffix, suffix) == Some(stem),
        ends_with(stem + suffix, suffix),
        forall|s: Seq<char>| #[trigger]
            strip_suffix(s, suffix) matches Some(front) ==> s == front + suffix,
        forall|s: Seq<char>| #[trigger]
            ends_with(s, suffix) ==> s == s.take(s.len() - suffix.len()) + suffix,
{
    let whole = stem + suffix;
    assert(whole.skip(whole.len() - suffix.len()) == suffix);
    assert(whole.take(whole.len() - suffix.len()) == stem);
    assert forall|s: Seq<char>| #[trigger] ends_with(s, suffix) implies s == s.take(
        s.len() - suffix.len(),
    ) + suffix by {
        assert(s == s.take(s.len() - suffix.len()) + s.skip(s.len() - suffix.len()));
    }
    assert forall|s: Seq<char>| #[trigger] strip_suffix(s, suffix) is Some implies s
        == strip_suffix(s, suffix)->0 + suffix by {
        assert(ends_with(s, suffix));
    }
}

/// White space by its code points.
pub proof fn law_white(c: char)
    ensures
        is_white(c) <==> ({
            let code = c as int;
            ||| 9 <= code <= 13
            ||| code == 32
            ||| code == 133
            ||| code == 160
            ||| code == 5760
            ||| 8192 <= code <= 8202
            ||| code == 8232
            ||| code == 8233
            ||| code == 8239
            ||| code == 8287
            ||| code == 12288
        }),
{
}

proof fn lemma_trim_start(s: Seq<char>) -> (from: int)
    ensures
        0 <= from <= s.len(),
        trim_start(s) == s.skip(from),
        forall|k: int| 0 <= k < from ==> is_white(#[trigger] s[k]),
        from < s.len() ==> !is_white(s[from]),
    decreases s.len(),
{
    if s.len() > 0 && is_white(s[0]) {
        let more = lemma_trim_start(s.skip(1));
        assert(s.skip(1).skip(more) == s.skip(more + 1));
        assert forall|k: int| 0 <= k < more + 1 implies is_white(#[trigger] s[k]) by {
            if k > 0 {
                assert(s.skip(1)[k - 1] == s[k]);
            }
        }
        if more + 1 < s.len() {
            assert(s.skip(1)[more] == s[more + 1]);
        }
        more + 1
    } else {
        assert(s.skip(0) == s);
        0
    }
}

proof fn lemma_trim_end(s: Seq<char>) -> (to: int)
    ensures
        0 <= to <= s.len(),
        trim_end(s) == s.take(to),
        forall|k: int| to <= k < s.len() ==> is_white(#[trigger] s[k]),
        to > 0 ==> !is_white(s[to - 1]),
    decreases s.len(),
{
    if s.len() > 0 && is_white(s.last()) {
        let init = s.drop_last();
        let to = lemma_trim_end(init);
        assert(init.take(to) == s.take(to));
        assert forall|k: int| to <= k < s.len() implies is_white(#[trigger] s[k]) by {
            if k < init.len() {
                assert(init[k] == s[k]);
            }
        }
        if to > 0 {
            assert(init[to - 1] == s[to - 1]);
        }
        to
    } else {
        assert(s.take(s.len() as int) == s);
        s.len() as int
    }
}

/// Trimming takes the white space from both ends, all of it and nothing else.
pub proof fn law_trim(s: Seq<char>)
    ensures
        exists|from: int, to: int|
            {
                &&& 0 <= from <= to <= s.len()
                &&& trim(s) == #[trigger] s.subrange(from, to)
                &&& forall|k: int| 0 <= k < from ==> is_white(#[trigger] s[k])
                &&& forall|k: int| to <= k < s.len() ==> is_white(#[trigger] s[k])
                &&& from < to ==> !is_white(s[from]) && !is_white(s[to - 1])
            },
{
    let from = lemma_trim_start(s);
    let rest = s.skip(from);
    let end = lemma_trim_end(rest);
    let to = from + end;
    assert(rest.take(end) == s.subrange(from, to));
    assert forall|k: int| to <= k < s.len() implies is_white(#[trigger] s[k]) by {
        assert(rest[k - from] == s[k]);
    }
    if from < to {
        assert(rest[end - 1] == s[to - 1]);
    }
}

// ---------------------------------------------------------------------------
// Decimal numbers
// ---------------------------------------------------------------------------

/// A number below ten is one digit; every other number is written as its
/// tenth, and one more digit.
pub proof fn law_decimal(n: nat, d: nat)
    requires
        d < 10,
    ensures
        decimal(d).len() == 1 && decimal(d)[0] as int == 48 + d,
        n > 0 ==> {
            &&& decimal(10 * n + d).len() == decimal(n).len() + 1
            &&& decimal(10 * n + d).drop_last() == decimal(n)
            &&& decimal(10 * n + d).last() as int == 48 + d
        },
{
    assert(digit(d) as int == 48 + d) by {
        let code: u8 = (d + 48) as u8;
        assert((code as char) as int == code as int);
    }
    if n > 0 {
        let m = 10 * n + d;
        assert(m / 10 == n && m % 10 == d);
        assert(decimal(m) == decimal(n).push(digit(d)));
        assert(decimal(n).push(digit(d)).drop_last() == decimal(n));
    }
}

/// One digit is read as its value.
pub proof fn law_parse_digit(c: char, max: nat)
    ensures
        parse_decimal(Seq::empty(), max) is None,
        parse_decimal(seq![c], max) == if 48 <= c as int <= 57 && c as int - 48 <= max {
            Some((c as int - 48) as nat)
        } else {
            None
        },
{
    let s = seq![c];
    assert(s.drop_last() == Seq::<char>::empty());
    assert(decimal_value(s.drop_last()) == 0);
    if is_digit(c) {
        assert(all_digits(s));
    } else {
        assert(!is_digit(s[0]));
    }
    if c == '+' {
        assert(s.skip(1) == Seq::<char>::empty());
    }
}

/// One more digit is read as ten times the number and the digit, if that is
/// not too large; any other character makes the text no number.
pub proof fn law_parse_push(s: Seq<char>, c: char, max: nat)
    requires
        s.len() > 0,
        s != seq!['+'],
    ensures
        parse_decimal(s.push(c), max) == match parse_decimal(s, max) {
            Some(value) => if 48 <= c as int <= 57 && 10 * value + (c as int - 48) <= max {
                Some((10 * value + (c as int - 48)) as nat)
            } else {
                None
            },
            None => None,
        },
{
    let whole = s.push(c);
    let digits = if s[0] == '+' {
        s.skip(1)
    } else {
        s
    };
    let more = if whole[0] == '+' {
        whole.skip(1)
    } else {
        whole
    };
    assert(whole[0] == s[0]);
    assert(more == digits.push(c));
    if s[0] == '+' {
        if digits.len() == 0 {
            assert(s == seq!['+']);
        }
    }
    assert(more.drop_last() == digits);
    assert(more.last() == c);
    if is_digit(c) && all_digits(digits) {
        assert forall|i: int| 0 <= i < more.len() implies is_digit(#[trigger] more[i]) by {
            if i < digits.len() {
                assert(more[i] == digits[i]);
            }
        }
    }
    if !is_digit(c) {
        assert(!is_digit(more[digits.len() as int]));
    }
    if !all_digits(digits) {
        let i = choose|i: int| 0 <= i < digits.len() && !is_digit(#[trigger] digits[i]);
        assert(!is_digit(more[i]));
    }
}

/// A plus sign may stand before a number, once.
pub proof fn law_parse_plus(s: Seq<char>, max: nat)
    ensures
        parse_decimal(seq!['+'] + s, max) == if s.len() > 0 && s[0] == '+' {
            None
        } else {
            parse_decimal(s, max)
        },
{
    let whole = seq!['+'] + s;
    assert(whole.skip(1) == s);
    if s.len() > 0 && s[0] == '+' {
        assert(!is_digit(s[0]));
    }
}

} // verus!
