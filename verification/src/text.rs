//! Character-level helpers: white space, splitting at a separator, and reading
//! a small number.

use vstd::prelude::*;
use vstd::string::StrSliceExecFns;
use vstd::string::StringExecFns;

verus! {

/// `c` has the Unicode property White_Space.
pub open spec fn white_space(c: char) -> bool {
    let code = c as u32;
    ||| 0x09 <= code <= 0x0D
    ||| code == 0x20
    ||| code == 0x85
    ||| code == 0xA0
    ||| code == 0x1680
    ||| 0x2000 <= code <= 0x200A
    ||| code == 0x2028
    ||| code == 0x2029
    ||| code == 0x202F
    ||| code == 0x205F
    ||| code == 0x3000
}

/// `text` with every white-space character taken out.
pub open spec fn without_whitespace(text: Seq<char>) -> Seq<char> {
    text.filter(|c: char| !white_space(c))
}

/// The number of white-space characters that `text` starts with.
pub open spec fn leading_white(text: Seq<char>) -> nat
    decreases text.len(),
{
    if text.len() == 0 || !white_space(text[0]) {
        0
    } else {
        1 + leading_white(text.drop_first())
    }
}

/// The number of white-space characters that `text` ends with.
pub open spec fn trailing_white(text: Seq<char>) -> nat
    decreases text.len(),
{
    if text.len() == 0 || !white_space(text.last()) {
        0
    } else {
        1 + trailing_white(text.drop_last())
    }
}

/// `text` without the white space at its start and at its end.
pub open spec fn trimmed(text: Seq<char>) -> Seq<char> {
    let rest = text.skip(leading_white(text) as int);
    rest.take(rest.len() - trailing_white(rest))
}

/// `c` is one of the digits `0` to `9`.
pub open spec fn is_digit(c: char) -> bool {
    0x30 <= c as u32 <= 0x39
}

/// The number that a string of digits writes in base ten.
pub open spec fn decimal_value(digits: Seq<char>) -> nat
    decreases digits.len(),
{
    if digits.len() == 0 {
        0
    } else {
        10 * decimal_value(digits.drop_last()) + (digits.last() as u32 - 0x30) as nat
    }
}

/// Every character of `digits` is a digit.
pub open spec fn all_digits(digits: Seq<char>) -> bool {
    forall|k: int| 0 <= k < digits.len() ==> is_digit(#[trigger] digits[k])
}

/// `text` without the `+` that it may start with.
pub open spec fn without_plus(text: Seq<char>) -> Seq<char> {
    if text.len() > 0 && text[0] == '+' {
        text.drop_first()
    } else {
        text
    }
}

/// The number that `text` writes as a `u8`: digits alone, or digits after one
/// `+`, with a value of at most 255. Anything else writes none.
pub open spec fn parsed_u8(text: Seq<char>) -> Option<u8> {
    let digits = without_plus(text);
    if digits.len() > 0 && all_digits(digits) && decimal_value(digits) <= 255 {
        Some(decimal_value(digits) as u8)
    } else {
        None
    }
}

/// The index of the first `sep` in `text`, or the length of `text` where it
/// holds none.
pub open spec fn first_index(text: Seq<char>, sep: char) -> nat
    decreases text.len(),
{
    if text.len() == 0 || text[0] == sep {
        0
    } else {
        1 + first_index(text.drop_first(), sep)
    }
}

/// The pieces of `text` between the occurrences of `sep`, in order. There is
/// one piece more than there are separators, and pieces may be empty.
pub open spec fn split(text: Seq<char>, sep: char) -> Seq<Seq<char>>
    decreases text.len(),
{
    let cut = first_index(text, sep);
    if cut >= text.len() {
        seq![text]
    } else {
        seq![text.take(cut as int)] + split(text.skip(cut as int + 1), sep)
    }
}

/// The pieces put together again, with `sep` between them.
pub open spec fn join(pieces: Seq<Seq<char>>, sep: char) -> Seq<char>
    decreases pieces.len(),
{
    if pieces.len() == 0 {
        Seq::empty()
    } else if pieces.len() == 1 {
        pieces[0]
    } else {
        pieces[0] + seq![sep] + join(pieces.drop_first(), sep)
    }
}

/// The first index is within the text, no `sep` stands before it, and `sep`
/// stands at it unless it is the length.
pub proof fn lemma_first_index(text: Seq<char>, sep: char)
    ensures
        first_index(text, sep) <= text.len(),
        forall|k: int| 0 <= k < first_index(text, sep) ==> text[k] != sep,
        first_index(text, sep) < text.len() ==> text[first_index(text, sep) as int] == sep,
    decreases text.len(),
{
    if text.len() == 0 || text[0] == sep {
    } else {
        let rest = text.drop_first();
        lemma_first_index(rest, sep);
        assert forall|k: int| 0 <= k < first_index(text, sep) implies text[k] != sep by {
            if k > 0 {
                assert(rest[k - 1] == text[k]);
            }
        }
    }
}

/// Splitting determines the text: there is at least one piece, no piece holds
/// `sep`, and the pieces joined by `sep` are the text.
pub proof fn lemma_split_joins(text: Seq<char>, sep: char)
    ensures
        split(text, sep).len() >= 1,
        forall|k: int|
            0 <= k < split(text, sep).len() ==> !(#[trigger] split(text, sep)[k]).contains(sep),
        join(split(text, sep), sep) == text,
    decreases text.len(),
{
    lemma_first_index(text, sep);
    let cut = first_index(text, sep);
    if cut < text.len() {
        let rest = text.skip(cut as int + 1);
        let pieces = split(text, sep);
        lemma_split_joins(rest, sep);
        assert(pieces.drop_first() =~= split(rest, sep));
        assert(join(pieces, sep) =~= text);
        assert forall|k: int| 0 <= k < pieces.len()
            implies !(#[trigger] pieces[k]).contains(sep) by {
            if k > 0 {
                assert(pieces[k] == split(rest, sep)[k - 1]);
            }
        }
    }
}

/// Whether `c` is white space, as `char::is_whitespace` has it.
pub fn is_whitespace(c: char) -> (white: bool)
    ensures
        white == white_space(c),
{
    let code = c as u32;
    (0x09 <= code && code <= 0x0D) || code == 0x20 || code == 0x85 || code == 0xA0
        || code == 0x1680 || (0x2000 <= code && code <= 0x200A) || code == 0x2028
        || code == 0x2029 || code == 0x202F || code == 0x205F || code == 0x3000
}

/// The characters of `text`, in order.
pub(crate) fn chars_of(text: &str) -> (chars: Vec<char>)
    ensures
        chars@ == text@,
{
    let mut chars: Vec<char> = Vec::new();
    for c in it: text.chars()
        invariant
            chars@ == it.seq().take(it.index()),
            it.seq() == text@,
    {
        chars.push(c);
    }
    chars
}

/// The first index from `from` on, below `to`, at which `sep` stands in
/// `chars`; `to` where there is none.
pub(crate) fn find(chars: &Vec<char>, from: usize, to: usize, sep: char) -> (at: usize)
    requires
        from <= to <= chars.len(),
    ensures
        from <= at <= to,
        at - from == first_index(chars@.subrange(from as int, to as int), sep),
{
    let ghost piece = chars@.subrange(from as int, to as int);
    let mut at = from;
    assert(piece.skip(0) =~= piece);
    while at < to && chars[at] != sep
        invariant
            from <= at <= to <= chars.len(),
            piece == chars@.subrange(from as int, to as int),
            first_index(piece, sep) == (at - from) + first_index(piece.skip(at - from), sep),
        decreases to - at,
    {
        proof {
            let rest = piece.skip(at - from);
            assert(rest[0] == chars[at as int]);
            assert(rest.drop_first() =~= piece.skip(at - from + 1));
        }
        at += 1;
    }
    proof {
        let rest = piece.skip(at - from);
        if at < to {
            assert(rest[0] == chars[at as int]);
        }
    }
    at
}

/// `text` without the white space at its start and at its end, as `str::trim`
/// has it.
pub fn trim<'a>(text: &'a str) -> (inner: &'a str)
    ensures
        inner@ == trimmed(text@),
{
    let chars = chars_of(text);
    let mut start: usize = 0;
    assert(text@.skip(0) =~= text@);
    while start < chars.len() && is_whitespace(chars[start])
        invariant
            start <= chars.len(),
            chars@ == text@,
            leading_white(text@) == start + leading_white(text@.skip(start as int)),
        decreases chars.len() - start,
    {
        proof {
            let rest = text@.skip(start as int);
            assert(rest[0] == text@[start as int]);
            assert(rest.drop_first() =~= text@.skip(start + 1));
        }
        start += 1;
    }
    proof {
        let rest = text@.skip(start as int);
        if start < chars.len() {
            assert(rest[0] == text@[start as int]);
        }
    }
    let ghost rest = text@.skip(start as int);
    let mut end: usize = chars.len();
    assert(rest.take(rest.len() as int) =~= rest);
    while end > start && is_whitespace(chars[end - 1])
        invariant
            start <= end <= chars.len(),
            chars@ == text@,
            rest == text@.skip(start as int),
            trailing_white(rest) == (chars.len() - end) + trailing_white(rest.take(end - start)),
        decreases end,
    {
        proof {
            let front = rest.take(end - start);
            assert(front.last() == text@[end - 1]);
            assert(front.drop_last() =~= rest.take(end - start - 1));
        }
        end -= 1;
    }
    proof {
        let front = rest.take(end - start);
        if end > start {
            assert(front.last() == text@[end - 1]);
        }
        assert(text@.subrange(start as int, end as int) =~= rest.take(end - start));
    }
    text.substring_char(start, end)
}

/// A longer string of digits writes no smaller a number.
proof fn lemma_decimal_grows(digits: Seq<char>, shorter: int)
    requires
        0 <= shorter <= digits.len(),
        all_digits(digits),
    ensures
        decimal_value(digits.take(shorter)) <= decimal_value(digits),
    decreases digits.len(),
{
    if shorter < digits.len() {
        let front = digits.drop_last();
        assert(is_digit(digits[digits.len() - 1]));
        assert forall|k: int| 0 <= k < front.len() implies is_digit(#[trigger] front[k]) by {
            assert(is_digit(digits[k]));
        }
        lemma_decimal_grows(front, shorter);
        assert(front.take(shorter) =~= digits.take(shorter));
    } else {
        assert(digits.take(shorter) =~= digits);
    }
}

/// Reads `text` as a `u8` written in base ten, as `str::parse::<u8>` has it:
/// one or more digits, after one `+` or none, with a value of at most 255.
pub fn parse_u8(text: &str) -> (number: Option<u8>)
    ensures
        number == parsed_u8(text@),
{
    let chars = chars_of(text);
    let first: usize = if chars.len() > 0 && chars[0] == '+' {
        1
    } else {
        0
    };
    let ghost digits = without_plus(text@);
    assert(digits =~= chars@.skip(first as int));
    if first == chars.len() {
        return None;
    }
    let mut value: u32 = 0;
    let mut i: usize = first;
    while i < chars.len()
        invariant
            first <= i <= chars.len(),
            first < chars.len(),
            digits == without_plus(text@),
            digits == chars@.skip(first as int),
            all_digits(digits.take(i - first)),
            value == decimal_value(digits.take(i - first)),
            value <= 255,
        decreases chars.len() - i,
    {
        let code = chars[i] as u32;
        assert(digits[i - first] == chars[i as int]);
        if code < 0x30 || code > 0x39 {
            assert(!is_digit(digits[i - first]));
            return None;
        }
        proof {
            assert(digits.take(i - first + 1).drop_last() =~= digits.take(i - first));
            assert forall|k: int| 0 <= k < i - first + 1 implies is_digit(
                #[trigger] digits.take(i - first + 1)[k],
            ) by {
                if k < i - first {
                    assert(digits.take(i - first + 1)[k] == digits.take(i - first)[k]);
                }
            }
        }
        value = 10 * value + (code - 0x30);
        if value > 255 {
            proof {
                if all_digits(digits) {
                    lemma_decimal_grows(digits, i - first + 1);
                }
            }
            return None;
        }
        i += 1;
    }
    assert(digits.take(i - first) =~= digits);
    Some(value as u8)
}

/// A copy of `text` without its white space.
pub fn strip_whitespace(text: &str) -> (stripped: String)
    ensures
        stripped@ == without_whitespace(text@),
{
    let chars = chars_of(text);
    let ghost keep = |c: char| !white_space(c);
    let mut stripped = String::new();
    let mut start: usize = 0;
    let mut i: usize = 0;
    while i < chars.len()
        invariant
            start <= i <= chars.len(),
            chars@ == text@,
            keep == |c: char| !white_space(c),
            stripped@ + text@.subrange(start as int, i as int) == text@.take(i as int).filter(keep),
        decreases chars.len() - i,
    {
        proof {
            reveal(Seq::filter);
            assert(text@.take(i + 1).drop_last() =~= text@.take(i as int));
        }
        if is_whitespace(chars[i]) {
            if start < i {
                stripped.append(text.substring_char(start, i));
            }
            assert(stripped@ == text@.take(i as int).filter(keep));
            start = i + 1;
            assert(text@.subrange(start as int, start as int) =~= Seq::<char>::empty());
        } else {
            assert(text@.subrange(start as int, i as int).push(text@[i as int]) =~= text@.subrange(
                start as int,
                i + 1,
            ));
        }
        i += 1;
    }
    stripped.append(text.substring_char(start, i));
    assert(text@.take(i as int) =~= text@);
    stripped
}

} // verus!
