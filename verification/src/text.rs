//! Text helpers: comparison, trimming and decimal parsing.

use vstd::prelude::*;

verus! {

/// Whether two strings hold the same characters.
pub fn same_text(a: &str, b: &str) -> (same: bool)
    ensures
        same == (a@ == b@),
{
    a.to_owned() == b.to_owned()
}

/// The characters of the Unicode property `White_Space`.
pub open spec fn white_space(c: char) -> bool {
    let code = c as u32;
    ||| 0x9 <= code <= 0xd
    ||| code == 0x20
    ||| code == 0x85
    ||| code == 0xa0
    ||| code == 0x1680
    ||| 0x2000 <= code <= 0x200a
    ||| code == 0x2028
    ||| code == 0x2029
    ||| code == 0x202f
    ||| code == 0x205f
    ||| code == 0x3000
}

/// Tells white space from other characters.
pub fn is_white_space(c: char) -> (answer: bool)
    ensures
        answer == white_space(c),
{
    let code: u32 = c as u32;
    match code {
        0x9..=0xd | 0x20 | 0x85 | 0xa0 | 0x1680 | 0x2000..=0x200a | 0x2028 | 0x2029 | 0x202f
        | 0x205f | 0x3000 => true,
        _ => false,
    }
}

/// A text that may be missing, as characters.
pub open spec fn text_of(text: Option<String>) -> Option<Seq<char>> {
    match text {
        Some(there) => Some(there@),
        None => None,
    }
}

/// `text` without its leading and trailing whitespace.
pub open spec fn trimmed(text: Seq<char>) -> Seq<char>
    decreases text.len(),
{
    if text.len() == 0 {
        text
    } else if white_space(text.first()) {
        trimmed(text.drop_first())
    } else if white_space(text.last()) {
        trimmed(text.drop_last())
    } else {
        text
    }
}

/// The slice of `text` between its leading and its trailing whitespace.
pub fn trim(text: &str) -> (slice: &str)
    ensures
        slice@ == trimmed(text@),
{
    let len: usize = text.unicode_len();
    let mut from: usize = 0;
    let mut to: usize = len;
    assert(text@.subrange(0, len as int) =~= text@);
    while from < to && is_white_space(text.get_char(from))
        invariant
            from <= to == len == text@.len(),
            trimmed(text@) == trimmed(text@.subrange(from as int, to as int)),
        decreases to - from,
    {
        let ghost here = text@.subrange(from as int, to as int);
        assert(here.drop_first() =~= text@.subrange(from + 1, to as int));
        from = from + 1;
    }
    while from < to && is_white_space(text.get_char(to - 1))
        invariant
            from <= to <= text@.len(),
            trimmed(text@) == trimmed(text@.subrange(from as int, to as int)),
            from < to ==> !white_space(text@[from as int]),
        decreases to - from,
    {
        let ghost here = text@.subrange(from as int, to as int);
        assert(here.drop_last() =~= text@.subrange(from as int, to - 1));
        to = to - 1;
    }
    text.substring_char(from, to)
}

/// Whether `c` is one of the ten ASCII digits.
pub open spec fn is_digit(c: char) -> bool {
    '0' <= c && c <= '9'
}

/// The number that a string of ASCII digits denotes in base ten.
pub open spec fn decimal_value(digits: Seq<char>) -> nat
    decreases digits.len(),
{
    if digits.len() == 0 {
        0
    } else {
        decimal_value(digits.drop_last()) * 10 + (digits.last() as nat - '0' as nat) as nat
    }
}

/// What follows an optional leading `+`.
pub open spec fn without_plus(text: Seq<char>) -> Seq<char> {
    if text.len() > 0 && text[0] == '+' {
        text.skip(1)
    } else {
        text
    }
}

/// The number that `text` denotes: an optional `+`, then one or more digits, in range of `usize`.
pub open spec fn parsed_usize(text: Seq<char>) -> Option<usize> {
    let digits = without_plus(text);
    if digits.len() > 0 && (forall|i: int| 0 <= i < digits.len() ==> is_digit(#[trigger] digits[i]))
        && decimal_value(digits) <= usize::MAX {
        Some(decimal_value(digits) as usize)
    } else {
        None
    }
}

/// A longer string of digits denotes no smaller a number.
proof fn lemma_decimal_grows(digits: Seq<char>, n: int)
    requires
        0 <= n <= digits.len(),
    ensures
        decimal_value(digits.take(n)) <= decimal_value(digits),
    decreases digits.len() - n,
{
    if n < digits.len() {
        lemma_decimal_grows(digits, n + 1);
        assert(digits.take(n + 1).drop_last() =~= digits.take(n));
    } else {
        assert(digits.take(n) =~= digits);
    }
}

/// Parses a `usize` from decimal text, as `str::parse` does.
pub fn parse_usize(text: &str) -> (number: Option<usize>)
    ensures
        number == parsed_usize(text@),
{
    let len: usize = text.unicode_len();
    let start: usize = if len > 0 && text.get_char(0) == '+' {
        1
    } else {
        0
    };
    let ghost digits = without_plus(text@);
    if start == len {
        return None;
    }
    let mut at: usize = start;
    let mut value: usize = 0;
    while at < len
        invariant
            start <= at <= len == text@.len(),
            start <= 1,
            digits == without_plus(text@),
            digits =~= text@.skip(start as int),
            forall|i: int| 0 <= i < at - start ==> is_digit(#[trigger] digits[i]),
            value == decimal_value(digits.take(at - start)),
        decreases len - at,
    {
        let c: char = text.get_char(at);
        assert(c == digits[at - start]);
        if !('0' <= c && c <= '9') {
            return None;
        }
        let digit: usize = (c as u32 - '0' as u32) as usize;
        let ghost next = digits.take(at - start + 1);
        proof {
            assert(next.drop_last() =~= digits.take(at - start));
            assert(decimal_value(next) == value * 10 + digit);
            lemma_decimal_grows(digits, at - start + 1);
        }
        if value > usize::MAX / 10 {
            return None;
        }
        let tens: usize = value * 10;
        if digit > usize::MAX - tens {
            return None;
        }
        value = tens + digit;
        at = at + 1;
    }
    assert(digits.take(len - start) =~= digits);
    Some(value)
}

/// All characters of a text outside a stretch are white space, and the stretch neither starts nor
/// ends with any.
pub open spec fn surrounded(text: Seq<char>, from: int, to: int) -> bool {
    &&& 0 <= from <= to <= text.len()
    &&& from < to ==> !white_space(text[from]) && !white_space(text[to - 1])
    &&& forall|i: int| 0 <= i < from ==> white_space(#[trigger] text[i])
    &&& forall|i: int| to <= i < text.len() ==> white_space(#[trigger] text[i])
}

/// The stretch that trimming leaves.
proof fn lemma_trimmed(text: Seq<char>) -> (ends: (int, int))
    ensures
        surrounded(text, ends.0, ends.1),
        trimmed(text) == text.subrange(ends.0, ends.1),
    decreases text.len(),
{
    if text.len() == 0 {
        assert(text.subrange(0, 0) =~= text);
        (0, 0)
    } else if white_space(text.first()) {
        let rest = text.drop_first();
        let (from, to) = lemma_trimmed(rest);
        assert(text.subrange(from + 1, to + 1) =~= rest.subrange(from, to));
        assert forall|i: int| 0 <= i < from + 1 implies white_space(#[trigger] text[i]) by {
            if i > 0 {
                assert(rest[i - 1] == text[i]);
            }
        }
        assert forall|i: int| to + 1 <= i < text.len() implies white_space(#[trigger] text[i]) by {
            assert(rest[i - 1] == text[i]);
        }
        (from + 1, to + 1)
    } else if white_space(text.last()) {
        let rest = text.drop_last();
        let (from, to) = lemma_trimmed(rest);
        assert(text.subrange(from, to) =~= rest.subrange(from, to));
        assert forall|i: int| 0 <= i < from implies white_space(#[trigger] text[i]) by {
            assert(rest[i] == text[i]);
        }
        assert forall|i: int| to <= i < text.len() implies white_space(#[trigger] text[i]) by {
            if i < rest.len() {
                assert(rest[i] == text[i]);
            }
        }
        (from, to)
    } else {
        assert(text.subrange(0, text.len() as int) =~= text);
        (0, text.len() as int)
    }
}

/// Trimming takes off white space and nothing else: what is left is a stretch of the text that
/// neither starts nor ends with white space, and all characters outside it are white space.
pub proof fn law_trimming_takes_off_white_space_only(text: Seq<char>)
    ensures
        exists|from: int, to: int| #[trigger]
            surrounded(text, from, to) && trimmed(text) == text.subrange(from, to),
{
    let (from, to) = lemma_trimmed(text);
    assert(surrounded(text, from, to));
}

/// A text with a character that is not white space does not become blank by trimming, and every
/// other text does.
pub proof fn law_only_blank_texts_are_trimmed_away(text: Seq<char>)
    ensures
        trimmed(text).len() == 0 <==> (forall|i: int|
            0 <= i < text.len() ==> white_space(#[trigger] text[i])),
{
    let (from, to) = lemma_trimmed(text);
    if from < to {
        assert(!white_space(text[from]));
    }
}

/// Numbers are read digit by digit: one digit denotes itself, and a further digit makes ten times
/// the number and the digit, as long as that is in range. A leading plus changes nothing.
pub proof fn law_numbers_grow_by_digits(text: Seq<char>, c: char)
    requires
        '0' <= c,
        c <= '9',
    ensures
        text.len() == 0 || text == seq!['+'] ==> parsed_usize(text.push(c)) == Some(
            (c as u32 - '0' as u32) as usize,
        ),
        parsed_usize(text) matches Some(number) ==> parsed_usize(text.push(c)) == if number * 10 + (
        c as u32 - '0' as u32) <= usize::MAX {
            Some((number * 10 + (c as u32 - '0' as u32)) as usize)
        } else {
            None
        },
        parsed_usize(text) is None && text.len() > 0 && text != seq!['+'] ==> parsed_usize(
            text.push(c),
        ) is None,
{
    let digits = without_plus(text);
    let more = without_plus(text.push(c));
    if text.len() > 0 {
        assert(more =~= digits.push(c));
    } else {
        assert(more =~= seq![c]);
        assert(digits =~= Seq::empty());
        assert(more =~= digits.push(c));
    }
    assert(more.drop_last() =~= digits);
    assert(decimal_value(more) == decimal_value(digits) * 10 + (c as nat - '0' as nat) as nat);
    if text == seq!['+'] {
        assert(digits =~= Seq::empty());
    }
    if digits.len() == 0 {
        assert(decimal_value(digits) == 0);
        if text.len() > 0 {
            assert(text[0] == '+');
            assert(text =~= seq!['+']);
        }
        assert forall|i: int| 0 <= i < more.len() implies is_digit(#[trigger] more[i]) by {
            assert(more[i] == c);
        }
    }
    if forall|i: int| 0 <= i < digits.len() ==> is_digit(#[trigger] digits[i]) {
        assert forall|i: int| 0 <= i < more.len() implies is_digit(#[trigger] more[i]) by {
            if i < digits.len() {
                assert(more[i] == digits[i]);
            }
        }
    } else {
        let i = choose|i: int| 0 <= i < digits.len() && !is_digit(#[trigger] digits[i]);
        assert(more[i] == digits[i]);
    }
}

/// A text that is empty, or ends with something other than a digit, denotes no number.
pub proof fn law_numbers_end_with_digits(text: Seq<char>)
    requires
        text.len() > 0 ==> !('0' <= text.last() && text.last() <= '9'),
    ensures
        parsed_usize(text) is None,
{
    let digits = without_plus(text);
    if digits.len() > 0 {
        assert(digits[digits.len() - 1] == text.last());
    }
}

/// White space is tab, line feed, the two tabs and feeds behind it, carriage return, space, next
/// line, and the spaces and separators of Unicode, and nothing else.
pub proof fn law_white_space_is_these_characters(c: char)
    ensures
        white_space(c) <==> {
            ||| c == '\u{9}' || c == '\u{a}' || c == '\u{b}' || c == '\u{c}'
            ||| c == '\u{d}' || c == '\u{20}' || c == '\u{85}' || c == '\u{a0}'
            ||| c == '\u{1680}' || c == '\u{2000}' || c == '\u{2001}' || c == '\u{2002}'
            ||| c == '\u{2003}' || c == '\u{2004}' || c == '\u{2005}' || c == '\u{2006}'
            ||| c == '\u{2007}' || c == '\u{2008}' || c == '\u{2009}' || c == '\u{200a}'
            ||| c == '\u{2028}' || c == '\u{2029}' || c == '\u{202f}' || c == '\u{205f}'
            ||| c == '\u{3000}'
        },
{
}

/// A text that may be missing is seen as it is.
pub proof fn law_texts_are_seen_as_they_are(text: Option<String>)
    ensures
        text is None ==> text_of(text) is None,
        text is Some ==> text_of(text) == Some(text->0@),
{
}

} // verus!
