//! The JSON5 grammar, as functions from a text and a position to what the
//! text holds there.

use crate::decimal::DecimalView;
use crate::error::{Failure, Fault};
use crate::literal::{is_digit, literal_decimal, literal_shape, sign_length};
use crate::radix::{hex_digit_value, hex_value, is_hex_digit};
use crate::value::ValueView;
use crate::text::{is_identifier_part, is_identifier_start, is_line_terminator, is_whitespace};
use vstd::prelude::*;

verus! {

/// What the characters skipped between tokens belong to.
#[derive(Clone, Copy, Debug, PartialEq, Eq, Structural)]
pub enum Trivia {
    /// White space.
    Space,
    /// A comment that runs to the end of the line.
    LineComment,
    /// A comment that runs to `*/`.
    BlockComment,
}

/// The failure of the parser at the character `at`.
pub open spec fn fail<T>(fault: Fault, at: int) -> Result<T, Failure> {
    Err(Failure::Parse { fault, at })
}

/// The position of the first character at or after `i` that is neither
/// white space nor part of a comment, for a scan that is inside `inside` at
/// `i`.
pub open spec fn trivia_end(s: Seq<char>, i: int, inside: Trivia) -> Result<int, Failure>
    decreases s.len() - i,
{
    if i >= s.len() {
        match inside {
            Trivia::BlockComment => fail(Fault::UnterminatedComment, s.len() as int),
            _ => Ok(i),
        }
    } else {
        match inside {
            Trivia::Space => {
                if is_whitespace(s[i]) {
                    trivia_end(s, i + 1, Trivia::Space)
                } else if s[i] == '/' {
                    if i + 1 < s.len() && s[i + 1] == '/' {
                        trivia_end(s, i + 2, Trivia::LineComment)
                    } else if i + 1 < s.len() && s[i + 1] == '*' {
                        trivia_end(s, i + 2, Trivia::BlockComment)
                    } else {
                        fail(Fault::ExpectedComment, i)
                    }
                } else {
                    Ok(i)
                }
            },
            Trivia::LineComment => {
                if is_line_terminator(s[i]) {
                    trivia_end(s, i + 1, Trivia::Space)
                } else {
                    trivia_end(s, i + 1, Trivia::LineComment)
                }
            },
            Trivia::BlockComment => {
                if s[i] == '*' && i + 1 < s.len() && s[i + 1] == '/' {
                    trivia_end(s, i + 2, Trivia::Space)
                } else {
                    trivia_end(s, i + 1, Trivia::BlockComment)
                }
            },
        }
    }
}

/// The position of the first token at or after `i`.
pub open spec fn skip_trivia(s: Seq<char>, i: int) -> Result<int, Failure> {
    trivia_end(s, i, Trivia::Space)
}

/// Skipping never goes back, nor past the end.
pub proof fn lemma_trivia_end_bounds(s: Seq<char>, i: int, inside: Trivia)
    requires
        0 <= i <= s.len(),
    ensures
        trivia_end(s, i, inside) matches Ok(j) ==> i <= j <= s.len(),
        trivia_end(s, i, inside) matches Err(Failure::Parse { fault, at }) ==> i <= at <= s.len(),
        !(trivia_end(s, i, inside) matches Err(Failure::InvalidDecimal)),
    decreases s.len() - i,
{
    if i < s.len() {
        match inside {
            Trivia::Space => {
                if is_whitespace(s[i]) {
                    lemma_trivia_end_bounds(s, i + 1, Trivia::Space);
                } else if s[i] == '/' {
                    if i + 1 < s.len() && s[i + 1] == '/' {
                        lemma_trivia_end_bounds(s, i + 2, Trivia::LineComment);
                    } else if i + 1 < s.len() && s[i + 1] == '*' {
                        lemma_trivia_end_bounds(s, i + 2, Trivia::BlockComment);
                    }
                }
            },
            Trivia::LineComment => {
                if is_line_terminator(s[i]) {
                    lemma_trivia_end_bounds(s, i + 1, Trivia::Space);
                } else {
                    lemma_trivia_end_bounds(s, i + 1, Trivia::LineComment);
                }
            },
            Trivia::BlockComment => {
                if s[i] == '*' && i + 1 < s.len() && s[i + 1] == '/' {
                    lemma_trivia_end_bounds(s, i + 2, Trivia::Space);
                } else {
                    lemma_trivia_end_bounds(s, i + 1, Trivia::BlockComment);
                }
            },
        }
    }
}

/// The number written by the `n` hexadecimal digits of `s` at `i`; `None`
/// where `s` does not hold `n` such digits there.
pub open spec fn hex_number(s: Seq<char>, i: int, n: nat) -> Option<int>
    decreases n,
{
    if n == 0 {
        Some(0)
    } else if 0 <= i && i + n <= s.len() && is_hex_digit(s[i + n - 1]) {
        match hex_number(s, i, (n - 1) as nat) {
            Some(high) => Some(high * 16 + hex_digit_value(s[i + n - 1])),
            None => None,
        }
    } else {
        None
    }
}

/// A code point that is a character: none of the surrogates.
pub open spec fn is_scalar(code: int) -> bool {
    0 <= code <= 0xD7FF || 0xE000 <= code <= 0x10FFFF
}

/// The character that `\u` denotes with the hexadecimal digits at `i`, and
/// the position after the escape. A code in the upper surrogate range needs
/// a second `\u` escape with a lower surrogate behind it, and the pair
/// denotes one character. `escape` is where the escape starts.
pub open spec fn unicode_escape(s: Seq<char>, i: int, escape: int) -> Result<(char, int), Failure> {
    match hex_number(s, i, 4) {
        None => fail(Fault::InvalidEscape, escape),
        Some(high) => {
            if is_scalar(high) {
                Ok((high as char, i + 4))
            } else if 0xD800 <= high <= 0xDBFF && i + 6 <= s.len() && s[i + 4] == '\\' && s[i + 5]
                == 'u' {
                match hex_number(s, i + 6, 4) {
                    Some(low) if 0xDC00 <= low <= 0xDFFF => Ok(
                        ((0x10000 + (high - 0xD800) * 0x400 + (low - 0xDC00)) as char, i + 10),
                    ),
                    _ => fail(Fault::InvalidEscape, escape),
                }
            } else {
                fail(Fault::InvalidEscape, escape)
            }
        },
    }
}

/// What the escape sequence whose backslash stands at `i - 1` adds to a
/// string, and the position after it. A backslash before a line terminator
/// adds nothing.
pub open spec fn string_escape(s: Seq<char>, i: int) -> Result<(Option<char>, int), Failure> {
    if i >= s.len() {
        fail(Fault::UnterminatedString, s.len() as int)
    } else {
        let c = s[i];
        if is_line_terminator(c) {
            if c == '\u{000D}' && i + 1 < s.len() && s[i + 1] == '\u{000A}' {
                Ok((None, i + 2))
            } else {
                Ok((None, i + 1))
            }
        } else if c == 'b' {
            Ok((Some('\u{0008}'), i + 1))
        } else if c == 't' {
            Ok((Some('\u{0009}'), i + 1))
        } else if c == 'n' {
            Ok((Some('\u{000A}'), i + 1))
        } else if c == 'v' {
            Ok((Some('\u{000B}'), i + 1))
        } else if c == 'f' {
            Ok((Some('\u{000C}'), i + 1))
        } else if c == 'r' {
            Ok((Some('\u{000D}'), i + 1))
        } else if c == '0' {
            if i + 1 < s.len() && is_digit(s[i + 1]) {
                fail(Fault::InvalidEscape, i - 1)
            } else {
                Ok((Some('\u{0000}'), i + 1))
            }
        } else if is_digit(c) {
            fail(Fault::InvalidEscape, i - 1)
        } else if c == 'x' {
            match hex_number(s, i + 1, 2) {
                Some(code) => Ok((Some(code as char), i + 3)),
                None => fail(Fault::InvalidEscape, i - 1),
            }
        } else if c == 'u' {
            match unicode_escape(s, i + 1, i - 1) {
                Ok((c, next)) => Ok((Some(c), next)),
                Err(failure) => Err(failure),
            }
        } else {
            Ok((Some(c), i + 1))
        }
    }
}

/// `text` with what an escape sequence adds to it.
pub open spec fn with_escaped(text: Seq<char>, added: Option<char>) -> Seq<char> {
    match added {
        Some(c) => text.push(c),
        None => text,
    }
}

/// The rest of a string that `quote` opened, read from `i` with `text` read
/// so far: the whole text of the string, and the position after the closing
/// quote.
pub open spec fn string_rest(s: Seq<char>, i: int, quote: char, text: Seq<char>) -> Result<
    (Seq<char>, int),
    Failure,
>
    decreases s.len() - i,
{
    if i < 0 || i >= s.len() {
        fail(Fault::UnterminatedString, s.len() as int)
    } else if s[i] == quote {
        Ok((text, i + 1))
    } else if s[i] == '\u{000A}' || s[i] == '\u{000D}' {
        fail(Fault::LineBreakInString, i)
    } else if s[i] == '\\' {
        match string_escape(s, i + 1) {
            Ok((added, next)) => {
                if i < next <= s.len() {
                    string_rest(s, next, quote, with_escaped(text, added))
                } else {
                    fail(Fault::InvalidEscape, i)
                }
            },
            Err(failure) => Err(failure),
        }
    } else {
        string_rest(s, i + 1, quote, text.push(s[i]))
    }
}

/// Whether `c` may stand in an unquoted key, at its start or after it.
pub open spec fn is_key_char(c: char, first: bool) -> bool {
    if first {
        is_identifier_start(c)
    } else {
        is_identifier_part(c)
    }
}

/// The rest of an unquoted key, read from `i` with `text` read so far: the
/// whole key, and the position of the first character after it. Such a key
/// is an identifier, in which `\u` escapes may stand for characters.
pub open spec fn identifier_rest(s: Seq<char>, i: int, text: Seq<char>) -> Result<
    (Seq<char>, int),
    Failure,
>
    decreases s.len() - i,
{
    let first = text.len() == 0;
    if i < 0 || i >= s.len() {
        fail(Fault::UnterminatedObject, s.len() as int)
    } else if s[i] == '\\' {
        if i + 1 < s.len() && s[i + 1] == 'u' {
            match unicode_escape(s, i + 2, i) {
                Ok((c, next)) => {
                    if !is_key_char(c, first) {
                        fail(Fault::ExpectedKey, i)
                    } else if i < next <= s.len() {
                        identifier_rest(s, next, text.push(c))
                    } else {
                        fail(Fault::InvalidEscape, i)
                    }
                },
                Err(failure) => Err(failure),
            }
        } else {
            fail(Fault::InvalidEscape, i)
        }
    } else if is_key_char(s[i], first) {
        identifier_rest(s, i + 1, text.push(s[i]))
    } else if first {
        fail(Fault::ExpectedKey, i)
    } else {
        Ok((text, i))
    }
}

/// The key that starts at `i`, quoted or not, and the position after it.
pub open spec fn key(s: Seq<char>, i: int) -> Result<(Seq<char>, int), Failure> {
    if 0 <= i < s.len() && (s[i] == '"' || s[i] == '\'') {
        string_rest(s, i + 1, s[i], Seq::empty())
    } else {
        identifier_rest(s, i, Seq::empty())
    }
}

/// `s` holds the characters of `word` from `i` on.
pub open spec fn has_word(s: Seq<char>, i: int, word: Seq<char>) -> bool {
    0 <= i && i + word.len() <= s.len() && s.subrange(i, i + word.len()) == word
}

/// A character that may stand in a decimal literal.
pub open spec fn is_number_char(c: char) -> bool {
    is_digit(c) || c == '+' || c == '-' || c == '.' || c == 'e' || c == 'E'
}

/// The end of the longest run of characters of decimal literals that starts
/// at `i`.
pub open spec fn number_end(s: Seq<char>, i: int) -> int
    decreases s.len() - i,
{
    if 0 <= i < s.len() && is_number_char(s[i]) {
        number_end(s, i + 1)
    } else {
        i
    }
}

/// The end of the longest run of hexadecimal digits that starts at `i`.
pub open spec fn hex_end(s: Seq<char>, i: int) -> int
    decreases s.len() - i,
{
    if 0 <= i < s.len() && is_hex_digit(s[i]) {
        hex_end(s, i + 1)
    } else {
        i
    }
}

/// The decimal literal `text` writes a zero before another digit of its
/// integer part, which JSON5 does not admit.
pub open spec fn has_leading_zero(text: Seq<char>) -> bool {
    let start = sign_length(text, 0);
    start + 1 < text.len() && text[start] == '0' && is_digit(text[start + 1])
}

/// The decimal of a hexadecimal integer: its exponent is zero.
pub open spec fn hex_decimal(negative: bool, digits: Seq<char>) -> DecimalView {
    DecimalView {
        sign: if negative && hex_value(digits) != 0 { -1 } else { 1 },
        coefficient: hex_value(digits) as int,
        exponent: 0,
    }
}

/// The number whose literal starts at `i`, and the position after it. After
/// an optional sign stands a hexadecimal integer, which is `0x` or `0X` and
/// the longest run of hexadecimal digits, or a decimal literal, which is the
/// longest run of the characters of such literals and is handed to
/// `literal_decimal` with its sign. `Infinity` and `NaN` are refused.
pub open spec fn number(s: Seq<char>, i: int) -> Result<(DecimalView, int), Failure> {
    let start = i + sign_length(s, i);
    if 0 <= start < s.len() && (s[start] == 'I' || s[start] == 'N') {
        if has_word(s, start, seq!['I', 'n', 'f', 'i', 'n', 'i', 't', 'y']) || has_word(
            s,
            start,
            seq!['N', 'a', 'N'],
        ) {
            fail(Fault::NonFiniteNumber, i)
        } else {
            fail(Fault::InvalidNumber, i)
        }
    } else if 0 <= start && start + 1 < s.len() && s[start] == '0' && (s[start + 1] == 'x'
        || s[start + 1] == 'X') {
        let end = hex_end(s, start + 2);
        if end == start + 2 {
            fail(Fault::InvalidNumber, i)
        } else {
            Ok((hex_decimal(s[i] == '-', s.subrange(start + 2, end)), end))
        }
    } else {
        let end = number_end(s, i);
        let text = s.subrange(i, end);
        if literal_shape(text) is None || has_leading_zero(text) {
            fail(Fault::InvalidNumber, i)
        } else {
            match literal_decimal(text) {
                Some(decimal) => Ok((decimal, end)),
                None => Err(Failure::InvalidDecimal),
            }
        }
    }
}

/// The value `value` where `s` holds `word` at `i`.
pub open spec fn keyword(s: Seq<char>, i: int, word: Seq<char>, value: ValueView) -> Result<
    (ValueView, int),
    Failure,
> {
    if has_word(s, i, word) {
        Ok((value, i + word.len()))
    } else {
        fail(Fault::InvalidLiteral, i)
    }
}

/// A character with which a number may start.
pub open spec fn starts_number(c: char) -> bool {
    is_digit(c) || c == '+' || c == '-' || c == '.' || c == 'I' || c == 'N'
}

/// The value whose first character stands at `i`, and the position after the
/// value.
pub open spec fn value(s: Seq<char>, i: int) -> Result<(ValueView, int), Failure>
    decreases s.len() - i, 0nat,
{
    if i < 0 || i >= s.len() {
        fail(Fault::MissingValue, s.len() as int)
    } else if s[i] == 'n' {
        keyword(s, i, seq!['n', 'u', 'l', 'l'], ValueView::Null)
    } else if s[i] == 't' {
        keyword(s, i, seq!['t', 'r', 'u', 'e'], ValueView::Bool(true))
    } else if s[i] == 'f' {
        keyword(s, i, seq!['f', 'a', 'l', 's', 'e'], ValueView::Bool(false))
    } else if s[i] == '"' || s[i] == '\'' {
        match string_rest(s, i + 1, s[i], Seq::empty()) {
            Ok((text, next)) => Ok((ValueView::String(text), next)),
            Err(failure) => Err(failure),
        }
    } else if starts_number(s[i]) {
        match number(s, i) {
            Ok((decimal, next)) => Ok((ValueView::Number(decimal), next)),
            Err(failure) => Err(failure),
        }
    } else if s[i] == '[' {
        elements(s, i + 1, Seq::empty(), true)
    } else if s[i] == '{' {
        members(s, i + 1, Map::empty(), true)
    } else {
        fail(Fault::ExpectedValue, i)
    }
}

/// What stands between the members of an array or object, read from `i`:
/// either the closing bracket `close`, and then the result is `true` with the
/// position after it, or the start of the next member, and then it is
/// `false` with that position. `first` says that no member was read yet, so
/// that no comma is due. A comma may stand before the closing bracket.
pub open spec fn gap(s: Seq<char>, i: int, first: bool, close: char, unterminated: Fault) -> Result<
    (bool, int),
    Failure,
> {
    match skip_trivia(s, i) {
        Err(failure) => Err(failure),
        Ok(j) => {
            if j < 0 || j >= s.len() {
                fail(unterminated, s.len() as int)
            } else if s[j] == close {
                Ok((true, j + 1))
            } else if first {
                Ok((false, j))
            } else if s[j] != ',' {
                fail(Fault::ExpectedComma, j)
            } else {
                match skip_trivia(s, j + 1) {
                    Err(failure) => Err(failure),
                    Ok(k) => {
                        if k < 0 || k >= s.len() {
                            fail(unterminated, s.len() as int)
                        } else if s[k] == close {
                            Ok((true, k + 1))
                        } else {
                            Ok((false, k))
                        }
                    },
                }
            }
        },
    }
}

/// What `gap` finds lies between `i` and the end of the text, and the start
/// of a member lies inside the text.
pub proof fn lemma_gap_bounds(s: Seq<char>, i: int, first: bool, close: char, unterminated: Fault)
    requires
        0 <= i <= s.len(),
    ensures
        gap(s, i, first, close, unterminated) matches Ok((closed, next)) ==> i <= next <= s.len()
            && (closed ==> i < next) && (!closed ==> next < s.len()) && (!closed && !first ==> i
            < next),
{
    lemma_trivia_end_bounds(s, i, Trivia::Space);
    match skip_trivia(s, i) {
        Ok(j) => {
            if j < s.len() {
                lemma_trivia_end_bounds(s, j + 1, Trivia::Space);
            }
        },
        Err(_) => {},
    }
}

/// The array whose elements so far are `items`, read on from `i`, and the
/// position after its closing bracket. The tests on positions in this rule
/// and the next ones hold of every text: they are there to show that the
/// rules end.
pub open spec fn elements(s: Seq<char>, i: int, items: Seq<ValueView>, first: bool) -> Result<
    (ValueView, int),
    Failure,
>
    decreases s.len() - i, 2nat,
{
    match gap(s, i, first, ']', Fault::UnterminatedArray) {
        Err(failure) => Err(failure),
        Ok((closed, next)) => {
            if closed {
                Ok((ValueView::Array(items), next))
            } else if i <= next <= s.len() {
                element(s, next, items)
            } else {
                fail(Fault::UnterminatedArray, s.len() as int)
            }
        },
    }
}

/// The array whose elements so far are `items` and whose next element starts
/// at `i`.
pub open spec fn element(s: Seq<char>, i: int, items: Seq<ValueView>) -> Result<
    (ValueView, int),
    Failure,
>
    decreases s.len() - i, 1nat,
{
    match value(s, i) {
        Err(failure) => Err(failure),
        Ok((item, next)) => {
            if i < next <= s.len() {
                elements(s, next, items.push(item), false)
            } else {
                fail(Fault::ExpectedValue, i)
            }
        },
    }
}

/// The object whose members so far are `entries`, read on from `i`, and the
/// position after its closing brace.
pub open spec fn members(
    s: Seq<char>,
    i: int,
    entries: Map<Seq<char>, ValueView>,
    first: bool,
) -> Result<(ValueView, int), Failure>
    decreases s.len() - i, 2nat,
{
    match gap(s, i, first, '}', Fault::UnterminatedObject) {
        Err(failure) => Err(failure),
        Ok((closed, next)) => {
            if closed {
                Ok((ValueView::Object(entries), next))
            } else if i <= next <= s.len() {
                member(s, next, entries)
            } else {
                fail(Fault::UnterminatedObject, s.len() as int)
            }
        },
    }
}

/// The position at which the value of the member starts whose key starts at
/// `i`, with the key: after the key comes a colon.
pub open spec fn member_key(s: Seq<char>, i: int) -> Result<(Seq<char>, int), Failure> {
    match key(s, i) {
        Err(failure) => Err(failure),
        Ok((name, after_key)) => match skip_trivia(s, after_key) {
            Err(failure) => Err(failure),
            Ok(colon) => {
                if colon < 0 || colon >= s.len() {
                    fail(Fault::UnterminatedObject, s.len() as int)
                } else if s[colon] != ':' {
                    fail(Fault::ExpectedColon, colon)
                } else {
                    match skip_trivia(s, colon + 1) {
                        Err(failure) => Err(failure),
                        Ok(start) => Ok((name, start)),
                    }
                }
            },
        },
    }
}

/// The object whose members so far are `entries` and whose next member
/// starts at `i`. A key that comes again replaces the earlier member.
pub open spec fn member(s: Seq<char>, i: int, entries: Map<Seq<char>, ValueView>) -> Result<
    (ValueView, int),
    Failure,
>
    decreases s.len() - i, 1nat,
{
    match member_key(s, i) {
        Err(failure) => Err(failure),
        Ok((name, start)) => {
            if start <= i || start > s.len() {
                fail(Fault::ExpectedKey, i)
            } else {
                match value(s, start) {
                    Err(failure) => Err(failure),
                    Ok((item, next)) => {
                        if start < next <= s.len() {
                            members(s, next, entries.insert(name, item), false)
                        } else {
                            fail(Fault::ExpectedValue, start)
                        }
                    },
                }
            }
        },
    }
}

/// What the whole text `s` holds: one value, with nothing but white space
/// and comments around it.
pub open spec fn document(s: Seq<char>) -> Result<ValueView, Failure> {
    match skip_trivia(s, 0) {
        Err(failure) => Err(failure),
        Ok(start) => match value(s, start) {
            Err(failure) => Err(failure),
            Ok((root, next)) => match skip_trivia(s, next) {
                Err(failure) => Err(failure),
                Ok(end) => {
                    if end < s.len() {
                        fail(Fault::TrailingCharacters, end)
                    } else {
                        Ok(root)
                    }
                },
            },
        },
    }
}

} // verus!
