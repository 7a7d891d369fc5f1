//! Scanning of the tokens of a JSON5 text.

use crate::decimal::{Decimal, NumberSign};
use crate::error::{Error, Failure, Fault};
use crate::grammar;
use crate::grammar::Trivia;
use crate::literal::{is_decimal_literal, normalize};
use crate::radix::{hex_digit, hex_to_decimal};
use vstd::slice::slice_subrange;
use vstd::prelude::*;

verus! {

/// The error of the parser at the character `offset`.
pub(crate) fn fault_at(fault: Fault, offset: usize) -> (e: Error)
    ensures
        e == (Error::Parse { fault, offset }),
        e@ == (Failure::Parse { fault, at: offset as int }),
{
    Error::Parse { fault, offset }
}

/// The position of the first token of `s` at or after `start`.
pub(crate) fn skip_trivia(s: &[char], start: usize) -> (r: Result<usize, Error>)
    requires
        start <= s.len(),
    ensures
        match grammar::skip_trivia(s@, start as int) {
            Ok(j) => r == Ok::<usize, Error>(j as usize) && start <= j <= s.len(),
            Err(failure) => r matches Err(e) && e@ == failure,
        },
{
    let mut i = start;
    let mut inside = Trivia::Space;
    proof {
        grammar::lemma_trivia_end_bounds(s@, start as int, Trivia::Space);
    }
    loop
        invariant
            start <= i <= s.len(),
            grammar::skip_trivia(s@, start as int) == grammar::trivia_end(s@, i as int, inside),
        decreases s.len() - i,
    {
        if i >= s.len() {
            return match inside {
                Trivia::BlockComment => Err(fault_at(Fault::UnterminatedComment, s.len())),
                _ => Ok(i),
            };
        }
        let c = s[i];
        match inside {
            Trivia::Space => {
                if json5::char::is_json5_whitespace(c) {
                    i += 1;
                } else if c == '/' {
                    if i + 1 < s.len() && s[i + 1] == '/' {
                        i += 2;
                        inside = Trivia::LineComment;
                    } else if i + 1 < s.len() && s[i + 1] == '*' {
                        i += 2;
                        inside = Trivia::BlockComment;
                    } else {
                        return Err(fault_at(Fault::ExpectedComment, i));
                    }
                } else {
                    return Ok(i);
                }
            },
            Trivia::LineComment => {
                if json5::char::is_json5_line_terminator(c) {
                    inside = Trivia::Space;
                }
                i += 1;
            },
            Trivia::BlockComment => {
                if c == '*' && i + 1 < s.len() && s[i + 1] == '/' {
                    i += 2;
                    inside = Trivia::Space;
                } else {
                    i += 1;
                }
            },
        }
    }
}

/// Whether `c` is a decimal digit.
pub(crate) fn is_digit(c: char) -> (r: bool)
    ensures
        r == crate::literal::is_digit(c),
{
    c >= '0' && c <= '9'
}

/// The number written by the `n` hexadecimal digits of `s` at `i`.
pub(crate) fn hex_number(s: &[char], i: usize, n: usize) -> (r: Option<u32>)
    requires
        i <= s.len(),
        n <= 4,
    ensures
        match grammar::hex_number(s@, i as int, n as nat) {
            Some(v) => r == Some(v as u32) && 0 <= v < 0x10000,
            None => r is None,
        },
{
    if n > s.len() - i {
        proof {
            lemma_hex_number_needs_room(s@, i as int, n as nat);
        }
        return None;
    }
    let mut value: u32 = 0;
    let mut k: usize = 0;
    while k < n
        invariant
            k <= n <= 4,
            i + n <= s.len(),
            grammar::hex_number(s@, i as int, k as nat) == Some(value as int),
            k == 0 ==> value == 0,
            k == 1 ==> value < 0x10,
            k == 2 ==> value < 0x100,
            k == 3 ==> value < 0x1000,
            k == 4 ==> value < 0x10000,
        decreases n - k,
    {
        match hex_digit(s[i + k]) {
            Some(d) => {
                value = value * 16 + d;
                k += 1;
            },
            None => {
                proof {
                    lemma_hex_number_stops(s@, i as int, (k + 1) as nat, n as nat);
                }
                return None;
            },
        }
    }
    Some(value)
}

/// The character with the code `code`.
fn scalar(code: u32) -> (c: char)
    requires
        grammar::is_scalar(code as int),
    ensures
        c == code as char,
{
    match char::from_u32(code) {
        Some(c) => c,
        None => '\u{0000}',
    }
}

/// The character that `\u` denotes with the digits of `s` at `i`, and the
/// position after the escape, which starts at `escape`.
pub(crate) fn unicode_escape(s: &[char], i: usize, escape: usize) -> (r: Result<
    (char, usize),
    Error,
>)
    requires
        escape < i <= s.len(),
    ensures
        match grammar::unicode_escape(s@, i as int, escape as int) {
            Ok((c, next)) => r == Ok::<(char, usize), Error>((c, next as usize)) && i < next
                <= s.len(),
            Err(failure) => r matches Err(e) && e@ == failure,
        },
{
    let high = match hex_number(s, i, 4) {
        Some(high) => high,
        None => {
            return Err(fault_at(Fault::InvalidEscape, escape));
        },
    };
    if high <= 0xD7FF || high >= 0xE000 {
        return Ok((scalar(high), i + 4));
    }
    if high <= 0xDBFF && s.len() - i >= 6 && s[i + 4] == '\\' && s[i + 5] == 'u' {
        match hex_number(s, i + 6, 4) {
            Some(low) => {
                if 0xDC00 <= low && low <= 0xDFFF {
                    let code = 0x10000 + (high - 0xD800) * 0x400 + (low - 0xDC00);
                    return Ok((scalar(code), i + 10));
                }
            },
            None => {},
        }
    }
    Err(fault_at(Fault::InvalidEscape, escape))
}

/// What the escape sequence of `s` whose backslash stands before `i` adds to
/// a string, and the position after it.
pub(crate) fn string_escape(s: &[char], i: usize) -> (r: Result<
    (Option<char>, usize),
    Error,
>)
    requires
        0 < i <= s.len(),
    ensures
        match grammar::string_escape(s@, i as int) {
            Ok((added, next)) => r == Ok::<(Option<char>, usize), Error>((added, next as usize))
                && i < next <= s.len(),
            Err(failure) => r matches Err(e) && e@ == failure,
        },
{
    if i >= s.len() {
        return Err(fault_at(Fault::UnterminatedString, s.len()));
    }
    let c = s[i];
    if json5::char::is_json5_line_terminator(c) {
        if c == '\u{000D}' && i + 1 < s.len() && s[i + 1] == '\u{000A}' {
            Ok((None, i + 2))
        } else {
            Ok((None, i + 1))
        }
    } else if c == 'b' {
        Ok((Some('\u{0008}'), i + 1))
    } else if c == 't' {
        Ok((Some('\u{0009}'), i + 1))
    } else if c == 'n' {
        Ok((Some('\u{000A}'), i + 1))
    } else if c == 'v' {
        Ok((Some('\u{000B}'), i + 1))
    } else if c == 'f' {
        Ok((Some('\u{000C}'), i + 1))
    } else if c == 'r' {
        Ok((Some('\u{000D}'), i + 1))
    } else if c == '0' {
        if i + 1 < s.len() && is_digit(s[i + 1]) {
            Err(fault_at(Fault::InvalidEscape, i - 1))
        } else {
            Ok((Some('\u{0000}'), i + 1))
        }
    } else if is_digit(c) {
        Err(fault_at(Fault::InvalidEscape, i - 1))
    } else if c == 'x' {
        match hex_number(s, i + 1, 2) {
            Some(code) => {
                proof {
                    lemma_two_digits_small(s@, i + 1);
                }
                Ok((Some(scalar(code)), i + 3))
            },
            None => Err(fault_at(Fault::InvalidEscape, i - 1)),
        }
    } else if c == 'u' {
        match unicode_escape(s, i + 1, i - 1) {
            Ok((c, next)) => Ok((Some(c), next)),
            Err(e) => Err(e),
        }
    } else {
        Ok((Some(c), i + 1))
    }
}

/// The rest of a string of `s` that `quote` opened before `start`: its text,
/// and the position after the closing quote.
pub(crate) fn string_rest(s: &[char], start: usize, quote: char) -> (r: Result<
    (String, usize),
    Error,
>)
    requires
        0 < start <= s.len(),
    ensures
        match grammar::string_rest(s@, start as int, quote, Seq::empty()) {
            Ok((text, next)) => r matches Ok((t, n)) && t@ == text && n == next && start < n
                <= s.len(),
            Err(failure) => r matches Err(e) && e@ == failure,
        },
{
    let mut text = String::new();
    let mut i = start;
    loop
        invariant
            start <= i <= s.len(),
            0 < start,
            grammar::string_rest(s@, start as int, quote, Seq::empty()) == grammar::string_rest(
                s@,
                i as int,
                quote,
                text@,
            ),
        decreases s.len() - i,
    {
        if i >= s.len() {
            return Err(fault_at(Fault::UnterminatedString, s.len()));
        }
        let c = s[i];
        if c == quote {
            return Ok((text, i + 1));
        } else if c == '\u{000A}' || c == '\u{000D}' {
            return Err(fault_at(Fault::LineBreakInString, i));
        } else if c == '\\' {
            match string_escape(s, i + 1) {
                Ok((added, next)) => {
                    match added {
                        Some(c) => text.push(c),
                        None => {},
                    }
                    i = next;
                },
                Err(e) => {
                    return Err(e);
                },
            }
        } else {
            text.push(c);
            i += 1;
        }
    }
}

/// Whether `c` may stand in an unquoted key, at its start or after it.
fn is_key_char(c: char, first: bool) -> (r: bool)
    ensures
        r == grammar::is_key_char(c, first),
{
    if first {
        json5::char::is_json5_identifier_start(c)
    } else {
        json5::char::is_json5_identifier(c)
    }
}

/// The unquoted key of `s` that starts at `start`, and the position of the
/// first character after it.
pub(crate) fn identifier(s: &[char], start: usize) -> (r: Result<(String, usize), Error>)
    requires
        start <= s.len(),
    ensures
        match grammar::identifier_rest(s@, start as int, Seq::empty()) {
            Ok((text, next)) => r matches Ok((t, n)) && t@ == text && n == next && start < n
                <= s.len(),
            Err(failure) => r matches Err(e) && e@ == failure,
        },
{
    let mut text = String::new();
    let mut i = start;
    let mut first = true;
    loop
        invariant
            start <= i <= s.len(),
            first == (text@.len() == 0),
            first <==> i == start,
            grammar::identifier_rest(s@, start as int, Seq::empty()) == grammar::identifier_rest(
                s@,
                i as int,
                text@,
            ),
        decreases s.len() - i,
    {
        if i >= s.len() {
            return Err(fault_at(Fault::UnterminatedObject, s.len()));
        }
        let c = s[i];
        if c == '\\' {
            if i + 1 < s.len() && s[i + 1] == 'u' {
                match unicode_escape(s, i + 2, i) {
                    Ok((c, next)) => {
                        if !is_key_char(c, first) {
                            return Err(fault_at(Fault::ExpectedKey, i));
                        }
                        text.push(c);
                        i = next;
                        first = false;
                    },
                    Err(e) => {
                        return Err(e);
                    },
                }
            } else {
                return Err(fault_at(Fault::InvalidEscape, i));
            }
        } else if is_key_char(c, first) {
            text.push(c);
            i += 1;
            first = false;
        } else if first {
            return Err(fault_at(Fault::ExpectedKey, i));
        } else {
            return Ok((text, i));
        }
    }
}

/// The key of `s` that starts at `i`, quoted or not, and the position after
/// it.
pub(crate) fn key(s: &[char], i: usize) -> (r: Result<(String, usize), Error>)
    requires
        i <= s.len(),
    ensures
        match grammar::key(s@, i as int) {
            Ok((text, next)) => r matches Ok((t, n)) && t@ == text && n == next && i < n
                <= s.len(),
            Err(failure) => r matches Err(e) && e@ == failure,
        },
{
    if i < s.len() && (s[i] == '"' || s[i] == '\'') {
        string_rest(s, i + 1, s[i])
    } else {
        identifier(s, i)
    }
}

/// Whether `s` holds the characters of `word` from `i` on.
pub(crate) fn starts_with(s: &[char], i: usize, word: &[char]) -> (r: bool)
    requires
        i <= s.len(),
    ensures
        r == grammar::has_word(s@, i as int, word@),
{
    if word.len() > s.len() - i {
        return false;
    }
    let mut k: usize = 0;
    while k < word.len()
        invariant
            k <= word.len(),
            i + word.len() <= s.len(),
            s@.subrange(i as int, i + k) == word@.take(k as int),
        decreases word.len() - k,
    {
        if s[i + k] != word[k] {
            assert(s@.subrange(i as int, i + word.len())[k as int] != word@[k as int]);
            return false;
        }
        assert(s@.subrange(i as int, i + k + 1) =~= s@.subrange(i as int, i + k).push(s@[i + k]));
        assert(word@.take(k + 1) =~= word@.take(k as int).push(word@[k as int]));
        k += 1;
    }
    assert(word@.take(word.len() as int) =~= word@);
    true
}

/// The end of the run of characters of decimal literals that starts at `i`.
fn scan_number(s: &[char], i: usize) -> (j: usize)
    requires
        i <= s.len(),
    ensures
        j == grammar::number_end(s@, i as int),
        i <= j <= s.len(),
{
    let mut j = i;
    while j < s.len() && (is_digit(s[j]) || s[j] == '+' || s[j] == '-' || s[j] == '.' || s[j]
        == 'e' || s[j] == 'E')
        invariant
            i <= j <= s.len(),
            grammar::number_end(s@, i as int) == grammar::number_end(s@, j as int),
        decreases s.len() - j,
    {
        j += 1;
    }
    j
}

/// The end of the run of hexadecimal digits that starts at `i`.
fn scan_hex(s: &[char], i: usize) -> (j: usize)
    requires
        i <= s.len(),
    ensures
        j == grammar::hex_end(s@, i as int),
        i <= j <= s.len(),
        crate::radix::all_hex(s@.subrange(i as int, j as int)),
{
    let mut j = i;
    while j < s.len() && hex_digit(s[j]).is_some()
        invariant
            i <= j <= s.len(),
            grammar::hex_end(s@, i as int) == grammar::hex_end(s@, j as int),
            forall|k: int| i <= k < j ==> crate::radix::is_hex_digit(#[trigger] s@[k]),
        decreases s.len() - j,
    {
        j += 1;
    }
    assert forall|k: int| 0 <= k < j - i implies crate::radix::is_hex_digit(
        #[trigger] s@.subrange(i as int, j as int)[k],
    ) by {
        assert(crate::radix::is_hex_digit(s@[i + k]));
    }
    j
}

/// The number of `s` whose literal starts at `i`, and the position after it.
pub(crate) fn number(s: &[char], i: usize) -> (r: Result<(Decimal, usize), Error>)
    requires
        i < s.len(),
    ensures
        match grammar::number(s@, i as int) {
            Ok((decimal, next)) => r matches Ok((d, n)) && d@ == decimal && n == next && i < n
                <= s.len(),
            Err(failure) => r matches Err(e) && e@ == failure,
        },
{
    let signed = s[i] == '+' || s[i] == '-';
    let start = if signed { i + 1 } else { i };
    if start < s.len() && (s[start] == 'I' || s[start] == 'N') {
        let infinity = ['I', 'n', 'f', 'i', 'n', 'i', 't', 'y'];
        let nan = ['N', 'a', 'N'];
        assert(infinity@ =~= seq!['I', 'n', 'f', 'i', 'n', 'i', 't', 'y']);
        assert(nan@ =~= seq!['N', 'a', 'N']);
        if starts_with(s, start, &infinity) || starts_with(s, start, &nan) {
            return Err(fault_at(Fault::NonFiniteNumber, i));
        }
        return Err(fault_at(Fault::InvalidNumber, i));
    }
    if start < s.len() && s.len() - start > 1 && s[start] == '0' && (s[start + 1] == 'x' || s[start
        + 1] == 'X') {
        let end = scan_hex(s, start + 2);
        if end == start + 2 {
            return Err(fault_at(Fault::InvalidNumber, i));
        }
        let sign = if s[i] == '-' { NumberSign::Minus } else { NumberSign::Plus };
        return match hex_to_decimal(slice_subrange(s, start + 2, end)) {
            Some(magnitude) => match Decimal::from_parts(sign, magnitude, 0) {
                Ok(decimal) => Ok((decimal, end)),
                Err(e) => Err(e),
            },
            None => Err(fault_at(Fault::InvalidNumber, i)),
        };
    }
    let end = scan_number(s, i);
    let text = slice_subrange(s, i, end);
    let leading_zero = end > start && end - start > 1 && s[start] == '0' && is_digit(
        s[start + 1],
    );
    assert(leading_zero == grammar::has_leading_zero(text@));
    if leading_zero || !is_decimal_literal(text) {
        return Err(fault_at(Fault::InvalidNumber, i));
    }
    match normalize(text) {
        Ok(decimal) => Ok((decimal, end)),
        Err(e) => Err(e),
    }
}

/// What stands between the members of an array or object of `s`, read from
/// `i`: whether it is the closing bracket `close`, and the position after
/// the bracket or of the next member.
pub(crate) fn gap(
    s: &[char],
    i: usize,
    first: bool,
    close: char,
    unterminated: Fault,
) -> (r: Result<(bool, usize), Error>)
    requires
        i <= s.len(),
    ensures
        match grammar::gap(s@, i as int, first, close, unterminated) {
            Ok((closed, next)) => r == Ok::<(bool, usize), Error>((closed, next as usize)) && i
                <= next <= s.len(),
            Err(failure) => r matches Err(e) && e@ == failure,
        },
{
    let j = match skip_trivia(s, i) {
        Ok(j) => j,
        Err(e) => {
            return Err(e);
        },
    };
    if j >= s.len() {
        return Err(fault_at(unterminated, s.len()));
    }
    if s[j] == close {
        return Ok((true, j + 1));
    }
    if first {
        return Ok((false, j));
    }
    if s[j] != ',' {
        return Err(fault_at(Fault::ExpectedComma, j));
    }
    let k = match skip_trivia(s, j + 1) {
        Ok(k) => k,
        Err(e) => {
            return Err(e);
        },
    };
    if k >= s.len() {
        return Err(fault_at(unterminated, s.len()));
    }
    if s[k] == close {
        return Ok((true, k + 1));
    }
    Ok((false, k))
}

/// The key of the member of `s` that starts at `i`, and the position at
/// which its value starts.
pub(crate) fn member_key(s: &[char], i: usize) -> (r: Result<(String, usize), Error>)
    requires
        i <= s.len(),
    ensures
        match grammar::member_key(s@, i as int) {
            Ok((name, start)) => r matches Ok((t, n)) && t@ == name && n == start && i < n
                <= s.len(),
            Err(failure) => r matches Err(e) && e@ == failure,
        },
{
    let (name, after_key) = match key(s, i) {
        Ok(found) => found,
        Err(e) => {
            return Err(e);
        },
    };
    let colon = match skip_trivia(s, after_key) {
        Ok(colon) => colon,
        Err(e) => {
            return Err(e);
        },
    };
    if colon >= s.len() {
        return Err(fault_at(Fault::UnterminatedObject, s.len()));
    }
    if s[colon] != ':' {
        return Err(fault_at(Fault::ExpectedColon, colon));
    }
    match skip_trivia(s, colon + 1) {
        Ok(start) => Ok((name, start)),
        Err(e) => Err(e),
    }
}

/// Two hexadecimal digits write a number below 256.
proof fn lemma_two_digits_small(s: Seq<char>, i: int)
    ensures
        grammar::hex_number(s, i, 2) matches Some(v) ==> 0 <= v < 0x100,
{
    reveal_with_fuel(grammar::hex_number, 3);
}

/// Fewer than `n` characters at `i` hold no `n` digits.
proof fn lemma_hex_number_needs_room(s: Seq<char>, i: int, n: nat)
    requires
        0 <= i <= s.len(),
        i + n > s.len(),
    ensures
        grammar::hex_number(s, i, n) is None,
{
}

/// Where the first `k` characters at `i` are not all digits, neither are the
/// first `n`, for `n` from `k` on.
proof fn lemma_hex_number_stops(s: Seq<char>, i: int, k: nat, n: nat)
    requires
        k <= n,
        grammar::hex_number(s, i, k) is None,
    ensures
        grammar::hex_number(s, i, n) is None,
    decreases n - k,
{
    if k < n {
        lemma_hex_number_stops(s, i, k, (n - 1) as nat);
    }
}

} // verus!
