//! The grammar of JSON, the language that JSON5 extends, and what a JSON
//! text holds.

use crate::decimal::DecimalView;
use crate::grammar::{has_word, number_end, unicode_escape};
use crate::literal::{is_digit, literal_decimal, literal_shape};
use crate::value::ValueView;
use vstd::prelude::*;

verus! {

/// The four characters that JSON treats as white space.
pub open spec fn is_json_space(c: char) -> bool {
    c == '\u{0020}' || c == '\u{0009}' || c == '\u{000A}' || c == '\u{000D}'
}

/// The position of the first character at or after `i` that is no white
/// space.
pub open spec fn json_space_end(s: Seq<char>, i: int) -> int
    decreases s.len() - i,
{
    if 0 <= i < s.len() && is_json_space(s[i]) {
        json_space_end(s, i + 1)
    } else {
        i
    }
}

/// The character that the escape sequence denotes whose backslash stands at
/// `i - 1`, and the position after it. JSON has eight escapes of one
/// character and `\u` with four hexadecimal digits; two `\u` escapes that
/// form a surrogate pair denote one character, and a surrogate alone denotes
/// none.
pub open spec fn json_escape(s: Seq<char>, i: int) -> Option<(char, int)> {
    if i < 0 || i >= s.len() {
        None
    } else if s[i] == '"' || s[i] == '\\' || s[i] == '/' {
        Some((s[i], i + 1))
    } else if s[i] == 'b' {
        Some(('\u{0008}', i + 1))
    } else if s[i] == 'f' {
        Some(('\u{000C}', i + 1))
    } else if s[i] == 'n' {
        Some(('\u{000A}', i + 1))
    } else if s[i] == 'r' {
        Some(('\u{000D}', i + 1))
    } else if s[i] == 't' {
        Some(('\u{0009}', i + 1))
    } else if s[i] == 'u' {
        match unicode_escape(s, i + 1, i - 1) {
            Ok((c, next)) => Some((c, next)),
            Err(_) => None,
        }
    } else {
        None
    }
}

/// The rest of a string, read from `i` with `text` read so far: the whole
/// text of the string, and the position after the closing quote. Control
/// characters stand in a string only as escapes.
pub open spec fn json_string_rest(s: Seq<char>, i: int, text: Seq<char>) -> Option<
    (Seq<char>, int),
>
    decreases s.len() - i,
{
    if i < 0 || i >= s.len() {
        None
    } else if s[i] == '"' {
        Some((text, i + 1))
    } else if s[i] == '\\' {
        match json_escape(s, i + 1) {
            Some((c, next)) => {
                if i < next <= s.len() {
                    json_string_rest(s, next, text.push(c))
                } else {
                    None
                }
            },
            None => None,
        }
    } else if s[i] >= '\u{0020}' {
        json_string_rest(s, i + 1, text.push(s[i]))
    } else {
        None
    }
}

/// `text` is a number of JSON: an optional minus, an integer part that is
/// zero or starts with another digit, an optional point with at least one
/// digit after it, and an optional exponent.
pub open spec fn is_json_number(text: Seq<char>) -> bool {
    match literal_shape(text) {
        None => false,
        Some(shape) => {
            &&& text[0] != '+'
            &&& shape.int_end > shape.int_start
            &&& shape.int_end - shape.int_start > 1 ==> text[shape.int_start] != '0'
            &&& shape.frac_start > shape.int_end ==> shape.frac_end > shape.frac_start
        },
    }
}

/// The number whose literal starts at `i`, and the position after it. The
/// literal is the longest run of the characters of numbers; it denotes what
/// it denotes as a decimal literal, which asks that its exponent fits.
pub open spec fn json_number(s: Seq<char>, i: int) -> Option<(DecimalView, int)> {
    let end = number_end(s, i);
    let text = s.subrange(i, end);
    if 0 <= i <= end <= s.len() && is_json_number(text) {
        match literal_decimal(text) {
            Some(decimal) => Some((decimal, end)),
            None => None,
        }
    } else {
        None
    }
}

/// What stands between the members of an array or object, read from `i`:
/// the closing bracket `close`, and then the result is `true` with the
/// position after it, or the start of the next member, and then it is
/// `false` with that position. After the first member a comma comes before
/// each member, and none before the closing bracket.
pub open spec fn json_gap(s: Seq<char>, i: int, first: bool, close: char) -> Option<(bool, int)> {
    let j = json_space_end(s, i);
    if j < 0 || j >= s.len() {
        None
    } else if s[j] == close {
        Some((true, j + 1))
    } else if first {
        Some((false, j))
    } else if s[j] == ',' {
        Some((false, json_space_end(s, j + 1)))
    } else {
        None
    }
}

/// The value whose first character stands at `i`, and the position after
/// the value.
pub open spec fn json_value(s: Seq<char>, i: int) -> Option<(ValueView, int)>
    decreases s.len() - i, 0nat,
{
    if i < 0 || i >= s.len() {
        None
    } else if s[i] == 'n' {
        if has_word(s, i, seq!['n', 'u', 'l', 'l']) {
            Some((ValueView::Null, i + 4))
        } else {
            None
        }
    } else if s[i] == 't' {
        if has_word(s, i, seq!['t', 'r', 'u', 'e']) {
            Some((ValueView::Bool(true), i + 4))
        } else {
            None
        }
    } else if s[i] == 'f' {
        if has_word(s, i, seq!['f', 'a', 'l', 's', 'e']) {
            Some((ValueView::Bool(false), i + 5))
        } else {
            None
        }
    } else if s[i] == '"' {
        match json_string_rest(s, i + 1, Seq::empty()) {
            Some((text, next)) => Some((ValueView::String(text), next)),
            None => None,
        }
    } else if s[i] == '-' || is_digit(s[i]) {
        match json_number(s, i) {
            Some((decimal, next)) => Some((ValueView::Number(decimal), next)),
            None => None,
        }
    } else if s[i] == '[' {
        json_elements(s, i + 1, Seq::empty(), true)
    } else if s[i] == '{' {
        json_members(s, i + 1, Map::empty(), true)
    } else {
        None
    }
}

/// The array whose elements so far are `items`, read on from `i`, and the
/// position after its closing bracket.
pub open spec fn json_elements(s: Seq<char>, i: int, items: Seq<ValueView>, first: bool) -> Option<
    (ValueView, int),
>
    decreases s.len() - i, 2nat,
{
    match json_gap(s, i, first, ']') {
        None => None,
        Some((closed, next)) => {
            if closed {
                Some((ValueView::Array(items), next))
            } else if i <= next <= s.len() {
                json_element(s, next, items)
            } else {
                None
            }
        },
    }
}

/// The array whose elements so far are `items` and whose next element
/// starts at `i`.
pub open spec fn json_element(s: Seq<char>, i: int, items: Seq<ValueView>) -> Option<
    (ValueView, int),
>
    decreases s.len() - i, 1nat,
{
    match json_value(s, i) {
        None => None,
        Some((item, next)) => {
            if i < next <= s.len() {
                json_elements(s, next, items.push(item), false)
            } else {
                None
            }
        },
    }
}

/// The object whose members so far are `entries`, read on from `i`, and the
/// position after its closing brace.
pub open spec fn json_members(
    s: Seq<char>,
    i: int,
    entries: Map<Seq<char>, ValueView>,
    first: bool,
) -> Option<(ValueView, int)>
    decreases s.len() - i, 2nat,
{
    match json_gap(s, i, first, '}') {
        None => None,
        Some((closed, next)) => {
            if closed {
                Some((ValueView::Object(entries), next))
            } else if i <= next <= s.len() {
                json_member(s, next, entries)
            } else {
                None
            }
        },
    }
}

/// The key of the member that starts at `i`, which is a string, and the
/// position at which its value starts: after the key comes a colon.
pub open spec fn json_member_key(s: Seq<char>, i: int) -> Option<(Seq<char>, int)> {
    if i < 0 || i >= s.len() || s[i] != '"' {
        None
    } else {
        match json_string_rest(s, i + 1, Seq::empty()) {
            None => None,
            Some((name, after_key)) => {
                let colon = json_space_end(s, after_key);
                if 0 <= colon < s.len() && s[colon] == ':' {
                    Some((name, json_space_end(s, colon + 1)))
                } else {
                    None
                }
            },
        }
    }
}

/// The object whose members so far are `entries` and whose next member
/// starts at `i`. Of two members with one key the later one counts.
pub open spec fn json_member(s: Seq<char>, i: int, entries: Map<Seq<char>, ValueView>) -> Option<
    (ValueView, int),
>
    decreases s.len() - i, 1nat,
{
    match json_member_key(s, i) {
        None => None,
        Some((name, start)) => {
            if start <= i || start > s.len() {
                None
            } else {
                match json_value(s, start) {
                    None => None,
                    Some((item, next)) => {
                        if start < next <= s.len() {
                            json_members(s, next, entries.insert(name, item), false)
                        } else {
                            None
                        }
                    },
                }
            }
        },
    }
}

/// What the JSON text `s` holds: one value with nothing but white space
/// around it. `None` where `s` is no JSON text, or writes a number whose
/// exponent does not fit or a surrogate that has no partner.
pub open spec fn json_document(s: Seq<char>) -> Option<ValueView> {
    match json_value(s, json_space_end(s, 0)) {
        None => None,
        Some((root, next)) => {
            if json_space_end(s, next) == s.len() {
                Some(root)
            } else {
                None
            }
        },
    }
}

} // verus!
