//! Characters of a text and the character classes of the JSON5 grammar.

use vstd::prelude::*;

verus! {

/// The characters that JSON5 treats as white space.
pub open spec fn is_whitespace(c: char) -> bool {
    ||| '\u{0009}' <= c <= '\u{000D}'
    ||| c == '\u{0020}'
    ||| c == '\u{00A0}'
    ||| c == '\u{1680}'
    ||| '\u{2000}' <= c <= '\u{200A}'
    ||| c == '\u{2028}'
    ||| c == '\u{2029}'
    ||| c == '\u{202F}'
    ||| c == '\u{205F}'
    ||| c == '\u{3000}'
    ||| c == '\u{FEFF}'
}

/// The characters that end a line.
pub open spec fn is_line_terminator(c: char) -> bool {
    c == '\u{000A}' || c == '\u{000D}' || c == '\u{2028}' || c == '\u{2029}'
}

/// Whether `c` may start an identifier: what
/// `json5::char::is_json5_identifier_start` answers for it.
pub uninterp spec fn is_identifier_start(c: char) -> bool;

/// Whether `c` may continue an identifier: what
/// `json5::char::is_json5_identifier` answers for it.
pub uninterp spec fn is_identifier_part(c: char) -> bool;

/// `json5::char::is_json5_whitespace`: true of tab to carriage return, of the
/// no-break space, the line and paragraph separators, the byte order mark and
/// the space separators of Unicode, which `is_whitespace` lists one by one.
pub assume_specification[ json5::char::is_json5_whitespace ](c: char) -> (r: bool)
    ensures
        r == is_whitespace(c),
;

/// `json5::char::is_json5_line_terminator`: true of line feed, carriage
/// return, line separator and paragraph separator.
pub assume_specification[ json5::char::is_json5_line_terminator ](c: char) -> (r: bool)
    ensures
        r == is_line_terminator(c),
;

/// `json5::char::is_json5_identifier_start`: a test on Unicode tables, which
/// depends on the character alone.
pub assume_specification[ json5::char::is_json5_identifier_start ](c: char) -> (r: bool)
    ensures
        r == is_identifier_start(c),
;

/// `json5::char::is_json5_identifier`: a test on Unicode tables, which
/// depends on the character alone.
pub assume_specification[ json5::char::is_json5_identifier ](c: char) -> (r: bool)
    ensures
        r == is_identifier_part(c),
;

/// `char::from_u32`: the character with the given code point, where the code
/// point is a Unicode scalar value.
pub assume_specification[ char::from_u32 ](i: u32) -> (r: Option<char>)
    ensures
        r == if i <= 0xD7FF || (0xE000 <= i && i <= 0x10FFFF) {
            Some(i as char)
        } else {
            None
        },
;

/// `String::push`: appends one character.
pub assume_specification[ std::string::String::push ](s: &mut std::string::String, c: char)
    ensures
        final(s)@ == old(s)@.push(c),
;

/// The characters of `text`, in order.
pub fn to_chars(text: &str) -> (chars: Vec<char>)
    ensures
        chars@ == text@,
{
    broadcast use vstd::string::group_string_axioms;

    let mut chars: Vec<char> = Vec::new();
    for c in it: text.chars()
        invariant
            it.seq() == text@,
            chars@ == text@.take(it.index()),
    {
        assert(text@.take(it.index() + 1) =~= text@.take(it.index()).push(c));
        chars.push(c);
    }
    assert(text@.take(text@.len() as int) =~= text@);
    chars
}

} // verus!
