//! Every rule of the grammar reads forward: what it reads ends after its
//! start and within the text.

use crate::error::Fault;
use crate::grammar::{
    element, elements, gap, hex_end, identifier_rest, key, lemma_gap_bounds,
    lemma_trivia_end_bounds, member, member_key, members, number, number_end, skip_trivia,
    string_rest, value, Trivia,
};
use crate::literal::literal_shape;
use crate::value::ValueView;
use vstd::prelude::*;

verus! {

/// A run of characters of decimal literals ends between its start and the
/// end of the text.
pub proof fn lemma_number_end_bounds(s: Seq<char>, i: int)
    requires
        0 <= i <= s.len(),
    ensures
        i <= number_end(s, i) <= s.len(),
    decreases s.len() - i,
{
    if i < s.len() && crate::grammar::is_number_char(s[i]) {
        lemma_number_end_bounds(s, i + 1);
    }
}

/// A run of hexadecimal digits ends between its start and the end of the
/// text.
pub proof fn lemma_hex_end_bounds(s: Seq<char>, i: int)
    requires
        0 <= i <= s.len(),
    ensures
        i <= hex_end(s, i) <= s.len(),
    decreases s.len() - i,
{
    if i < s.len() && crate::radix::is_hex_digit(s[i]) {
        lemma_hex_end_bounds(s, i + 1);
    }
}

/// A decimal literal has at least one character.
pub proof fn lemma_literal_not_empty(text: Seq<char>)
    requires
        literal_shape(text) is Some,
    ensures
        text.len() > 0,
{
}

/// A number ends after its start.
pub proof fn lemma_number_bounds(s: Seq<char>, i: int)
    requires
        0 <= i < s.len(),
    ensures
        number(s, i) matches Ok((_, next)) ==> i < next <= s.len(),
{
    let start = i + crate::literal::sign_length(s, i);
    if number(s, i) is Ok {
        if start + 1 < s.len() && s[start] == '0' && (s[start + 1] == 'x' || s[start + 1] == 'X') {
            lemma_hex_end_bounds(s, start + 2);
        } else {
            lemma_number_end_bounds(s, i);
            lemma_literal_not_empty(s.subrange(i, number_end(s, i)));
        }
    }
}

/// A string ends after the position from which it is read.
pub proof fn lemma_string_rest_bounds(s: Seq<char>, i: int, quote: char, text: Seq<char>)
    requires
        0 <= i <= s.len(),
    ensures
        string_rest(s, i, quote, text) matches Ok((_, next)) ==> i < next <= s.len(),
    decreases s.len() - i,
{
    if i < s.len() && s[i] != quote && s[i] != '\u{000A}' && s[i] != '\u{000D}' {
        if s[i] == '\\' {
            match crate::grammar::string_escape(s, i + 1) {
                Ok((added, next)) => {
                    if i < next <= s.len() {
                        lemma_string_rest_bounds(
                            s,
                            next,
                            quote,
                            crate::grammar::with_escaped(text, added),
                        );
                    }
                },
                Err(_) => {},
            }
        } else {
            lemma_string_rest_bounds(s, i + 1, quote, text.push(s[i]));
        }
    }
}

/// An unquoted key ends within the text, and after its start where nothing
/// of it was read before.
pub proof fn lemma_identifier_rest_bounds(s: Seq<char>, i: int, text: Seq<char>)
    requires
        0 <= i <= s.len(),
    ensures
        identifier_rest(s, i, text) matches Ok((_, next)) ==> i <= next <= s.len() && (text.len()
            == 0 ==> i < next),
    decreases s.len() - i,
{
    let first = text.len() == 0;
    if i < s.len() {
        if s[i] == '\\' {
            if i + 1 < s.len() && s[i + 1] == 'u' {
                match crate::grammar::unicode_escape(s, i + 2, i) {
                    Ok((c, next)) => {
                        if crate::grammar::is_key_char(c, first) && i < next <= s.len() {
                            lemma_identifier_rest_bounds(s, next, text.push(c));
                        }
                    },
                    Err(_) => {},
                }
            }
        } else if crate::grammar::is_key_char(s[i], first) {
            lemma_identifier_rest_bounds(s, i + 1, text.push(s[i]));
        }
    }
}

/// A key ends after its start.
pub proof fn lemma_key_bounds(s: Seq<char>, i: int)
    requires
        0 <= i <= s.len(),
    ensures
        key(s, i) matches Ok((_, next)) ==> i < next <= s.len(),
{
    if i < s.len() && (s[i] == '"' || s[i] == '\'') {
        lemma_string_rest_bounds(s, i + 1, s[i], Seq::empty());
    } else {
        lemma_identifier_rest_bounds(s, i, Seq::empty());
    }
}

/// The value of a member starts after its key.
pub proof fn lemma_member_key_bounds(s: Seq<char>, i: int)
    requires
        0 <= i <= s.len(),
    ensures
        member_key(s, i) matches Ok((_, start)) ==> i < start <= s.len(),
{
    lemma_key_bounds(s, i);
    match key(s, i) {
        Ok((_, after_key)) => {
            lemma_trivia_end_bounds(s, after_key, Trivia::Space);
            match skip_trivia(s, after_key) {
                Ok(colon) => {
                    if colon < s.len() {
                        lemma_trivia_end_bounds(s, colon + 1, Trivia::Space);
                    }
                },
                Err(_) => {},
            }
        },
        Err(_) => {},
    }
}

/// A value ends after its start.
pub proof fn lemma_value_bounds(s: Seq<char>, i: int)
    requires
        0 <= i <= s.len(),
    ensures
        value(s, i) matches Ok((_, next)) ==> i < next <= s.len(),
    decreases s.len() - i, 0nat,
{
    if i < s.len() {
        if s[i] == 'n' || s[i] == 't' || s[i] == 'f' {
        } else if s[i] == '"' || s[i] == '\'' {
            lemma_string_rest_bounds(s, i + 1, s[i], Seq::empty());
        } else if crate::grammar::starts_number(s[i]) {
            lemma_number_bounds(s, i);
        } else if s[i] == '[' {
            lemma_elements_bounds(s, i + 1, Seq::empty(), true);
        } else if s[i] == '{' {
            lemma_members_bounds(s, i + 1, Map::empty(), true);
        }
    }
}

/// An array ends after the position from which it is read.
pub proof fn lemma_elements_bounds(s: Seq<char>, i: int, items: Seq<ValueView>, first: bool)
    requires
        0 <= i <= s.len(),
    ensures
        elements(s, i, items, first) matches Ok((_, next)) ==> i < next <= s.len(),
    decreases s.len() - i, 2nat,
{
    lemma_gap_bounds(s, i, first, ']', Fault::UnterminatedArray);
    match gap(s, i, first, ']', Fault::UnterminatedArray) {
        Ok((closed, next)) => {
            if !closed {
                lemma_element_bounds(s, next, items);
            }
        },
        Err(_) => {},
    }
}

/// An array ends after the start of its next element.
pub proof fn lemma_element_bounds(s: Seq<char>, i: int, items: Seq<ValueView>)
    requires
        0 <= i <= s.len(),
    ensures
        element(s, i, items) matches Ok((_, next)) ==> i < next <= s.len(),
    decreases s.len() - i, 1nat,
{
    lemma_value_bounds(s, i);
    match value(s, i) {
        Ok((item, next)) => {
            if i < next <= s.len() {
                lemma_elements_bounds(s, next, items.push(item), false);
            }
        },
        Err(_) => {},
    }
}

/// An object ends after the position from which it is read.
pub proof fn lemma_members_bounds(
    s: Seq<char>,
    i: int,
    entries: Map<Seq<char>, ValueView>,
    first: bool,
)
    requires
        0 <= i <= s.len(),
    ensures
        members(s, i, entries, first) matches Ok((_, next)) ==> i < next <= s.len(),
    decreases s.len() - i, 2nat,
{
    lemma_gap_bounds(s, i, first, '}', Fault::UnterminatedObject);
    match gap(s, i, first, '}', Fault::UnterminatedObject) {
        Ok((closed, next)) => {
            if !closed {
                lemma_member_bounds(s, next, entries);
            }
        },
        Err(_) => {},
    }
}

/// An object ends after the start of its next member.
pub proof fn lemma_member_bounds(s: Seq<char>, i: int, entries: Map<Seq<char>, ValueView>)
    requires
        0 <= i <= s.len(),
    ensures
        member(s, i, entries) matches Ok((_, next)) ==> i < next <= s.len(),
    decreases s.len() - i, 1nat,
{
    lemma_member_key_bounds(s, i);
    match member_key(s, i) {
        Ok((name, start)) => {
            if i < start <= s.len() {
                lemma_value_bounds(s, start);
                match value(s, start) {
                    Ok((item, next)) => {
                        if start < next <= s.len() {
                            lemma_members_bounds(s, next, entries.insert(name, item), false);
                        }
                    },
                    Err(_) => {},
                }
            }
        },
        Err(_) => {},
    }
}

} // verus!
