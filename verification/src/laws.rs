//! What holds of the library as a whole.

use crate::bounds::lemma_number_end_bounds;
use crate::decimal::DecimalView;
use crate::digits::pow10;
use crate::error::{Failure, Fault};
use crate::grammar::{
    document, element, elements, gap, member, member_key, members, number, number_end,
    skip_trivia, string_rest, value,
};
use crate::json::{
    is_json_space, json_document, json_element, json_elements, json_escape, json_gap,
    json_member, json_member_key, json_members, json_number, json_space_end, json_string_rest,
    json_value,
};
use crate::literal::{digits_end, is_digit, lemma_digits_end_bounds, literal_shape};
use crate::text::is_whitespace;
use crate::value::ValueView;
use vstd::prelude::*;

verus! {

/// A zero more at the end of the coefficient with an exponent one less
/// leaves the number as it is: `123.450` and `123.45` are equal.
pub proof fn lemma_trailing_zero_same_value(d: DecimalView)
    ensures
        d.same_value(
            DecimalView {
                sign: d.sign,
                coefficient: d.coefficient * 10,
                exponent: d.exponent - 1,
            },
        ),
{
    let longer = DecimalView {
        sign: d.sign,
        coefficient: d.coefficient * 10,
        exponent: d.exponent - 1,
    };
    let k = 1 - d.exponent;
    assert(pow10(1) == 10) by {
        assert(pow10(0) == 1);
    }
    assert(pow10(0) == 1);
    assert(d.sign * d.coefficient * 10 == d.sign * (d.coefficient * 10) * 1) by (nonlinear_arith);
}

/// A character with which a value or a key of JSON starts.
pub open spec fn starts_json_token(c: char) -> bool {
    c == 'n' || c == 't' || c == 'f' || c == '"' || c == '-' || is_digit(c) || c == '[' || c
        == '{'
}

/// At `i` stands something that ends a number of JSON: white space, a comma,
/// a closing bracket or the end of the text.
pub open spec fn is_delimited(s: Seq<char>, i: int) -> bool {
    i >= s.len() || is_json_space(s[i]) || s[i] == ',' || s[i] == ']' || s[i] == '}'
}

/// Where JSON skips white space up to a token, JSON5 skips the same.
pub proof fn lemma_json_space(s: Seq<char>, i: int)
    requires
        0 <= i <= s.len(),
    ensures
        i <= json_space_end(s, i) <= s.len(),
        json_space_end(s, i) < s.len() ==> !is_json_space(s[json_space_end(s, i)]),
        json_space_end(s, i) > i ==> is_json_space(s[i]),
        ({
            let j = json_space_end(s, i);
            j == s.len() || (!is_whitespace(s[j]) && s[j] != '/')
        }) ==> skip_trivia(s, i) == Ok::<int, Failure>(json_space_end(s, i)),
    decreases s.len() - i,
{
    if i < s.len() && is_json_space(s[i]) {
        lemma_json_space(s, i + 1);
    }
}

/// A string of JSON is the same string in JSON5.
pub proof fn lemma_json_string(s: Seq<char>, i: int, text: Seq<char>)
    requires
        0 <= i <= s.len(),
    ensures
        json_string_rest(s, i, text) matches Some((whole, next)) ==> string_rest(s, i, '"', text)
            == Ok::<(Seq<char>, int), Failure>((whole, next)),
    decreases s.len() - i,
{
    if i < s.len() && s[i] != '"' {
        if s[i] == '\\' {
            match json_escape(s, i + 1) {
                Some((c, next)) => {
                    if i < next <= s.len() {
                        lemma_json_string(s, next, text.push(c));
                    }
                },
                None => {},
            }
        } else if s[i] >= '\u{0020}' {
            lemma_json_string(s, i + 1, text.push(s[i]));
        }
    }
}

/// A number of JSON that something delimits is the same number in JSON5.
pub proof fn lemma_json_number(s: Seq<char>, i: int)
    requires
        0 <= i < s.len(),
        s[i] == '-' || is_digit(s[i]),
        json_number(s, i) is Some,
        is_delimited(s, (json_number(s, i)->0).1),
    ensures
        number(s, i) == Ok::<(DecimalView, int), Failure>(json_number(s, i)->0),
{
    let end = number_end(s, i);
    let text = s.subrange(i, end);
    let shape = literal_shape(text)->0;
    lemma_number_end_bounds(s, i);
    let start = i + crate::literal::sign_length(s, i);
    assert(shape.int_start == start - i);
    assert(is_digit(text[shape.int_start])) by {
        reveal_with_fuel(digits_end, 2);
    }
    assert(s[start] == text[shape.int_start]);
    if start + 1 < s.len() && s[start] == '0' && (s[start + 1] == 'x' || s[start + 1] == 'X') {
        assert(number_end(s, i) == start + 1) by {
            reveal_with_fuel(number_end, 3);
        }
    }
    if crate::grammar::has_leading_zero(text) {
        assert(text[shape.int_start + 1] == s[start + 1]);
        assert(digits_end(text, shape.int_start) >= shape.int_start + 2) by {
            reveal_with_fuel(digits_end, 3);
            lemma_digits_end_bounds(text, shape.int_start + 2);
        }
    }
}

/// What stands between the members in JSON stands between them in JSON5,
/// where the next member starts with a token of JSON.
pub proof fn lemma_json_gap(s: Seq<char>, i: int, first: bool, close: char, unterminated: Fault)
    requires
        0 <= i <= s.len(),
        close == ']' || close == '}',
        json_gap(s, i, first, close) is Some,
        ({
            let (closed, next) = json_gap(s, i, first, close)->0;
            !closed ==> 0 <= next < s.len() && starts_json_token(s[next])
        }),
    ensures
        gap(s, i, first, close, unterminated) == Ok::<(bool, int), Failure>(
            json_gap(s, i, first, close)->0,
        ),
        !first ==> is_delimited(s, i),
{
    lemma_json_space(s, i);
    let j = json_space_end(s, i);
    if s[j] != close && !first {
        lemma_json_space(s, j + 1);
    }
}

/// A value of JSON that something delimits is the same value in JSON5.
pub proof fn lemma_json_value(s: Seq<char>, i: int)
    requires
        0 <= i <= s.len(),
        json_value(s, i) is Some,
        is_delimited(s, (json_value(s, i)->0).1),
    ensures
        value(s, i) == Ok::<(ValueView, int), Failure>(json_value(s, i)->0),
    decreases s.len() - i, 0nat,
{
    if s[i] == '"' {
        lemma_json_string(s, i + 1, Seq::empty());
    } else if s[i] == '-' || is_digit(s[i]) {
        lemma_json_number(s, i);
    } else if s[i] == '[' {
        lemma_json_elements(s, i + 1, Seq::empty(), true);
    } else if s[i] == '{' {
        lemma_json_members(s, i + 1, Map::empty(), true);
    }
}

/// An array of JSON is the same array in JSON5.
pub proof fn lemma_json_elements(s: Seq<char>, i: int, items: Seq<ValueView>, first: bool)
    requires
        0 <= i <= s.len(),
        json_elements(s, i, items, first) is Some,
    ensures
        elements(s, i, items, first) == Ok::<(ValueView, int), Failure>(
            json_elements(s, i, items, first)->0,
        ),
        !first ==> is_delimited(s, i),
    decreases s.len() - i, 2nat,
{
    let (closed, next) = json_gap(s, i, first, ']')->0;
    lemma_json_gap(s, i, first, ']', Fault::UnterminatedArray);
    if !closed {
        lemma_json_element(s, next, items);
    }
}

/// An array of JSON that goes on with an element is the same array in
/// JSON5.
pub proof fn lemma_json_element(s: Seq<char>, i: int, items: Seq<ValueView>)
    requires
        0 <= i <= s.len(),
        json_element(s, i, items) is Some,
    ensures
        element(s, i, items) == Ok::<(ValueView, int), Failure>(json_element(s, i, items)->0),
    decreases s.len() - i, 1nat,
{
    let (item, next) = json_value(s, i)->0;
    lemma_json_elements(s, next, items.push(item), false);
    lemma_json_value(s, i);
}

/// An object of JSON is the same object in JSON5.
pub proof fn lemma_json_members(
    s: Seq<char>,
    i: int,
    entries: Map<Seq<char>, ValueView>,
    first: bool,
)
    requires
        0 <= i <= s.len(),
        json_members(s, i, entries, first) is Some,
    ensures
        members(s, i, entries, first) == Ok::<(ValueView, int), Failure>(
            json_members(s, i, entries, first)->0,
        ),
        !first ==> is_delimited(s, i),
    decreases s.len() - i, 2nat,
{
    let (closed, next) = json_gap(s, i, first, '}')->0;
    lemma_json_gap(s, i, first, '}', Fault::UnterminatedObject);
    if !closed {
        lemma_json_member(s, next, entries);
    }
}

/// The key of a member of JSON is the same key in JSON5, where the value
/// starts with a token of JSON.
pub proof fn lemma_json_member_key(s: Seq<char>, i: int)
    requires
        0 <= i <= s.len(),
        json_member_key(s, i) is Some,
        ({
            let start = (json_member_key(s, i)->0).1;
            0 <= start < s.len() && starts_json_token(s[start])
        }),
    ensures
        member_key(s, i) == Ok::<(Seq<char>, int), Failure>(json_member_key(s, i)->0),
{
    lemma_json_string(s, i + 1, Seq::empty());
    crate::bounds::lemma_string_rest_bounds(s, i + 1, '"', Seq::empty());
    let (name, after_key) = json_string_rest(s, i + 1, Seq::empty())->0;
    lemma_json_space(s, after_key);
    let colon = json_space_end(s, after_key);
    lemma_json_space(s, colon + 1);
}

/// An object of JSON that goes on with a member is the same object in
/// JSON5.
pub proof fn lemma_json_member(s: Seq<char>, i: int, entries: Map<Seq<char>, ValueView>)
    requires
        0 <= i <= s.len(),
        json_member(s, i, entries) is Some,
    ensures
        member(s, i, entries) == Ok::<(ValueView, int), Failure>(json_member(s, i, entries)->0),
    decreases s.len() - i, 1nat,
{
    let (name, start) = json_member_key(s, i)->0;
    let (item, next) = json_value(s, start)->0;
    lemma_json_member_key(s, i);
    lemma_json_members(s, next, entries.insert(name, item), false);
    lemma_json_value(s, start);
}

/// Every JSON text is a JSON5 text and holds the same value: what `parse`
/// returns for it is the value that JSON gives it. The JSON texts are those
/// of `json_document`, which leaves out a number whose exponent does not fit
/// and a surrogate without partner.
pub proof fn lemma_json_is_json5(s: Seq<char>)
    requires
        json_document(s) is Some,
    ensures
        document(s) == Ok::<ValueView, Failure>(json_document(s)->0),
{
    lemma_json_space(s, 0);
    let start = json_space_end(s, 0);
    let (root, next) = json_value(s, start)->0;
    crate::bounds::lemma_value_bounds(s, start);
    if start < s.len() {
        lemma_json_value_bounds(s, start);
        lemma_json_space(s, next);
        lemma_json_value(s, start);
    }
}

/// A value of JSON ends within the text.
pub proof fn lemma_json_value_bounds(s: Seq<char>, i: int)
    requires
        0 <= i <= s.len(),
        json_value(s, i) is Some,
        json_space_end(s, (json_value(s, i)->0).1) == s.len(),
    ensures
        0 <= (json_value(s, i)->0).1 <= s.len(),
{
    let next = (json_value(s, i)->0).1;
    if next > s.len() {
        assert(json_space_end(s, next) == next);
    }
    if next < 0 {
        assert(json_space_end(s, next) == next);
    }
}

} // verus!
