use json5_backend::literal::make_decimal;
use json5_backend::parser::{parse, ParseConfig};
use serde::de::IgnoredAny;

/// Every text of at most `length` characters of `alphabet`.
fn texts(alphabet: &[char], length: usize) -> Vec<String> {
    let mut all = vec![String::new()];
    let mut last = vec![String::new()];
    for _ in 0..length {
        let mut next = Vec::with_capacity(last.len() * alphabet.len());
        for text in &last {
            for c in alphabet {
                let mut longer = text.clone();
                longer.push(*c);
                next.push(longer);
            }
        }
        all.extend(next.iter().cloned());
        last = next;
    }
    all
}

/// A decimal literal read by hand: sign, digits of the coefficient without
/// zeros in front, exponent.
fn by_hand(text: &str) -> Option<(i8, String, i64)> {
    let bytes = text.as_bytes();
    let mut i = 0;
    let negative = bytes.first() == Some(&b'-');
    if matches!(bytes.first(), Some(b'+') | Some(b'-')) {
        i += 1;
    }
    let mut digits = String::new();
    while i < bytes.len() && bytes[i].is_ascii_digit() {
        digits.push(bytes[i] as char);
        i += 1;
    }
    let mut places = 0i64;
    if i < bytes.len() && bytes[i] == b'.' {
        i += 1;
        while i < bytes.len() && bytes[i].is_ascii_digit() {
            digits.push(bytes[i] as char);
            places += 1;
            i += 1;
        }
    }
    if digits.is_empty() {
        return None;
    }
    let mut exponent = 0i64;
    if i < bytes.len() && (bytes[i] == b'e' || bytes[i] == b'E') {
        i += 1;
        let minus = i < bytes.len() && bytes[i] == b'-';
        if i < bytes.len() && (bytes[i] == b'+' || bytes[i] == b'-') {
            i += 1;
        }
        let start = i;
        while i < bytes.len() && bytes[i].is_ascii_digit() {
            exponent = exponent * 10 + i64::from(bytes[i] - b'0');
            i += 1;
        }
        if i == start {
            return None;
        }
        if minus {
            exponent = -exponent;
        }
    }
    if i != bytes.len() {
        return None;
    }
    let coefficient = digits.trim_start_matches('0');
    let coefficient = if coefficient.is_empty() { "0" } else { coefficient };
    let sign = if negative && coefficient != "0" { -1 } else { 1 };
    Some((sign, coefficient.to_string(), exponent - places))
}

#[test]
fn every_short_text_gives_the_decimal_read_by_hand() {
    let alphabet = ['+', '-', '.', 'e', 'E', '0', '1', '9'];
    let mut literals = 0;
    for text in texts(&alphabet, 6) {
        let expected = by_hand(&text);
        let found = make_decimal(&text).ok().map(|d| {
            let digits: String = d.coefficient().iter().map(|c| (b'0' + c) as char).collect();
            (d.sign(), digits, d.exponent())
        });
        assert_eq!(found, expected, "{:?}", text);
        if expected.is_some() {
            literals += 1;
        }
    }
    assert!(literals > 10_000);
}

/// Whether the text is JSON5 to the parser of the json5 crate.
fn accepted_elsewhere(text: &str) -> bool {
    json5::from_str::<IgnoredAny>(text).is_ok()
}

fn agree_on(alphabet: &[char], length: usize) {
    let mut accepted = 0;
    for text in texts(alphabet, length) {
        let here = parse(&text, ParseConfig::default()).is_ok();
        assert_eq!(here, accepted_elsewhere(&text), "{:?}", text);
        if here {
            accepted += 1;
        }
    }
    assert!(accepted > 0);
}

#[test]
fn every_short_structure_is_accepted_as_the_json5_crate_accepts_it() {
    agree_on(&['[', ']', '{', '}', ',', ':', 'a', '1', ' ', '\''], 6);
}

#[test]
fn every_short_number_is_accepted_as_the_json5_crate_accepts_it() {
    agree_on(&['+', '-', '.', 'e', '0', '1', 'x', 'a', ' ', ','], 6);
}

#[test]
fn every_short_number_in_capitals_is_accepted_as_the_json5_crate_accepts_it() {
    agree_on(&['E', 'X', '0', '1', '-', '.', 'e', 'x', 'f', 'F'], 6);
}

#[test]
fn infinity_and_nan_are_where_the_json5_crate_goes_another_way() {
    for text in ["Infinity", "-Infinity", "+Infinity", "NaN", "-NaN", "[NaN]"] {
        assert!(accepted_elsewhere(text), "{:?}", text);
        assert!(parse(text, ParseConfig::default()).is_err(), "{:?}", text);
    }
    let long = "340282366920938463463374607431768211456";
    assert!(!accepted_elsewhere(long));
    assert!(parse(long, ParseConfig::default()).is_ok());
}

#[test]
fn every_short_string_is_accepted_as_the_json5_crate_accepts_it() {
    agree_on(&['\'', '"', '\\', 'u', 'x', '0', 'D', '8', '\n', 'a'], 6);
    agree_on(&['"', '\\', 'u', 'd', 'D', '8', 'c', '0'], 7);
}

#[test]
fn every_short_comment_is_accepted_as_the_json5_crate_accepts_it() {
    agree_on(&['/', '*', '\n', '\r', ' ', '1', 'a', '[', ']', '\u{2028}'], 6);
}

#[test]
fn every_short_key_is_accepted_as_the_json5_crate_accepts_it() {
    agree_on(&['{', '}', ':', ',', 'a', '1', '$', '\\', 'u', '0', '6'], 6);
}
