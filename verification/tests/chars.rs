use json5_backend::error::{Error, Fault};
use json5_backend::parser::{parse, ParseConfig};
use json5_backend::value::Value;

fn is_white_space(c: char) -> bool {
    matches!(
        c,
        '\u{0009}'..='\u{000D}'
            | '\u{0020}'
            | '\u{00A0}'
            | '\u{1680}'
            | '\u{2000}'..='\u{200A}'
            | '\u{2028}'
            | '\u{2029}'
            | '\u{202F}'
            | '\u{205F}'
            | '\u{3000}'
            | '\u{FEFF}'
    )
}

fn every_char() -> impl Iterator<Item = char> {
    (0u32..=0x10FFFF).filter_map(char::from_u32)
}

#[test]
fn white_space_is_the_listed_set_for_every_character() {
    for c in every_char() {
        assert_eq!(json5::char::is_json5_whitespace(c), is_white_space(c), "{:?}", c);
    }
}

#[test]
fn line_terminators_are_four_for_every_character() {
    for c in every_char() {
        let expected = matches!(c, '\u{000A}' | '\u{000D}' | '\u{2028}' | '\u{2029}');
        assert_eq!(json5::char::is_json5_line_terminator(c), expected, "{:?}", c);
    }
}

#[test]
fn every_white_space_character_is_skipped() {
    for c in every_char().filter(|c| is_white_space(*c)) {
        let text = format!("{}[{}]{}", c, c, c);
        assert_eq!(parse(&text, ParseConfig::default()), Ok(Value::Array(vec![])), "{:?}", c);
    }
    assert_eq!(
        parse("\u{200B}1", ParseConfig::default()),
        Err(Error::Parse { fault: Fault::ExpectedValue, offset: 0 })
    );
}

#[test]
fn ascii_identifier_characters_are_letters_digits_dollar_and_underscore() {
    for b in 0u8..128 {
        let c = b as char;
        let start = c.is_ascii_alphabetic() || c == '$' || c == '_';
        let part = start || c.is_ascii_digit();
        assert_eq!(json5::char::is_json5_identifier_start(c), start, "{:?}", c);
        assert_eq!(json5::char::is_json5_identifier(c), part, "{:?}", c);
    }
}

#[test]
fn keys_follow_the_identifier_classes() {
    let keys = |text: &str| -> Vec<String> {
        match parse(text, ParseConfig::default()) {
            Ok(Value::Object(entries)) => entries.into_iter().map(|(k, _)| k).collect(),
            other => panic!("no object: {:?}", other),
        }
    };
    assert_eq!(keys("{\u{00E9}t\u{00E9}: 1}"), vec!["\u{00E9}t\u{00E9}"]);
    assert_eq!(keys("{a\u{200C}b: 1}"), vec!["a\u{200C}b"]);
    assert_eq!(keys("{\u{3042}\u{0301}9: 1}"), vec!["\u{3042}\u{0301}9"]);
    assert_eq!(
        parse("{\u{0301}a: 1}", ParseConfig::default()),
        Err(Error::Parse { fault: Fault::ExpectedKey, offset: 1 })
    );
    assert_eq!(
        parse("{\\u0031a: 1}", ParseConfig::default()),
        Err(Error::Parse { fault: Fault::ExpectedKey, offset: 1 })
    );
    assert_eq!(
        parse("{a\\x41: 1}", ParseConfig::default()),
        Err(Error::Parse { fault: Fault::InvalidEscape, offset: 2 })
    );
    assert_eq!(
        parse("{abc", ParseConfig::default()),
        Err(Error::Parse { fault: Fault::UnterminatedObject, offset: 4 })
    );
}

#[test]
fn escapes_give_every_scalar_value_and_no_surrogate() {
    for code in [0x0000u32, 0x0041, 0xD7FF, 0xE000, 0xFFFF] {
        let text = format!("'\\u{:04X}'", code);
        let expected = char::from_u32(code).unwrap().to_string();
        assert_eq!(parse(&text, ParseConfig::default()), Ok(Value::String(expected)), "{}", text);
    }
    for code in [0xD800u32, 0xDBFF, 0xDC00, 0xDFFF] {
        let text = format!("'\\u{:04x}'", code);
        assert_eq!(
            parse(&text, ParseConfig::default()),
            Err(Error::Parse { fault: Fault::InvalidEscape, offset: 1 }),
            "{}",
            text
        );
    }
    assert_eq!(
        parse("'\\uDBFF\\uDFFF'", ParseConfig::default()),
        Ok(Value::String("\u{10FFFF}".to_string()))
    );
    assert_eq!(
        parse("'\\uD800\\uDC00'", ParseConfig::default()),
        Ok(Value::String("\u{10000}".to_string()))
    );
    assert_eq!(
        parse("'\\uD800\\u0041'", ParseConfig::default()),
        Err(Error::Parse { fault: Fault::InvalidEscape, offset: 1 })
    );
    assert_eq!(parse("'\\xff'", ParseConfig::default()), Ok(Value::String("\u{FF}".to_string())));
}
