use json5_backend::parser::{parse, ParseConfig};
use json5_backend::value::Value;
use std::collections::HashMap;

fn string_of(text: &str) -> Option<String> {
    match parse(text, ParseConfig::default()) {
        Ok(Value::String(s)) => Some(s),
        _ => None,
    }
}

fn keys_of(text: &str) -> Option<Vec<String>> {
    match parse(text, ParseConfig::default()) {
        Ok(Value::Object(entries)) => {
            let mut keys: Vec<String> = entries.into_iter().map(|(k, _)| k).collect();
            keys.sort();
            Some(keys)
        }
        _ => None,
    }
}

#[test]
fn strings_are_read_as_the_json5_crate_reads_them() {
    let texts = [
        r#""plain""#,
        r#"'single'"#,
        r#""a\"b""#,
        r#"'a\'b'"#,
        r#""\b\f\n\r\t\v\0""#,
        r#""\x00\x7f\xff""#,
        r#""Aé中""#,
        r#""😀""#,
        r#""\uD83D""#,
        r#""\uDE00\uD83D""#,
        r#""\a\z\/\\""#,
        r#""\1""#,
        r#""\01""#,
        r#""\x4""#,
        r#""\u12""#,
        "\"line\\\nbreak\"",
        "\"line\\\r\nbreak\"",
        "\"line\\\rbreak\"",
        "\"line\\\u{2028}break\"",
        "\"\u{2028}\u{2029}\"",
        "\"a\nb\"",
        "\"a\rb\"",
        r#""open"#,
        r#""tab	inside""#,
        r#"'mixed""#,
        r#""""#,
    ];
    for text in texts {
        assert_eq!(string_of(text), json5::from_str::<String>(text).ok(), "{:?}", text);
    }
}

#[test]
fn keys_are_read_as_the_json5_crate_reads_them() {
    let texts = [
        "{a: 'x'}",
        "{$: 'x', _: 'y', a1: 'z'}",
        "{'quoted key': 'x', \"other\": 'y'}",
        "{\\u0061b: 'x'}",
        "{a\\u0062: 'x'}",
        "{\\u0031: 'x'}",
        "{1a: 'x'}",
        "{a-b: 'x'}",
        "{\u{00E9}: 'x'}",
        "{a\u{200D}b: 'x'}",
        "{null: 'x', true: 'y', Infinity: 'z'}",
        "{a: 'x',}",
        "{,}",
        "{a: 'x',,}",
        "{a 'x'}",
        "{: 'x'}",
        "{a: 'x', a: 'y'}",
        "{}",
        "{ /* c */ a /* d */ : /* e */ 'x' /* f */ }",
    ];
    for text in texts {
        let expected = json5::from_str::<HashMap<String, String>>(text).ok().map(|map| {
            let mut keys: Vec<String> = map.into_keys().collect();
            keys.sort();
            keys
        });
        assert_eq!(keys_of(text), expected, "{:?}", text);
    }
}

#[test]
fn lists_are_read_as_the_json5_crate_reads_them() {
    let texts = [
        "[]",
        "[,]",
        "['a']",
        "['a',]",
        "['a',,]",
        "['a' 'b']",
        "['a', 'b'",
        "[ 'a' , // c\n 'b' ]",
        "['a', /* open",
        "['a'] 'b'",
        " \u{FEFF}\u{00A0}\u{3000}['a']\u{2028}",
        "\u{200B}['a']",
        "/ ['a']",
        "['a'] //",
        "['a'] /**/",
        "['a'] /*/",
    ];
    for text in texts {
        let mine = match parse(text, ParseConfig::default()) {
            Ok(Value::Array(items)) => Some(
                items
                    .into_iter()
                    .map(|item| match item {
                        Value::String(s) => s,
                        other => panic!("no string: {:?}", other),
                    })
                    .collect::<Vec<String>>(),
            ),
            _ => None,
        };
        assert_eq!(mine, json5::from_str::<Vec<String>>(text).ok(), "{:?}", text);
    }
}

#[test]
fn whole_numbers_are_read_as_the_json5_crate_reads_them() {
    let texts = [
        "0", "-0", "+0", "7", "+7", "-7", "0x0", "0xff", "0XFF", "-0x10", "+0x10", "0x", "012",
        "00", "1e3x", "18446744073709551615", "-9223372036854775808", "0xFFFFFFFFFFFFFFFF", "--1",
        "+-1", "1 2",
    ];
    for text in texts {
        let mine = match parse(text, ParseConfig::default()) {
            Ok(Value::Number(d)) if d.exponent() == 0 => {
                let digits: String = d.coefficient().iter().map(|c| (b'0' + c) as char).collect();
                Some(i128::from(d.sign()) * digits.parse::<i128>().unwrap())
            }
            Ok(other) => panic!("no whole number: {:?}", other),
            Err(_) => None,
        };
        assert_eq!(mine, json5::from_str::<i128>(text).ok(), "{:?}", text);
    }
}

#[test]
fn words_are_read_as_the_json5_crate_reads_them() {
    for text in ["true", "false", " true ", "tru", "truex", "True", "false,", "fals"] {
        let mine = match parse(text, ParseConfig::default()) {
            Ok(Value::Bool(b)) => Some(b),
            _ => None,
        };
        assert_eq!(mine, json5::from_str::<bool>(text).ok(), "{:?}", text);
    }
    for text in ["null", " null", "nul", "nulll", "NULL"] {
        let mine = matches!(parse(text, ParseConfig::default()), Ok(Value::Null));
        assert_eq!(mine, json5::from_str::<()>(text).is_ok(), "{:?}", text);
    }
}
