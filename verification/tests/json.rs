use json5_backend::decimal::Decimal;
use json5_backend::literal::make_decimal;
use json5_backend::parser::{parse, ParseConfig};
use json5_backend::value::Value;

fn whole(n: i64) -> Value {
    Value::Number(Decimal::from_int(n))
}

fn text(s: &str) -> Value {
    Value::String(s.to_string())
}

#[test]
fn a_json_text_holds_what_json_says() {
    let source = r#"
        {
            "name": "café \"x\" \\ \/ \b\f\n\r\t",
            "pair": "😀",
            "list": [1, -2, 3.50, 1e3, -0.0, 0],
            "nested": {"a": [], "b": {}, "c": [[], [{}]]},
            "flags": [true, false, null],
            "name2": ""
        }
    "#;
    let expected = Value::Object(vec![
        ("name".to_string(), text("caf\u{e9} \"x\" \\ / \u{8}\u{c}\n\r\t")),
        ("pair".to_string(), text("\u{1F600}")),
        (
            "list".to_string(),
            Value::Array(vec![
                whole(1),
                whole(-2),
                Value::Number(make_decimal("3.50").unwrap()),
                Value::Number(make_decimal("1e3").unwrap()),
                Value::Number(make_decimal("-0.0").unwrap()),
                whole(0),
            ]),
        ),
        (
            "nested".to_string(),
            Value::Object(vec![
                ("a".to_string(), Value::Array(vec![])),
                ("b".to_string(), Value::Object(vec![])),
                (
                    "c".to_string(),
                    Value::Array(vec![
                        Value::Array(vec![]),
                        Value::Array(vec![Value::Object(vec![])]),
                    ]),
                ),
            ]),
        ),
        (
            "flags".to_string(),
            Value::Array(vec![Value::Bool(true), Value::Bool(false), Value::Null]),
        ),
        ("name2".to_string(), text("")),
    ]);
    assert_eq!(parse(source, ParseConfig::default()), Ok(expected));
}

#[test]
fn json_scalars_stand_alone() {
    assert_eq!(parse("\t\r\n 42 \n", ParseConfig::default()), Ok(whole(42)));
    assert_eq!(parse("\"\"", ParseConfig::default()), Ok(text("")));
    assert_eq!(parse("-0", ParseConfig::default()), Ok(whole(0)));
    assert_eq!(parse("\"\u{7f}\u{2028}\"", ParseConfig::default()), Ok(text("\u{7f}\u{2028}")));
}

#[test]
fn the_options_change_nothing() {
    let config = ParseConfig {
        options: vec![
            ("strict".to_string(), "true".to_string()),
            ("depth".to_string(), "1".to_string()),
        ],
    };
    assert_eq!(
        parse("[[1], // one\n]", config),
        Ok(Value::Array(vec![Value::Array(vec![whole(1)])]))
    );
    assert_eq!(ParseConfig::default(), ParseConfig { options: vec![] });
}
