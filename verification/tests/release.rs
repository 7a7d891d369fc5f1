use json5_backend::error::{Error, Fault};
use json5_backend::parser::{parse, ParseConfig};
use json5_backend::value::Value;

fn nested(open: &str, close: &str, depth: usize) -> String {
    let mut text = String::new();
    for _ in 0..depth {
        text.push_str(open);
    }
    for _ in 0..depth {
        text.push_str(close);
    }
    text
}

#[test]
fn a_deep_tree_is_released_without_a_deep_stack() {
    let depth = 200_000;
    let value = parse(&nested("[", "]", depth), ParseConfig::default()).unwrap();
    value.dispose();
    let value = parse(&nested("{a:", "}", depth).replace(":}", ":1}"), ParseConfig::default())
        .unwrap();
    value.dispose();
}

#[test]
fn a_deep_tree_before_a_fault_is_released_without_a_deep_stack() {
    let depth = 200_000;
    let text = format!("{} x", nested("[", "]", depth));
    assert_eq!(
        parse(&text, ParseConfig::default()),
        Err(Error::Parse { fault: Fault::TrailingCharacters, offset: 2 * depth + 1 })
    );
    let text = format!("[{}, @", nested("[", "]", depth));
    assert_eq!(
        parse(&text, ParseConfig::default()),
        Err(Error::Parse { fault: Fault::ExpectedValue, offset: 2 * depth + 3 })
    );
    let text = format!("{{a: {}, a: 1, b: {} /*", nested("[", "]", depth), nested("[", "]", depth));
    assert_eq!(
        parse(&text, ParseConfig::default()),
        Err(Error::Parse { fault: Fault::UnterminatedComment, offset: text.chars().count() })
    );
}

#[test]
fn a_replaced_deep_member_is_released_without_a_deep_stack() {
    let depth = 200_000;
    let text = format!("{{a: {}, a: 1}}", nested("[", "]", depth));
    let value = parse(&text, ParseConfig::default()).unwrap();
    match value {
        Value::Object(entries) => assert_eq!(entries.len(), 1),
        other => panic!("no object: {:?}", other),
    }
}

#[test]
fn dispose_takes_any_value() {
    Value::Null.dispose();
    parse("{a: [1, {b: 'c'}, [[]]], d: null}", ParseConfig::default()).unwrap().dispose();
}
