use json5_backend::decimal::Decimal;
use json5_backend::error::{Error, Fault};
use json5_backend::parser::{parse, ParseConfig};
use json5_backend::value::Value;

fn read(text: &str) -> Result<Value, Error> {
    parse(text, ParseConfig::default())
}

fn number(sign: i8, coefficient: &str, exponent: i64) -> (i8, Vec<u8>, i64) {
    (sign, coefficient.bytes().map(|b| b - b'0').collect(), exponent)
}

fn triple(value: &Value) -> (i8, Vec<u8>, i64) {
    match value {
        Value::Number(d) => (d.sign(), d.coefficient().clone(), d.exponent()),
        other => panic!("not a number: {:?}", other),
    }
}

fn fault(text: &str) -> (Fault, usize) {
    match read(text) {
        Err(Error::Parse { fault, offset }) => (fault, offset),
        other => panic!("no parse error: {:?}", other),
    }
}

#[test]
fn parses_json5_object_with_extensions() {
    let value = read("{a: 1, b: [1,2,3,], /* c */ c: 'x'}").unwrap();
    let entries = match value {
        Value::Object(entries) => entries,
        other => panic!("not an object: {:?}", other),
    };
    let keys: Vec<&str> = entries.iter().map(|(k, _)| k.as_str()).collect();
    assert_eq!(keys, vec!["a", "b", "c"]);
    assert_eq!(entries[0].1, Value::Number(Decimal::from_int(1)));
    assert_eq!(
        entries[1].1,
        Value::Array(vec![
            Value::Number(Decimal::from_int(1)),
            Value::Number(Decimal::from_int(2)),
            Value::Number(Decimal::from_int(3)),
        ])
    );
    assert_eq!(entries[2].1, Value::String("x".to_string()));
}

#[test]
fn open_brace_alone_is_a_parse_error() {
    assert_eq!(fault("{"), (Fault::UnterminatedObject, 1));
}

#[test]
fn parses_scalars() {
    assert_eq!(read("null"), Ok(Value::Null));
    assert_eq!(read(" true "), Ok(Value::Bool(true)));
    assert_eq!(read("false"), Ok(Value::Bool(false)));
    assert_eq!(read("\"a\\nb\""), Ok(Value::String("a\nb".to_string())));
    assert_eq!(read("[]"), Ok(Value::Array(vec![])));
    assert_eq!(read("{}"), Ok(Value::Object(vec![])));
}

#[test]
fn numbers_keep_their_digits() {
    assert_eq!(triple(&read("123.450").unwrap()), number(1, "123450", -3));
    assert_eq!(triple(&read("-0.5e-3").unwrap()), number(-1, "5", -4));
    assert_eq!(triple(&read("+1").unwrap()), number(1, "1", 0));
    assert_eq!(triple(&read(".5").unwrap()), number(1, "5", -1));
    assert_eq!(triple(&read("5.").unwrap()), number(1, "5", 0));
    assert_eq!(triple(&read("-0").unwrap()), number(1, "0", 0));
    assert_eq!(
        triple(&read("12345678901234567890123456789012345678901234567890").unwrap()),
        number(1, "12345678901234567890123456789012345678901234567890", 0)
    );
    assert_eq!(triple(&read("0.000000000000001").unwrap()), number(1, "1", -15));
}

#[test]
fn hexadecimal_integers_are_written_in_decimal() {
    assert_eq!(triple(&read("0xdecaf").unwrap()), number(1, "912559", 0));
    assert_eq!(triple(&read("-0X1F").unwrap()), number(-1, "31", 0));
    assert_eq!(triple(&read("0x0").unwrap()), number(1, "0", 0));
    assert_eq!(
        triple(&read("0xffffffffffffffffffffffffffffffffff").unwrap()),
        number(1, "87112285931760246646623899502532662132735", 0)
    );
    assert_eq!(fault("0x"), (Fault::InvalidNumber, 0));
}

#[test]
fn infinity_and_nan_are_refused() {
    assert_eq!(fault("Infinity"), (Fault::NonFiniteNumber, 0));
    assert_eq!(fault("[-Infinity]"), (Fault::NonFiniteNumber, 1));
    assert_eq!(fault("NaN"), (Fault::NonFiniteNumber, 0));
    assert_eq!(fault("Nan"), (Fault::InvalidNumber, 0));
}

#[test]
fn malformed_numbers_are_refused() {
    assert_eq!(fault("012"), (Fault::InvalidNumber, 0));
    assert_eq!(fault("1.2.3"), (Fault::InvalidNumber, 0));
    assert_eq!(fault("[1e]"), (Fault::InvalidNumber, 1));
    assert_eq!(fault("."), (Fault::InvalidNumber, 0));
    assert_eq!(read("1e9223372036854775808"), Err(Error::InvalidDecimal));
    assert_eq!(
        triple(&read("1e9223372036854775807").unwrap()),
        number(1, "1", 9223372036854775807)
    );
}

#[test]
fn comments_are_white_space() {
    assert_eq!(read("// one\n[ /* two */ ] // three"), Ok(Value::Array(vec![])));
    assert_eq!(fault("/* open"), (Fault::UnterminatedComment, 7));
    assert_eq!(fault("/ 1"), (Fault::ExpectedComment, 0));
}

#[test]
fn strings_take_both_quotes_and_escapes() {
    assert_eq!(read("'it\\'s'"), Ok(Value::String("it's".to_string())));
    assert_eq!(read("\"\\x41\\u0042\\0\""), Ok(Value::String("AB\0".to_string())));
    assert_eq!(read("\"\\uD83D\\uDE00\""), Ok(Value::String("\u{1F600}".to_string())));
    assert_eq!(read("'a\\\nb'"), Ok(Value::String("ab".to_string())));
    assert_eq!(read("'a\\\r\nb'"), Ok(Value::String("ab".to_string())));
    assert_eq!(read("'\\q'"), Ok(Value::String("q".to_string())));
    assert_eq!(fault("'a\nb'"), (Fault::LineBreakInString, 2));
    assert_eq!(fault("'abc"), (Fault::UnterminatedString, 4));
    assert_eq!(fault("'\\uD83D'"), (Fault::InvalidEscape, 1));
    assert_eq!(fault("'\\1'"), (Fault::InvalidEscape, 1));
    assert_eq!(fault("'\\xZ1'"), (Fault::InvalidEscape, 1));
}

#[test]
fn keys_may_be_identifiers() {
    let value = read("{$_a1: 1, \\u0062: 2, 'c d': 3}").unwrap();
    let keys: Vec<String> = match value {
        Value::Object(entries) => entries.into_iter().map(|(k, _)| k).collect(),
        other => panic!("not an object: {:?}", other),
    };
    assert_eq!(keys, vec!["$_a1", "b", "c d"]);
    assert_eq!(fault("{1: 2}"), (Fault::ExpectedKey, 1));
    assert_eq!(fault("{a 1}"), (Fault::ExpectedColon, 3));
    assert_eq!(fault("{a: 1 b: 2}"), (Fault::ExpectedComma, 6));
}

#[test]
fn a_repeated_key_keeps_the_last_value() {
    let value = read("{a: 1, b: 2, a: 3}").unwrap();
    assert_eq!(
        value,
        Value::Object(vec![
            ("a".to_string(), Value::Number(Decimal::from_int(3))),
            ("b".to_string(), Value::Number(Decimal::from_int(2))),
        ])
    );
}

#[test]
fn structure_errors_name_the_place() {
    assert_eq!(fault(""), (Fault::MissingValue, 0));
    assert_eq!(fault("[1, 2"), (Fault::UnterminatedArray, 5));
    assert_eq!(fault("[1 2]"), (Fault::ExpectedComma, 3));
    assert_eq!(fault("[,]"), (Fault::ExpectedValue, 1));
    assert_eq!(fault("nul"), (Fault::InvalidLiteral, 0));
    assert_eq!(fault("1 2"), (Fault::TrailingCharacters, 2));
    assert_eq!(fault("@"), (Fault::ExpectedValue, 0));
}

fn nested(depth: usize) -> String {
    let mut text = String::with_capacity(2 * depth);
    for _ in 0..depth {
        text.push('[');
    }
    for _ in 0..depth {
        text.push(']');
    }
    text
}

#[test]
fn deep_nesting_does_not_use_the_call_stack() {
    let depth = 100_000;
    let mut value = read(&nested(depth)).unwrap();
    let mut seen = 0;
    while let Value::Array(mut items) = value {
        seen += 1;
        match items.pop() {
            Some(inner) => value = inner,
            None => break,
        }
    }
    assert_eq!(seen, depth);
    let open: String = std::iter::repeat('[').take(depth).collect();
    assert_eq!(fault(&open), (Fault::UnterminatedArray, depth));
}
