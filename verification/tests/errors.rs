use json5_backend::error::{Error, Fault};
use json5_backend::literal::make_decimal;
use json5_backend::parser::{parse, ParseConfig};

#[test]
fn an_invalid_decimal_says_so() {
    assert_eq!(make_decimal("abc").unwrap_err().message(), "Invalid decimal");
    assert_eq!(Error::InvalidDecimal.message(), "Invalid decimal");
    assert_eq!(
        parse("[1e9999999999999999999]", ParseConfig::default()).unwrap_err().message(),
        "Invalid decimal"
    );
}

#[test]
fn a_parse_error_names_the_fault_and_the_character() {
    assert_eq!(
        parse("{", ParseConfig::default()).unwrap_err().message(),
        "unterminated object at character 1"
    );
    assert_eq!(
        Error::Parse { fault: Fault::ExpectedValue, offset: 0 }.message(),
        "expected a value at character 0"
    );
    assert_eq!(
        Error::Parse { fault: Fault::TrailingCharacters, offset: 1234567890 }.message(),
        "trailing characters at character 1234567890"
    );
    assert_eq!(
        Error::Parse { fault: Fault::ExpectedComma, offset: usize::MAX }.message(),
        format!("expected a comma or a closing bracket at character {}", usize::MAX)
    );
}

#[test]
fn every_fault_has_words_of_its_own() {
    let faults = [
        Fault::UnterminatedComment,
        Fault::ExpectedComment,
        Fault::MissingValue,
        Fault::ExpectedValue,
        Fault::InvalidLiteral,
        Fault::InvalidNumber,
        Fault::NonFiniteNumber,
        Fault::UnterminatedString,
        Fault::LineBreakInString,
        Fault::InvalidEscape,
        Fault::ExpectedKey,
        Fault::ExpectedColon,
        Fault::ExpectedComma,
        Fault::UnterminatedArray,
        Fault::UnterminatedObject,
        Fault::TrailingCharacters,
    ];
    for (i, a) in faults.iter().enumerate() {
        assert!(!a.describe().is_empty());
        for b in &faults[i + 1..] {
            assert_ne!(a.describe(), b.describe());
        }
    }
}

#[test]
fn offsets_count_characters_not_bytes() {
    assert_eq!(
        parse("['\u{00E9}\u{1F600}' x]", ParseConfig::default()),
        Err(Error::Parse { fault: Fault::ExpectedComma, offset: 6 })
    );
}
