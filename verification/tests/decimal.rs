use bigdecimal::num_bigint::BigInt;
use bigdecimal::BigDecimal;
use json5_backend::decimal::{Decimal, NumberSign};
use json5_backend::error::Error;
use json5_backend::literal::{is_decimal_literal, make_decimal, normalize};

fn digits(text: &str) -> Vec<u8> {
    text.bytes().map(|b| b - b'0').collect()
}

fn written(digits: &[u8]) -> String {
    digits.iter().map(|d| (b'0' + d) as char).collect()
}

fn triple(text: &str) -> (i8, Vec<u8>, i64) {
    let d = make_decimal(text).unwrap();
    (d.sign(), d.coefficient().clone(), d.exponent())
}

fn parts(d: &Decimal) -> (i8, Vec<u8>, i64) {
    (d.sign(), d.coefficient().clone(), d.exponent())
}

/// The number of a decimal, computed by another route.
fn number(d: &Decimal) -> BigDecimal {
    let coefficient: BigInt = written(d.coefficient()).parse().unwrap();
    BigDecimal::new(coefficient * BigInt::from(d.sign()), -d.exponent())
}

#[test]
fn make_decimal_keeps_trailing_zeros_as_scale() {
    assert_eq!(triple("123.450"), (1, digits("123450"), -3));
    assert_eq!(triple("123.45"), (1, digits("12345"), -2));
    let longer = make_decimal("123.450").unwrap();
    let shorter = make_decimal("123.45").unwrap();
    assert_eq!(longer, shorter);
    assert_eq!(number(&longer), number(&shorter));
    assert_eq!(number(&longer), "123.45".parse::<BigDecimal>().unwrap());
}

#[test]
fn decimals_are_equal_where_their_numbers_are() {
    let equal = [
        ("1.50", "1.5"),
        ("0", "-0.000"),
        ("0e5", "0e-5"),
        ("1e2", "100"),
        ("100", "1.00e2"),
        ("-12.5", "-1250e-2"),
        ("1e9223372036854775807", "10e9223372036854775806"),
        ("1e-9223372036854775807", "0.1e-9223372036854775806"),
        ("120", "120"),
        ("0.000", "0"),
    ];
    for (a, b) in equal {
        let (x, y) = (make_decimal(a).unwrap(), make_decimal(b).unwrap());
        assert!(x == y && y == x, "{} {}", a, b);
        assert_eq!(number(&x), number(&y), "{} {}", a, b);
    }
    let different = [
        ("1", "-1"),
        ("1.5", "1.05"),
        ("1", "10"),
        ("1e1", "1e2"),
        ("0", "1"),
        ("-1", "0"),
        ("12", "13"),
        ("120", "12"),
        ("123", "1230e1"),
        ("1e9223372036854775807", "1e-9223372036854775807"),
        ("100", "1000"),
    ];
    for (a, b) in different {
        let (x, y) = (make_decimal(a).unwrap(), make_decimal(b).unwrap());
        assert!(x != y && y != x, "{} {}", a, b);
    }
}

#[test]
fn make_decimal_rejects_words() {
    assert_eq!(make_decimal("abc"), Err(Error::InvalidDecimal));
}

#[test]
fn make_decimal_rejects_what_is_no_decimal_literal() {
    for text in [
        "", " ", ".", "-", "+", "e5", "1e", "1e+", "1.2.3", "1 ", " 1", "0x10", "1_000", "--1",
        ".-5", "1.-5", "1..", "Infinity", "NaN", "1e5.0", "1,5", "\u{0661}",
    ] {
        assert_eq!(make_decimal(text), Err(Error::InvalidDecimal), "{:?}", text);
    }
}

#[test]
fn make_decimal_reads_every_shape_of_literal() {
    assert_eq!(triple("0"), (1, digits("0"), 0));
    assert_eq!(triple("-0"), (1, digits("0"), 0));
    assert_eq!(triple("-0.00"), (1, digits("0"), -2));
    assert_eq!(triple("+7"), (1, digits("7"), 0));
    assert_eq!(triple("-7"), (-1, digits("7"), 0));
    assert_eq!(triple("007"), (1, digits("7"), 0));
    assert_eq!(triple(".5"), (1, digits("5"), -1));
    assert_eq!(triple("5."), (1, digits("5"), 0));
    assert_eq!(triple("-.5"), (-1, digits("5"), -1));
    assert_eq!(triple("1e3"), (1, digits("1"), 3));
    assert_eq!(triple("1E-3"), (1, digits("1"), -3));
    assert_eq!(triple("1.5e+3"), (1, digits("15"), 2));
    assert_eq!(triple("12.e1"), (1, digits("12"), 1));
    assert_eq!(triple("0.000000000000001"), (1, digits("1"), -15));
    assert_eq!(triple("1e-0005"), (1, digits("1"), -5));
}

#[test]
fn make_decimal_keeps_every_digit_of_a_long_literal() {
    let integer = "12345678901234567890123456789012345678901234567890";
    assert_eq!(triple(integer), (1, digits(integer), 0));
    let fraction = format!("-0.{}", integer);
    assert_eq!(triple(&fraction), (-1, digits(integer), -50));
    let long: String = std::iter::repeat("9876543210").take(500).collect();
    assert_eq!(triple(&long), (1, digits(&long), 0));
}

#[test]
fn make_decimal_bounds_the_exponent() {
    assert_eq!(triple("1e9223372036854775807"), (1, digits("1"), i64::MAX));
    assert_eq!(triple("1e-9223372036854775807"), (1, digits("1"), -i64::MAX));
    assert_eq!(triple("1.5e-9223372036854775806"), (1, digits("15"), -i64::MAX));
    assert_eq!(make_decimal("1e9223372036854775808"), Err(Error::InvalidDecimal));
    assert_eq!(make_decimal("1e-9223372036854775808"), Err(Error::InvalidDecimal));
    assert_eq!(make_decimal("1.5e-9223372036854775807"), Err(Error::InvalidDecimal));
    assert_eq!(
        make_decimal("1e999999999999999999999999999999999999999999999999"),
        Err(Error::InvalidDecimal)
    );
    assert_eq!(triple("10e9223372036854775807"), (1, digits("10"), i64::MAX));
}

#[test]
fn the_decimal_of_a_literal_is_the_number_it_writes() {
    for text in ["123.450", "-0.0001", "5e10", "-12.5E-7", "0", "1e-20", "99999999999999999999.5"] {
        let decimal = make_decimal(text).unwrap();
        assert_eq!(number(&decimal), text.parse::<BigDecimal>().unwrap(), "{}", text);
    }
}

#[test]
fn normalize_agrees_with_make_decimal() {
    let chars: Vec<char> = "-12.50e3".chars().collect();
    assert!(is_decimal_literal(&chars));
    assert_eq!(normalize(&chars), make_decimal("-12.50e3"));
    assert_eq!(parts(&normalize(&chars).unwrap()), (-1, digits("1250"), 1));
    let bad: Vec<char> = "12a".chars().collect();
    assert!(!is_decimal_literal(&bad));
    assert_eq!(normalize(&bad), Err(Error::InvalidDecimal));
}

#[test]
fn from_int_has_exponent_zero() {
    assert_eq!(parts(&Decimal::from_int(-42)), (-1, digits("42"), 0));
    assert_eq!(parts(&Decimal::from_int(0)), (1, digits("0"), 0));
    assert_eq!(parts(&Decimal::from_int(7)), (1, digits("7"), 0));
    assert_eq!(parts(&Decimal::from_int(10)), (1, digits("10"), 0));
    assert_eq!(parts(&Decimal::from_int(i64::MAX)), (1, digits("9223372036854775807"), 0));
    assert_eq!(parts(&Decimal::from_int(i64::MIN)), (-1, digits("9223372036854775808"), 0));
    assert_eq!(Decimal::from_int(1250), make_decimal("1250").unwrap());
}

#[test]
fn from_parts_negates_the_scale_and_gives_zero_the_sign_one() {
    let d = Decimal::from_parts(NumberSign::Minus, digits("12345"), 2).unwrap();
    assert_eq!(parts(&d), (-1, digits("12345"), -2));
    let d = Decimal::from_parts(NumberSign::Plus, digits("12345"), -2).unwrap();
    assert_eq!(parts(&d), (1, digits("12345"), 2));
    let d = Decimal::from_parts(NumberSign::NoSign, digits("0"), 3).unwrap();
    assert_eq!(parts(&d), (1, digits("0"), -3));
    let d = Decimal::from_parts(NumberSign::Minus, digits("0"), 0).unwrap();
    assert_eq!(parts(&d), (1, digits("0"), 0));
    let d = Decimal::from_parts(NumberSign::NoSign, digits("5"), i64::MAX).unwrap();
    assert_eq!(parts(&d), (1, digits("5"), -i64::MAX));
}

#[test]
fn from_parts_refuses_what_it_cannot_hold() {
    assert_eq!(
        Decimal::from_parts(NumberSign::Plus, digits("5"), i64::MIN),
        Err(Error::InvalidDecimal)
    );
    assert_eq!(Decimal::from_parts(NumberSign::Plus, vec![], 0), Err(Error::InvalidDecimal));
    assert_eq!(Decimal::from_parts(NumberSign::Plus, vec![0, 5], 0), Err(Error::InvalidDecimal));
    assert_eq!(Decimal::from_parts(NumberSign::Plus, vec![1, 10], 0), Err(Error::InvalidDecimal));
}

#[test]
fn a_clone_is_equal() {
    let d = make_decimal("-12.50").unwrap();
    assert_eq!(d.clone(), d);
}
