use json5_backend::radix::{hex_digit, hex_to_decimal};
use json5_backend::text::to_chars;

fn decimal_of(hex: &str) -> Option<String> {
    let chars: Vec<char> = hex.chars().collect();
    hex_to_decimal(&chars).map(|digits| digits.iter().map(|d| (b'0' + d) as char).collect())
}

#[test]
fn hexadecimal_digits_are_written_in_decimal_digits() {
    assert_eq!(decimal_of("0").as_deref(), Some("0"));
    assert_eq!(decimal_of("").as_deref(), Some("0"));
    assert_eq!(decimal_of("000").as_deref(), Some("0"));
    assert_eq!(decimal_of("a").as_deref(), Some("10"));
    assert_eq!(decimal_of("F").as_deref(), Some("15"));
    assert_eq!(decimal_of("10").as_deref(), Some("16"));
    assert_eq!(decimal_of("00ff").as_deref(), Some("255"));
    assert_eq!(decimal_of("DeCaF").as_deref(), Some("912559"));
    assert_eq!(decimal_of("ffffffffffffffff").as_deref(), Some("18446744073709551615"));
    assert_eq!(
        decimal_of("100000000000000000000000000000000").as_deref(),
        Some("340282366920938463463374607431768211456")
    );
}

#[test]
fn what_is_no_hexadecimal_digit_has_no_decimal() {
    assert_eq!(decimal_of("g"), None);
    assert_eq!(decimal_of("12x4"), None);
    assert_eq!(decimal_of("-1"), None);
    assert_eq!(decimal_of("\u{0661}"), None);
}

#[test]
fn ten_thousand_hexadecimal_digits_agree_with_the_powers_of_sixteen() {
    let mut hex = String::from("1");
    let mut expected = vec![1u8];
    for _ in 0..2_000 {
        hex.push('0');
        let mut carry = 0u32;
        for digit in expected.iter_mut().rev() {
            let t = u32::from(*digit) * 16 + carry;
            *digit = (t % 10) as u8;
            carry = t / 10;
        }
        while carry > 0 {
            expected.insert(0, (carry % 10) as u8);
            carry /= 10;
        }
    }
    let chars: Vec<char> = hex.chars().collect();
    assert_eq!(hex_to_decimal(&chars), Some(expected));
}

#[test]
fn each_hexadecimal_digit_has_its_number() {
    for (i, c) in "0123456789abcdef".chars().enumerate() {
        assert_eq!(hex_digit(c), Some(i as u32));
        assert_eq!(hex_digit(c.to_ascii_uppercase()), Some(i as u32));
    }
    for c in ['g', 'G', ' ', '/', ':', '@', '`', '\u{FF11}'] {
        assert_eq!(hex_digit(c), None);
    }
}

#[test]
fn to_chars_gives_the_characters() {
    assert_eq!(to_chars(""), Vec::<char>::new());
    assert_eq!(to_chars("a\u{e9}\u{1F600}"), vec!['a', '\u{e9}', '\u{1F600}']);
}
