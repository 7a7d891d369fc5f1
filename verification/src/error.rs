//! The two ways in which a call can fail.

use vstd::prelude::*;
use vstd::string::StringExecFns;

verus! {

/// What the parser found wrong with a JSON5 text.
#[derive(Clone, Copy, Debug, PartialEq, Eq, Structural)]
pub enum Fault {
    /// The text ends inside a block comment.
    UnterminatedComment,
    /// A `/` that starts neither `//` nor `/*`.
    ExpectedComment,
    /// The text ends where a value must start.
    MissingValue,
    /// A character that starts no value.
    ExpectedValue,
    /// A word that starts like `null`, `true` or `false` and is none of them.
    InvalidLiteral,
    /// A numeric literal that the JSON5 grammar does not admit.
    InvalidNumber,
    /// `Infinity` or `NaN`, which no decimal represents.
    NonFiniteNumber,
    /// The text ends inside a string.
    UnterminatedString,
    /// A line feed or carriage return inside a string.
    LineBreakInString,
    /// A backslash followed by something that is no escape sequence.
    InvalidEscape,
    /// A character that cannot stand in an unquoted key.
    ExpectedKey,
    /// Something other than `:` after a key.
    ExpectedColon,
    /// Something other than `,` or the closing bracket after a member.
    ExpectedComma,
    /// The text ends inside an array.
    UnterminatedArray,
    /// The text ends inside an object.
    UnterminatedObject,
    /// Characters after the value.
    TrailingCharacters,
}

/// Why a call failed.
#[derive(Clone, Copy, Debug, PartialEq, Eq, Structural)]
pub enum Error {
    /// The text is not JSON5: what is wrong, and the index of the character
    /// at which it was noticed.
    Parse { fault: Fault, offset: usize },
    /// A numeric text that is no decimal, or whose exponent is out of range.
    InvalidDecimal,
}

impl Fault {
    /// What is wrong, in words.
    pub open spec fn text(self) -> Seq<char> {
        match self {
            Fault::UnterminatedComment => "unterminated comment"@,
            Fault::ExpectedComment => "expected a comment"@,
            Fault::MissingValue => "expected a value, found the end of the text"@,
            Fault::ExpectedValue => "expected a value"@,
            Fault::InvalidLiteral => "expected null, true or false"@,
            Fault::InvalidNumber => "invalid number"@,
            Fault::NonFiniteNumber => "Infinity and NaN have no decimal"@,
            Fault::UnterminatedString => "unterminated string"@,
            Fault::LineBreakInString => "line break in a string"@,
            Fault::InvalidEscape => "invalid escape sequence"@,
            Fault::ExpectedKey => "expected a key"@,
            Fault::ExpectedColon => "expected a colon"@,
            Fault::ExpectedComma => "expected a comma or a closing bracket"@,
            Fault::UnterminatedArray => "unterminated array"@,
            Fault::UnterminatedObject => "unterminated object"@,
            Fault::TrailingCharacters => "trailing characters"@,
        }
    }

    /// What is wrong, in words.
    pub fn describe(&self) -> (r: &'static str)
        ensures
            r@ == self.text(),
    {
        match self {
            Fault::UnterminatedComment => "unterminated comment",
            Fault::ExpectedComment => "expected a comment",
            Fault::MissingValue => "expected a value, found the end of the text",
            Fault::ExpectedValue => "expected a value",
            Fault::InvalidLiteral => "expected null, true or false",
            Fault::InvalidNumber => "invalid number",
            Fault::NonFiniteNumber => "Infinity and NaN have no decimal",
            Fault::UnterminatedString => "unterminated string",
            Fault::LineBreakInString => "line break in a string",
            Fault::InvalidEscape => "invalid escape sequence",
            Fault::ExpectedKey => "expected a key",
            Fault::ExpectedColon => "expected a colon",
            Fault::ExpectedComma => "expected a comma or a closing bracket",
            Fault::UnterminatedArray => "unterminated array",
            Fault::UnterminatedObject => "unterminated object",
            Fault::TrailingCharacters => "trailing characters",
        }
    }
}

/// The character of the decimal digit `d`.
pub open spec fn digit_char(d: int) -> char {
    ('0' as int + d) as char
}

/// The number `n` written in decimal digits.
pub open spec fn decimal_text(n: nat) -> Seq<char>
    decreases n,
{
    if n < 10 {
        seq![digit_char(n as int)]
    } else {
        decimal_text(n / 10).push(digit_char((n % 10) as int))
    }
}

/// Appends the number `n`, written in decimal digits, to `out`.
fn push_decimal(n: usize, out: &mut String)
    ensures
        final(out)@ == old(out)@ + decimal_text(n as nat),
    decreases n,
{
    if n >= 10 {
        push_decimal(n / 10, out);
    }
    let digit = (n % 10) as u8;
    out.push((48u8 + digit) as char);
    assert(final(out)@ =~= old(out)@ + decimal_text(n as nat));
}

/// The mathematical content of an `Error`.
pub enum Failure {
    Parse { fault: Fault, at: int },
    InvalidDecimal,
}

impl Failure {
    /// The failure in words: what is wrong and, for a text that is not
    /// JSON5, the index of the character at which it was noticed.
    pub open spec fn message(self) -> Seq<char> {
        match self {
            Failure::Parse { fault, at } => fault.text() + " at character "@ + decimal_text(
                at as nat,
            ),
            Failure::InvalidDecimal => "Invalid decimal"@,
        }
    }
}

impl Error {
    /// The error in words.
    pub fn message(&self) -> (r: String)
        ensures
            r@ == self@.message(),
    {
        match self {
            Error::Parse { fault, offset } => {
                let mut text = String::from_str(fault.describe());
                text.append(" at character ");
                push_decimal(*offset, &mut text);
                text
            },
            Error::InvalidDecimal => String::from_str("Invalid decimal"),
        }
    }
}

impl View for Error {
    type V = Failure;

    open spec fn view(&self) -> Failure {
        match self {
            Error::Parse { fault, offset } => Failure::Parse { fault: *fault, at: *offset as int },
            Error::InvalidDecimal => Failure::InvalidDecimal,
        }
    }
}

} // verus!
