//! JSON5 parsing into a value tree whose numbers are exact decimals.
//!
//! `parse` reads a JSON5 text into a `Value`; `make_decimal` reads one
//! number. A number is a `Decimal`: a sign, a coefficient of any length and a
//! power of ten, with no rounding anywhere. The module `grammar` says what a
//! text holds, `parser` reads it in one loop without recursion, and `laws`
//! states what holds of the whole.

pub mod bounds;
pub mod decimal;
pub mod digits;
pub mod error;
pub mod grammar;
pub mod json;
pub mod laws;
mod lexer;
pub mod literal;
pub mod parser;
pub mod radix;
pub mod text;
pub mod value;

pub use decimal::Decimal;
pub use error::{Error, Fault};
pub use literal::make_decimal;
pub use parser::{parse, ParseConfig};
pub use value::Value;
