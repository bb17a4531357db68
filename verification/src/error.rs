//! The one error of the library, and the texts it carries.

use vstd::prelude::*;
use vstd::string::*;
use crate::text::{decimal_text, hex_byte_text, push_decimal, push_hex_byte};

verus! {

/// What went wrong while reading or writing a message.
#[derive(Debug, PartialEq)]
pub enum RS8583Error {
    ParseError { error: String },
}

impl RS8583Error {
    /// The text that the error carries.
    pub open spec fn message(self) -> Seq<char> {
        self->error@
    }

    /// An error that carries `error` as its text.
    pub fn parse_error(error: &str) -> (e: Self)
        ensures
            e.message() == error@,
    {
        RS8583Error::ParseError { error: String::from_str(error) }
    }

    /// The error as one line of text, for display.
    pub fn to_string(&self) -> (s: String)
        ensures
            s@ == "ISO8583 parse error: "@ + self.message(),
    {
        let mut s = String::from_str("ISO8583 parse error: ");
        match self {
            RS8583Error::ParseError { error } => {
                s.append(error.as_str());
            },
        }
        s
    }
}

/// Fewer than four bytes were left for the message type indicator.
pub open spec fn truncated_mti_text() -> Seq<char> {
    "Truncated MTI"@
}

/// Fewer than eight bytes were left for a bitmap chunk that had to follow.
pub open spec fn truncated_bitmap_text() -> Seq<char> {
    "Truncated bitmap"@
}

/// A length prefix of `need` bytes was due and only `have` were left.
pub open spec fn prefix_short_text(need: nat, have: nat) -> Seq<char> {
    "Unable to read length prefix ("@ + decimal_text(need) + " chars needed, "@ + decimal_text(
        have,
    ) + " available)"@
}

/// The byte `b` of a length prefix is no digit of the codec.
pub open spec fn length_byte_text(b: u8) -> Seq<char> {
    "Length byte out of range: 0x"@ + hex_byte_text(b)
}

/// A length prefix gave `got`, more than the `max` of its field.
pub open spec fn over_max_text(got: nat, max: nat) -> Seq<char> {
    "Variable length field over max length ("@ + decimal_text(got) + " > "@ + decimal_text(max)
        + ")"@
}

/// The length `n` does not fit the single byte of a binary prefix.
pub open spec fn length_range_text(n: nat) -> Seq<char> {
    "Length out of range: "@ + decimal_text(n)
}

/// The payload of a fixed field has another length than its schema gives.
pub open spec fn field_length_text() -> Seq<char> {
    "Invalid field length"@
}

/// Fewer bytes were left than the payload of a field takes.
pub open spec fn truncated_field_text() -> Seq<char> {
    "Truncated field"@
}

pub(crate) fn truncated_mti() -> (e: RS8583Error)
    ensures
        e.message() == truncated_mti_text(),
{
    RS8583Error::parse_error("Truncated MTI")
}

pub(crate) fn truncated_bitmap() -> (e: RS8583Error)
    ensures
        e.message() == truncated_bitmap_text(),
{
    RS8583Error::parse_error("Truncated bitmap")
}

pub(crate) fn prefix_short(need: usize, have: usize) -> (e: RS8583Error)
    ensures
        e.message() == prefix_short_text(need as nat, have as nat),
{
    let mut s = String::from_str("Unable to read length prefix (");
    push_decimal(&mut s, need);
    s.append(" chars needed, ");
    push_decimal(&mut s, have);
    s.append(" available)");
    RS8583Error::parse_error(s.as_str())
}

pub(crate) fn length_byte(b: u8) -> (e: RS8583Error)
    ensures
        e.message() == length_byte_text(b),
{
    let mut s = String::from_str("Length byte out of range: 0x");
    push_hex_byte(&mut s, b);
    RS8583Error::parse_error(s.as_str())
}

pub(crate) fn over_max(got: usize, max: usize) -> (e: RS8583Error)
    ensures
        e.message() == over_max_text(got as nat, max as nat),
{
    let mut s = String::from_str("Variable length field over max length (");
    push_decimal(&mut s, got);
    s.append(" > ");
    push_decimal(&mut s, max);
    s.append(")");
    RS8583Error::parse_error(s.as_str())
}

pub(crate) fn length_range(n: usize) -> (e: RS8583Error)
    ensures
        e.message() == length_range_text(n as nat),
{
    let mut s = String::from_str("Length out of range: ");
    push_decimal(&mut s, n);
    RS8583Error::parse_error(s.as_str())
}

pub(crate) fn field_length() -> (e: RS8583Error)
    ensures
        e.message() == field_length_text(),
{
    RS8583Error::parse_error("Invalid field length")
}

pub(crate) fn truncated_field() -> (e: RS8583Error)
    ensures
        e.message() == truncated_field_text(),
{
    RS8583Error::parse_error("Truncated field")
}

} // verus!
