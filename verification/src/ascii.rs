//! The bytes that the record format and the summary line are made of.

use vstd::prelude::*;

verus! {

/// `;` parts a key from its value.
pub const FIELD_SEPARATOR: u8 = 59;

/// A line feed ends a record.
pub const LINE_SEPARATOR: u8 = 10;

/// `0`, the first of the ten digits.
pub const DIGIT_ZERO: u8 = 48;

/// `9`, the last of the ten digits.
pub const DIGIT_NINE: u8 = 57;

/// `-` opens a negative value.
pub const MINUS: u8 = 45;

/// `+`, a sign that values do not carry.
pub const PLUS: u8 = 43;

/// `.` stands before the fractional digit.
pub const POINT: u8 = 46;

/// `=` stands between a key and its statistics.
pub const EQUALS: u8 = 61;

/// `/` stands between minimum, mean and maximum.
pub const SLASH: u8 = 47;

/// `,` stands between two entries.
pub const COMMA: u8 = 44;

/// `{` opens the summary line.
pub const OPEN_BRACE: u8 = 123;

/// `}` closes the summary line.
pub const CLOSE_BRACE: u8 = 125;

} // verus!
