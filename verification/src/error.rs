//! Decimal error definitions.

use vstd::prelude::*;

verus! {

/// An error which can be returned when parsing a decimal.
#[derive(Debug, Clone, PartialEq, Eq, Structural)]
pub enum DecimalParseError {
    /// Empty string.
    Empty,
    /// Invalid decimal.
    Invalid,
    /// Decimal is overflowed.
    Overflow,
    /// Decimal is underflow.
    Underflow,
}

impl DecimalParseError {
    /// The text of this error.
    pub open spec fn spec_message(self) -> Seq<char> {
        match self {
            DecimalParseError::Empty => "cannot parse number from empty string"@,
            DecimalParseError::Invalid => "invalid number"@,
            DecimalParseError::Overflow => "numeric overflow"@,
            DecimalParseError::Underflow => "numeric underflow"@,
        }
    }

    /// Describes this error.
    pub fn message(&self) -> (r: &'static str)
        ensures
            r@ == self.spec_message(),
    {
        match self {
            DecimalParseError::Empty => "cannot parse number from empty string",
            DecimalParseError::Invalid => "invalid number",
            DecimalParseError::Overflow => "numeric overflow",
            DecimalParseError::Underflow => "numeric underflow",
        }
    }
}

} // verus!
