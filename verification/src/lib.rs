//! Fixed-capacity, allocation-free decimal numbers: parsing from text,
//! total-order comparison, and rendering back to canonical text.

mod decimal;
mod error;
mod ops;
mod parse;

pub use crate::decimal::Decimal;
pub use crate::decimal::DecModel;
pub use crate::decimal::Sign;
pub use crate::error::DecimalParseError;
pub use crate::parse::from_str;
