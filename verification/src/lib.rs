//! A verified positional-extraction engine in the style of `cut`, together
//! with a handful of small text utilities.
//!
//! The core is a parser that turns a comma-separated list of 1-based
//! positions and ranges into zero-based half-open index ranges, and three
//! extraction modes (bytes, characters, delimited fields) that apply those
//! ranges to input units with clamping at the unit's length.

pub mod count;
pub mod extract;
pub mod numbers;
pub mod ranges;

pub use count::count;
pub use count::FileInfo;
pub use extract::extract_bytes;
pub use extract::extract_chars;
pub use extract::extract_fields;
pub use extract::Extract;
pub use numbers::parse_positive_int;
pub use ranges::is_numeric;
pub use ranges::parse_pos;
pub use ranges::ParseError;
pub use ranges::PosRange;
pub use ranges::PositionList;
