//! Conversion between Roman numerals and decimal numbers inside free text.
//!
//! Words of a text (runs of characters between line breaks, spaces and
//! parentheses) that write a number of `1..=3999` are converted, in one
//! direction or the other; the spaces after a converted word are re-counted
//! so that the text after them keeps its column; everything else is kept as
//! it is.
pub mod convert;
pub mod decimal_text;
pub mod laws;
pub mod numeral;
pub mod roman;
pub mod symbols;
pub mod text;
pub mod tokenize;

pub use convert::{convert, ConvertMode};
pub use numeral::tokens;
pub use roman::{Decimal, ParseDecimalError, ParseRomanError, Roman};
pub use symbols::next_symbol;
pub use tokenize::tokenize;
