//! Rendering of raw cell values (numbers or text) into human-readable strings
//! according to Excel-style custom number-format codes such as `#,##0.00`,
//! `0.00;(0.00);"-"` or `\{###\}`.
//!
//! A format code is split into up to four semicolon-delimited sections, each
//! tokenized into a sequence of [`token::Token`]s.  A value's sign class
//! (positive, negative, zero, or text) picks the governing section, whose
//! tokens are then rendered: literal text verbatim, digit placeholders through
//! the exact decimal number renderer.
//!
//! Numbers are carried as exact decimal digit strings ([`value::Decimal`]),
//! so rounding (half away from zero) and thousands grouping are proved
//! correct over the mathematical value of the digits.

pub mod digits;
pub mod engine;
pub mod error;
pub mod number;
pub mod parser;
pub mod render;
pub mod selector;
pub mod sheets;
pub mod text;
pub mod token;
pub mod value;
