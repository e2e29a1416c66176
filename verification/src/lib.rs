//! Lexical front end for TeX-style input: classifies raw text into a stream
//! of category-coded tokens, following the catcode conventions, with a
//! line-oriented cursor, `^^` raw-character notation, control-sequence
//! scanning, and the new-line / mid-line / skip-blanks whitespace machine.
//!
//! The lexer works on bytes, in the classic eight-bit fashion: the catcode
//! table has one entry per byte value, and token ranges are byte intervals
//! into the raw input.

pub mod catcode;
pub mod cursor;
pub mod laws;
pub mod lexer;
pub mod token;
