//! Turns relaxed, JSON-like text (unquoted keys, single-quoted strings, free
//! whitespace) into strict, minified JSON, and splits such text into literal
//! runs and named placeholders that are filled in later.

/// The mathematical model of the scanner: byte classes, tokens, scans.
pub mod scan;
/// The ways the operations fail.
pub mod error;
/// The executable sanitizer, fragmenter and assembler.
pub mod parse;
/// Laws that relate the operations of the library.
pub mod laws;
