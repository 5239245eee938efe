//! Conversion of binary data between encodings: raw bytes, binary-digit
//! text, octal text and hexadecimal text.
//!
//! A registry holds the direct conversions between pairs of formats, a
//! router finds the cheapest chain of them between any two formats, and a
//! composer runs the chain as one converter. A formatted sink puts spaces
//! and line breaks into what comes out.

pub mod builtins;
pub mod convert;
pub mod digits;
pub mod error;
pub mod format;
pub mod laws;
pub mod route;
pub mod text;
pub mod trusted;
pub mod utils;
