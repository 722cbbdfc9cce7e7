//! Front end of a minimal expression language: parses identifiers, numeric
//! and array literals, and expressions from raw bytes, tracking the line and
//! column of every token and reporting a structured diagnostic at the first
//! character that cannot be parsed.

pub mod common;
pub mod driver;
pub mod expr;
pub mod printer;
pub mod statement;
pub mod value;
