//! Parser for the Netscape/Mozilla `cookies.txt` cookie-export format.
//!
//! The text is scanned line by line: comment and blank lines are skipped,
//! every other line is split on runs of whitespace into seven fields and
//! turned into a cookie record, and the records are collected into a
//! `cookie::CookieJar`, later lines overwriting earlier ones of the same
//! name.

pub mod model;
pub mod scan;
pub mod record;
pub mod jar;
pub mod parser;
pub mod laws;

pub use parser::Parser;
pub use record::CookieRecord;
