//! XML property lists: ISO 8601 dates, the writer, the parser, and reading
//! back what the writer writes.

pub mod date;
pub mod parser;
pub mod roundtrip;
pub mod writer;
