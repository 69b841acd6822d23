//! Binary property lists (`bplist00`): parser and serializer.
//!
//! A binary plist is a random-access file with four sections: an 8-byte
//! header `bplist00`, the objects, an offset table giving where each object
//! starts, and a 32-byte trailer giving the sizes used and where the offset
//! table and the root object are.

pub mod layout;
pub mod parser;
pub mod roundtrip;
pub mod writer;

pub use parser::{parse, ParseError};
pub use writer::WriteError;
