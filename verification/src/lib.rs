//! Apple property lists: the shared value model, the binary `bplist00`
//! format, the XML format, and the logic behind the `plutil` tool.

pub mod bplist;
pub mod display;
pub mod float_bits;
pub mod plutil;
pub mod reals;
pub mod text;
pub mod unicode;
pub mod value;
pub mod xplist;

pub use bplist::{parse, ParseError, WriteError};
pub use value::{SpecValue, Value};

