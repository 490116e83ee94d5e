//! A UTF-8 decoder that tags every codepoint with the byte span it came from
//! and, on malformed input, names the exact byte class that was expected at
//! the first offending byte.

pub mod error;
pub mod laws;
pub mod recognize;
pub mod sequence;

pub use error::{DecodeError, Expected, Span};
pub use recognize::codepoint;
pub use sequence::decoder;
