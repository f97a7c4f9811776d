//! GGUF: the file format the model ships in, read from bytes that stay where
//! they are.
//!
//! ```text
//! "GGUF" | version (u32) | tensor count (u64) | key count (u64)
//! keys: name | type (u32) | value
//! tensors: name | dimensions (u32, u64 each) | type (u32) | offset (u64)
//! padding to the alignment | tensor data
//! ```
//!
//! Strings are a u64 length and the bytes. A tensor's dimensions are
//! innermost first, so a matrix of `[rows, cols]` is written `cols, rows`.
pub mod file;
pub mod format;
pub mod laws;
pub mod layout;
pub mod reader;
pub mod sizes;
pub mod value;
pub mod writer;

pub use file::{Error, Gguf, Info, BF16, F32, PTQ1_0};
pub use layout::Malformed;
pub use value::{Number, Value};
