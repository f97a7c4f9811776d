//! A byte-level BPE tokenizer, loaded from the vocabulary in a GGUF file.
//!
//! Text is first split into words by a regular expression. Each word starts
//! out as one token per UTF-8 byte, and adjacent tokens are then merged
//! pairwise, lowest-ranked merge first, until no merge applies.
pub mod bpe;
pub mod coder;
pub mod laws;
pub mod level;
pub mod merging;
pub mod tiny;
pub mod vocab;
pub mod words;

pub use coder::{Segment, Tokenizer};
pub use vocab::Error;
