//! A conversation with an instruction-tuned model, in the ChatML format that
//! Qwen models are trained on:
//!
//! ```text
//! <|im_start|>user
//! Hello!<|im_end|>
//! <|im_start|>assistant
//! <think>
//! The user is greeting me.
//! </think>
//!
//! Hi there!<|im_end|>
//! ```
pub mod blocks;
pub mod call;
pub mod endings;
pub mod format;
pub mod generate;
pub mod json;
pub mod laws;
pub mod meaning;
pub mod reply;
pub mod spelling;
pub mod stream;
pub mod talk;
pub mod within;

pub use call::{CallError, ToolCall};
pub use format::{Tags, Turn};
pub use reply::{Chunk, Kind, Reply, Shown, Step};
pub use talk::{capped, Chat, Error, Stats, Tally};
pub use stream::Utf8Stream;
