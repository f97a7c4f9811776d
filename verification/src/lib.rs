//! A coding agent's core: the model's file format, its tokenizer, the chat
//! around it, the plans its device runs, and the tools it calls.
pub mod bonsai;
pub mod bytes;
pub mod chat;
pub mod clock;
pub mod device;
pub mod gguf;
pub mod gpu;
pub mod harness;
pub mod model;
pub mod pages;
pub mod read;
pub mod sampler;
pub mod tensor;
pub mod testing;
pub mod text;
pub mod tokenizer;
