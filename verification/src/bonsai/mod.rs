//! A hybrid transformer in which every so many layers one is full attention
//! and the rest are linear attention, as a sequence of operations on a
//! [`Device`](crate::device::Device).
pub mod alike;
pub mod commit;
pub mod config;
pub mod described;
pub mod dims;
pub mod drafts;
pub mod fitting;
pub mod forward;
pub mod heads;
pub mod keeping;
pub mod language;
pub mod laws;
pub mod layer;
pub mod loader;
pub mod network;
pub mod pass;
pub mod placing;
pub mod roles;
pub mod rotation;
pub mod run;
pub mod saved;
pub mod state;
pub mod tensors;
pub mod tokenwise;

pub use heads::untile;
