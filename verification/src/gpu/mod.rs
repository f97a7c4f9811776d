//! What runs on a GPU: which one, in what order its work is submitted, how
//! each operation is spread over workgroups, and checks of its operations
//! against a reference.
pub mod blocks;
pub mod checks;
pub mod draws;
pub mod kernels;
pub mod laws;
pub mod plan;
pub mod ring;
pub mod select;
pub mod speed;
pub mod spread;
pub mod tile;
pub mod token_checks;
