//! What holds of the format whatever the input is.

pub mod determinism;
pub mod failure;
pub mod locality;
pub mod mapping;
pub mod text;
