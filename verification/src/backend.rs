//! Code generation backends, and the lanes they act on.

pub mod arm;
pub mod emit;
pub mod lanes;
pub mod wasm;
