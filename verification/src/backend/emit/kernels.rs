//! Expressions compiled to kernels.

pub mod calculus;
pub mod encoding;
pub mod derivative;
pub mod hoisted;
pub mod jets;
pub mod neon;
pub mod pixels;
pub mod tree;
pub mod x86;
