//! Expression IR and machine-code emission for lattice kernels.
//!
//! An expression is a directed acyclic graph held in an [`arena::ExprArena`].
//! The [`backend`] lowers it to a linear schedule, allocates vector registers
//! and emits AArch64 or x86-64 machine code into byte buffers.
//!
//! `f32` values are carried as their IEEE-754 bit patterns (`u32`).

pub mod arena;
pub mod backend;
pub mod binding;
pub mod expr;
pub mod fold;
pub mod kernel;
pub mod key;
pub mod kind;
pub mod number;
pub mod text;
pub mod variance;
