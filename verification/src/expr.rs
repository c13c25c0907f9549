//! The declarations an expression is evaluated against.

use crate::arena::{BufferDecl, UniformDecl};
use vstd::prelude::*;

verus! {

/// Buffer and uniform declarations of a graph, indexed by slot.
pub struct Environment {
    pub buffers: Vec<BufferDecl>,
    pub uniforms: Vec<UniformDecl>,
}

} // verus!
