//! Scalar arguments of a kernel fragment.

use crate::arena::UniformDecl;
use vstd::prelude::*;

verus! {

/// A handle on one uniform instance.
#[derive(Clone, Copy, PartialEq, Eq, Structural, Debug, Hash)]
pub struct Uniform(pub UniformDecl);

impl Uniform {
    /// The declaration every arena reading this instance carries.
    pub fn decl(self) -> (d: UniformDecl)
        ensures
            d == self.0,
    {
        self.0
    }
}

/// What a parameter placeholder is replaced by: a constant (as its `f32` bit
/// pattern) folded into the fragment, or a uniform supplied per call.
#[derive(Clone, Copy, PartialEq, Eq, Structural, Debug, Hash)]
pub enum Scalar {
    Const(u32),
    Uniform(Uniform),
}

} // verus!
