//! Content-derived kernel names.

use vstd::prelude::*;

verus! {

/// A kernel named by the hash of its content.
#[derive(Clone, Copy, PartialEq, Eq, Structural, Debug, Hash)]
pub struct KernelKey(pub u64);

impl KernelKey {
    /// The raw key bits.
    pub fn bits(self) -> (b: u64)
        ensures
            b == self.0,
    {
        self.0
    }
}

} // verus!
