//! Four lanes on WebAssembly.

use crate::backend::lanes::{lanewise, F32x4, U32x4};
use vstd::prelude::*;

verus! {

/// WebAssembly SIMD: four lanes.
#[derive(Copy, Clone, Debug, Default)]
pub struct Wasm;

/// Every lane shifted left; of the count only the remainder by 32 is taken.
pub open spec fn left_lanes(a: [u32; 4], n: u32) -> [u32; 4] {
    lanewise(a, a, |x: u32, y: u32| x << (n % 32))
}

/// Every lane shifted right; of the count only the remainder by 32 is taken.
pub open spec fn right_lanes(a: [u32; 4], n: u32) -> [u32; 4] {
    lanewise(a, a, |x: u32, y: u32| x >> (n % 32))
}

impl Wasm {
    /// Lanes shifted left.
    pub fn shl(v: U32x4, n: u32) -> (r: U32x4)
        ensures
            r.0 == left_lanes(v.0, n),
    {
        let a = v.0;
        let k: u32 = n % 32;
        U32x4([a[0] << k, a[1] << k, a[2] << k, a[3] << k])
    }

    /// Lanes shifted right.
    pub fn shr(v: U32x4, n: u32) -> (r: U32x4)
        ensures
            r.0 == right_lanes(v.0, n),
    {
        let a = v.0;
        let k: u32 = n % 32;
        U32x4([a[0] >> k, a[1] >> k, a[2] >> k, a[3] >> k])
    }

    /// The bits of floats shifted right.
    pub fn shr_u32(v: F32x4, n: u32) -> (r: F32x4)
        ensures
            r.0 == right_lanes(v.0, n),
    {
        F32x4(Wasm::shr(U32x4(v.0), n).0)
    }
}

} // verus!
