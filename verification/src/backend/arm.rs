//! Four lanes on NEON.

use crate::backend::lanes::{lanewise, F32x4, U32x4};
use vstd::prelude::*;

verus! {

/// NEON: four lanes.
#[derive(Copy, Clone, Debug, Default)]
pub struct Neon;

/// A lane shifted as the machine does: the low byte of the count is signed, a
/// negative count shifts right, and nothing is left of a shift by 32 or more.
pub open spec fn shifted(x: u32, count: int) -> u32 {
    let byte = count % 256;
    if byte < 32 {
        x << (byte as u32)
    } else if byte <= 224 {
        0
    } else {
        x >> ((256 - byte) as u32)
    }
}

/// Every lane shifted.
pub open spec fn shifted_lanes(a: [u32; 4], count: int) -> [u32; 4] {
    lanewise(a, a, |x: u32, y: u32| shifted(x, count))
}

/// A lane shifted left by the low byte of the count, right if that is negative.
fn shift(x: u32, byte: u32) -> (r: u32)
    requires
        byte < 256,
    ensures
        r == shifted(x, byte as int),
{
    if byte < 32 {
        x << byte
    } else if byte <= 224 {
        0
    } else {
        x >> (256 - byte)
    }
}

impl Neon {
    /// Lanes shifted left. Of the count only the low byte is taken, as a signed
    /// number.
    pub fn shl(v: U32x4, n: u32) -> (r: U32x4)
        ensures
            r.0 == shifted_lanes(v.0, n as int),
    {
        let a = v.0;
        let byte: u32 = n % 256;
        U32x4([shift(a[0], byte), shift(a[1], byte), shift(a[2], byte), shift(a[3], byte)])
    }

    /// Lanes shifted right, which is left by the negated count.
    pub fn shr(v: U32x4, n: u32) -> (r: U32x4)
        requires
            n != 0x8000_0000,
        ensures
            r.0 == shifted_lanes(v.0, -n),
    {
        let a = v.0;
        let byte: u32 = (256 - n % 256) % 256;
        assert((-(n as int)) % 256 == byte);
        U32x4([shift(a[0], byte), shift(a[1], byte), shift(a[2], byte), shift(a[3], byte)])
    }

    /// The bits of floats shifted right.
    pub fn shr_u32(v: F32x4, n: u32) -> (r: F32x4)
        requires
            n != 0x8000_0000,
        ensures
            r.0 == shifted_lanes(v.0, -n),
    {
        F32x4(Neon::shr(U32x4(v.0), n).0)
    }
}

} // verus!
