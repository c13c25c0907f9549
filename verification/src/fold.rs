//! Metadata of a bounded fold: which algebra, which index, which range.

use crate::arena::{REDUCE_BINDERS, REDUCE_BINDER_BASE};
use crate::kind::OpKind;
use core::ops::Range;
use vstd::prelude::*;

verus! {

/// The algebra a fold accumulates in: an associative operation with an
/// identity element.
#[derive(Clone, Copy, PartialEq, Eq, Structural, Debug, Hash)]
pub enum Monoid {
    Sum,
    Product,
    Min,
    Max,
}

impl Monoid {
    /// Addition, with identity zero.
    pub const SUM: Monoid = Monoid::Sum;

    /// Multiplication, with identity one.
    pub const PRODUCT: Monoid = Monoid::Product;

    /// Minimum, with identity positive infinity.
    pub const MIN: Monoid = Monoid::Min;

    /// Maximum, with identity negative infinity.
    pub const MAX: Monoid = Monoid::Max;

    /// The combining operation.
    pub open spec fn spec_op(self) -> OpKind {
        match self {
            Monoid::Sum => OpKind::Add,
            Monoid::Product => OpKind::Mul,
            Monoid::Min => OpKind::Min,
            Monoid::Max => OpKind::Max,
        }
    }

    /// Bit pattern of the identity element.
    pub open spec fn spec_identity(self) -> u32 {
        match self {
            Monoid::Sum => 0u32,
            Monoid::Product => 0x3F80_0000u32,
            Monoid::Min => 0x7F80_0000u32,
            Monoid::Max => 0xFF80_0000u32,
        }
    }

    /// The combining operation.
    pub fn op(self) -> (k: OpKind)
        ensures
            k == self.spec_op(),
    {
        match self {
            Monoid::Sum => OpKind::Add,
            Monoid::Product => OpKind::Mul,
            Monoid::Min => OpKind::Min,
            Monoid::Max => OpKind::Max,
        }
    }

    /// Bit pattern of the identity element: what an empty fold is worth.
    pub fn identity(self) -> (bits: u32)
        ensures
            bits == self.spec_identity(),
    {
        match self {
            Monoid::Sum => 0u32,
            Monoid::Product => 0x3F80_0000u32,
            Monoid::Min => 0x7F80_0000u32,
            Monoid::Max => 0xFF80_0000u32,
        }
    }
}

/// The index variable a fold binds.
#[derive(Clone, Copy, PartialEq, Eq, Structural, Debug, Hash)]
pub struct Binder(pub u8);

impl Binder {
    /// A binder's variable index lies in the reserved binder range.
    pub open spec fn wf(self) -> bool {
        REDUCE_BINDER_BASE <= self.0 < REDUCE_BINDER_BASE + REDUCE_BINDERS
    }

    /// The binder owning variable `i`, if `i` is in the binder range.
    pub fn from_var(i: u8) -> (r: Option<Binder>)
        ensures
            r is Some <==> REDUCE_BINDER_BASE <= i < REDUCE_BINDER_BASE + REDUCE_BINDERS,
            r matches Some(b) ==> b.0 == i && b.wf(),
    {
        if i >= REDUCE_BINDER_BASE && i < REDUCE_BINDER_BASE + REDUCE_BINDERS {
            Some(Binder(i))
        } else {
            None
        }
    }

    /// The variable index bound.
    pub fn var(self) -> (i: u8)
        ensures
            i == self.0,
    {
        self.0
    }
}

/// `⊕_{k ∈ start..end}`: the metadata of one fold.
#[derive(Clone, Copy, PartialEq, Eq, Structural, Debug, Hash)]
pub struct Fold {
    pub monoid: Monoid,
    pub binder: Binder,
    pub start: u16,
    pub end: u16,
}

impl Fold {
    /// A fold in `monoid` over `binder ∈ range`.
    pub fn new(monoid: Monoid, binder: Binder, range: Range<u16>) -> (f: Fold)
        ensures
            f == (Fold { monoid, binder, start: range.start, end: range.end }),
    {
        Fold { monoid, binder, start: range.start, end: range.end }
    }

    /// The algebra accumulated in.
    pub fn monoid(&self) -> (m: Monoid)
        ensures
            m == self.monoid,
    {
        self.monoid
    }

    /// The index variable bound.
    pub fn binder(&self) -> (b: Binder)
        ensures
            b == self.binder,
    {
        self.binder
    }

    /// The half-open index range.
    pub fn range(&self) -> (r: Range<u16>)
        ensures
            r.start == self.start,
            r.end == self.end,
    {
        self.start..self.end
    }
}

} // verus!
