//! JIT code emission for expression graphs.

use vstd::prelude::*;

pub mod aarch64;
pub mod avx512;
pub mod bytes;
pub mod driver;
pub mod executable;
pub mod isa;
pub mod kernels;
pub mod lane;
pub mod lowering;
pub mod outcome;
pub mod plan;
pub mod pool;
pub mod regalloc;
pub mod schedule;
pub mod x86_64;

pub use crate::backend::emit::plan::{
    resolve_operands, DeferredReload, EmitCtx, FrameLayout, InstructionPlan, Loc, Reload,
    ResolvedOp, Store,
};
pub use crate::backend::emit::pool::ConstPool;
pub use crate::backend::emit::schedule::{arena_to_schedule, arena_to_uses, ScheduledOp};

verus! {

/// Physical register index.
#[derive(Copy, Clone, Debug, PartialEq, Eq, Structural, PartialOrd, Ord, Hash)]
pub struct Reg(pub u8);

/// Numbers of the input registers: X, Y, Z and W.
pub const INPUT_REGS: [u8; 4] = [0, 1, 2, 3];

/// First scratch register, after the inputs.
pub const SCRATCH_BASE: u8 = 4;

} // verus!
