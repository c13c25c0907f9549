//! What a target machine has to provide, and plans turned into its code.

use crate::backend::emit::plan::{
    DeferredReload, InstructionPlan, Places, Plan, Reload, ResolvedOp,
};
use crate::backend::emit::regalloc::ValueId;
use crate::backend::emit::schedule::ScheduledOp;
use crate::backend::emit::Reg;
use crate::kind::OpKind;
use vstd::prelude::*;

pub mod avx;
pub mod avx_effects;
pub mod neon;
pub mod sse;
pub mod sse_effects;
pub mod sse_skips;

pub use crate::backend::emit::isa::avx::Avx512Backend;
pub use crate::backend::emit::isa::neon::Aarch64Backend;
pub use crate::backend::emit::isa::sse::X86Backend;

verus! {

/// A branch whose target is still open, at a position in the code.
#[derive(Copy, Clone, Debug, PartialEq, Eq, Structural)]
pub enum Branch {
    /// Conditional.
    Cond(usize),
    /// Unconditional.
    Jump(usize),
}

impl Branch {
    /// Where it is.
    pub open spec fn at(self) -> int {
        match self {
            Branch::Cond(p) => p as int,
            Branch::Jump(p) => p as int,
        }
    }
}

/// The branch lies in the code that was appended for it.
pub open spec fn branch_fits(code: Seq<u8>, e: (Seq<u8>, Branch)) -> bool {
    e.0.len() >= code.len() && (e.0.len() <= usize::MAX ==> code.len() <= e.1.at() && e.1.at() + 4
        <= e.0.len())
}

/// Code and constant pool.
pub type Emitted = (Seq<u8>, Seq<u32>);

/// The leaf operations of a target machine.
///
/// Each operation appends to the code; its spec function says what. Offsets of
/// stack slots are multiples of 16 below two megabytes. `pool` holds constants
/// placed behind the code, `anchor` where the code sets up their address.
pub trait IsaBackend: Sized {
    /// Constants placed behind the code.
    spec fn pool(&self) -> Seq<u32>;

    /// Position of the instruction that sets up the address of the constants.
    spec fn anchor(&self) -> int;

    /// Number of allocatable scratch registers.
    spec fn budget(&self) -> u8;

    /// Internal consistency.
    spec fn valid(&self) -> bool;

    /// The two registers kept free for spilled values.
    spec fn reload_pair() -> [Reg; 2];

    /// Code loading a constant.
    spec fn const_code(code: Seq<u8>, pool: Seq<u32>, dst: Reg, bits: u32) -> Seq<u8>;

    /// A stack slot can be addressed.
    spec fn slot_ok(offset: u32) -> bool;

    /// The error for one that cannot.
    spec fn slot_error() -> &'static str;

    /// Code loading a stack slot.
    spec fn load_code(code: Seq<u8>, dst: Reg, offset: u32) -> Seq<u8>;

    /// Code storing to a stack slot.
    spec fn store_code(code: Seq<u8>, src: Reg, offset: u32) -> Seq<u8>;

    /// Code of a register copy.
    spec fn mov_code(code: Seq<u8>, dst: Reg, src: Reg) -> Seq<u8>;

    /// The unary operation may be asked for.
    spec fn unary_ok(op: OpKind) -> bool;

    /// Code of a unary operation.
    spec fn unary_code(code: Seq<u8>, op: OpKind, dst: Reg, src: Reg) -> Result<
        Seq<u8>,
        &'static str,
    >;

    /// The shift may be asked for.
    spec fn shift_ok(op: OpKind, amount: u8) -> bool;

    /// Code of a shift by an immediate.
    spec fn shift_code(code: Seq<u8>, op: OpKind, dst: Reg, src: Reg, amount: u8) -> Result<
        Seq<u8>,
        &'static str,
    >;

    /// The binary operation may be asked for.
    spec fn binary_ok(op: OpKind) -> bool;

    /// Code of a binary operation.
    spec fn binary_code(
        code: Seq<u8>,
        pool: Seq<u32>,
        op: OpKind,
        dst: Reg,
        left: Reg,
        right: Reg,
    ) -> Result<Emitted, &'static str>;

    /// Code of addition, multiplication, minimum or maximum.
    spec fn arith_code(code: Seq<u8>, op: OpKind, dst: Reg, left: Reg, right: Reg) -> Seq<u8>;

    /// Code of `dst = dst + a * b`.
    spec fn fma_code(code: Seq<u8>, dst: Reg, a: Reg, b: Reg) -> Seq<u8>;

    /// Code of `dst = dst ? if_true : if_false`.
    spec fn select_code(code: Seq<u8>, dst: Reg, if_true: Reg, if_false: Reg) -> Seq<u8>;

    /// Code of a branch taken when the mask is false in every lane.
    spec fn skip_if_false(code: Seq<u8>, mask: Reg) -> (Seq<u8>, Branch);

    /// Code of a branch taken when the mask is true in every lane.
    spec fn skip_if_true(code: Seq<u8>, mask: Reg) -> (Seq<u8>, Branch);

    /// Code of a jump.
    spec fn jump_code(code: Seq<u8>) -> (Seq<u8>, Branch);

    /// Code with a branch leading to `target`.
    spec fn patched(code: Seq<u8>, branch: Branch, target: int) -> Seq<u8>;

    /// A branch can be made to lead to `target`.
    spec fn reaches(branch: Branch, target: int) -> bool;

    /// The initial pool for a schedule.
    spec fn begun(sched: Seq<(ValueId, ScheduledOp)>) -> Result<Seq<u32>, &'static str>;

    /// Code of the prologue, and where its anchor is.
    spec fn entered(code: Seq<u8>, frame: u32) -> (Seq<u8>, int);

    /// Code of the epilogue: the result moved, the frame released, the return,
    /// and the constants.
    spec fn finished(
        code: Seq<u8>,
        pool: Seq<u32>,
        anchor: int,
        result: Reg,
        frame: u32,
    ) -> Seq<u8>;

    /// The constants of the finished code are in reach of their anchor.
    spec fn can_finish(code: Seq<u8>, pool: Seq<u32>, anchor: int, result: Reg, frame: u32) -> bool;

    /// A branch is emitted at the end of the code, and patching a branch keeps
    /// the length of the code.
    proof fn branch_laws(code: Seq<u8>, mask: Reg, branch: Branch, target: int)
        ensures
            branch_fits(code, Self::skip_if_false(code, mask)),
            branch_fits(code, Self::skip_if_true(code, mask)),
            branch_fits(code, Self::jump_code(code)),
            branch.at() + 4 <= code.len() ==> Self::patched(code, branch, target).len()
                == code.len(),
    ;

    /// Nothing that is appended shortens the code.
    proof fn growth_laws(code: Seq<u8>, pool: Seq<u32>, op: OpKind, d: Reg, a: Reg, b: Reg, w: u32)
        ensures
            Self::const_code(code, pool, d, w).len() >= code.len(),
            Self::load_code(code, d, w).len() >= code.len(),
            Self::store_code(code, d, w).len() >= code.len(),
            Self::mov_code(code, d, a).len() >= code.len(),
            Self::unary_ok(op) ==> (Self::unary_code(code, op, d, a) matches Ok(c) ==> c.len()
                >= code.len()),
            Self::shift_code(code, op, d, a, w as u8) matches Ok(c) ==> c.len() >= code.len(),
            Self::binary_ok(op) ==> (Self::binary_code(code, pool, op, d, a, b) matches Ok(e)
                ==> e.0.len() >= code.len()),
            op is Add || op is Mul || op is Min || op is Max ==> Self::arith_code(
                code,
                op,
                d,
                a,
                b,
            ).len() >= code.len(),
            Self::fma_code(code, d, a, b).len() >= code.len(),
            Self::select_code(code, d, a, b).len() >= code.len(),
    ;

    /// Number of allocatable scratch registers.
    fn num_regs(&self) -> (n: u8)
        ensures
            n == self.budget(),
    ;

    /// The registers kept free for spilled values.
    fn reload_regs() -> (r: [Reg; 2])
        ensures
            r == Self::reload_pair(),
    ;

    /// Set up before any code is emitted.
    fn begin(&mut self, schedule: &[(ValueId, ScheduledOp)]) -> (r: Result<(), &'static str>)
        requires
            old(self).valid(),
        ensures
            final(self).valid(),
            final(self).budget() == old(self).budget(),
            match Self::begun(schedule@) {
                Ok(pool) => r is Ok && final(self).pool() == pool,
                Err(e) => r == Err::<(), &'static str>(e),
            },
    ;

    /// Function prologue.
    fn prologue(&mut self, code: &mut Vec<u8>, frame_size: u32)
        requires
            old(self).valid(),
            frame_size <= 0x20_0000,
        ensures
            final(self).valid(),
            final(self).budget() == old(self).budget(),
            final(self).pool() == old(self).pool(),
            final(code)@ == Self::entered(old(code)@, frame_size).0,
            final(self).anchor() == Self::entered(old(code)@, frame_size).1,
    ;

    /// Load a constant.
    fn emit_const(&self, code: &mut Vec<u8>, dst: Reg, bits: u32)
        requires
            self.valid(),
        ensures
            final(code)@ == Self::const_code(old(code)@, self.pool(), dst, bits),
    ;

    /// Load a stack slot.
    fn emit_load(&self, code: &mut Vec<u8>, dst: Reg, offset: u32) -> (r: Result<
        (),
        &'static str,
    >)
        requires
            offset % 16 == 0,
            offset < 0x20_0000,
        ensures
            if Self::slot_ok(offset) {
                r is Ok && final(code)@ == Self::load_code(old(code)@, dst, offset)
            } else {
                r == Err::<(), &'static str>(Self::slot_error())
            },
    ;

    /// Spill a register to a stack slot.
    fn emit_store(&self, code: &mut Vec<u8>, src: Reg, offset: u32) -> (r: Result<
        (),
        &'static str,
    >)
        requires
            offset % 16 == 0,
            offset < 0x20_0000,
        ensures
            if Self::slot_ok(offset) {
                r is Ok && final(code)@ == Self::store_code(old(code)@, src, offset)
            } else {
                r == Err::<(), &'static str>(Self::slot_error())
            },
    ;

    /// Register-to-register move.
    fn emit_mov(&self, code: &mut Vec<u8>, dst: Reg, src: Reg)
        ensures
            final(code)@ == Self::mov_code(old(code)@, dst, src),
    ;

    /// Unary operation.
    fn emit_unary(&mut self, code: &mut Vec<u8>, op: OpKind, dst: Reg, src: Reg) -> (r: Result<
        (),
        &'static str,
    >)
        requires
            old(self).valid(),
            Self::unary_ok(op),
        ensures
            *final(self) == *old(self),
            match Self::unary_code(old(code)@, op, dst, src) {
                Ok(c) => r is Ok && final(code)@ == c,
                Err(e) => r == Err::<(), &'static str>(e),
            },
    ;

    /// Shift by an immediate.
    fn emit_shift(
        &self,
        code: &mut Vec<u8>,
        op: OpKind,
        dst: Reg,
        src: Reg,
        amount: u8,
    ) -> (r: Result<(), &'static str>)
        requires
            Self::shift_ok(op, amount),
        ensures
            match Self::shift_code(old(code)@, op, dst, src, amount) {
                Ok(c) => r is Ok && final(code)@ == c,
                Err(e) => r == Err::<(), &'static str>(e),
            },
    ;

    /// Binary operation.
    fn emit_binary(
        &mut self,
        code: &mut Vec<u8>,
        op: OpKind,
        dst: Reg,
        left: Reg,
        right: Reg,
    ) -> (r: Result<(), &'static str>)
        requires
            old(self).valid(),
            Self::binary_ok(op),
        ensures
            final(self).valid(),
            final(self).budget() == old(self).budget(),
            final(self).anchor() == old(self).anchor(),
            match Self::binary_code(old(code)@, old(self).pool(), op, dst, left, right) {
                Ok(e) => r is Ok && final(code)@ == e.0 && final(self).pool() == e.1,
                Err(e) => r == Err::<(), &'static str>(e),
            },
    ;

    /// Addition, multiplication, minimum or maximum.
    fn emit_arith(&self, code: &mut Vec<u8>, op: OpKind, dst: Reg, left: Reg, right: Reg)
        requires
            op is Add || op is Mul || op is Min || op is Max,
        ensures
            final(code)@ == Self::arith_code(old(code)@, op, dst, left, right),
    ;

    /// `dst = dst + a * b`.
    fn emit_fma(&self, code: &mut Vec<u8>, dst: Reg, a: Reg, b: Reg)
        ensures
            final(code)@ == Self::fma_code(old(code)@, dst, a, b),
    ;

    /// `dst = dst ? if_true : if_false`.
    fn emit_select(&self, code: &mut Vec<u8>, dst: Reg, if_true: Reg, if_false: Reg)
        ensures
            final(code)@ == Self::select_code(old(code)@, dst, if_true, if_false),
    ;

    /// Branch taken when the mask is false in every lane.
    fn emit_skip_if_all_false(&self, code: &mut Vec<u8>, mask_reg: Reg) -> (b: Branch)
        ensures
            (final(code)@, b) == Self::skip_if_false(old(code)@, mask_reg),
    ;

    /// Branch taken when the mask is true in every lane.
    fn emit_skip_if_all_true(&self, code: &mut Vec<u8>, mask_reg: Reg) -> (b: Branch)
        ensures
            (final(code)@, b) == Self::skip_if_true(old(code)@, mask_reg),
    ;

    /// Unconditional jump.
    fn emit_jump(&self, code: &mut Vec<u8>) -> (b: Branch)
        ensures
            (final(code)@, b) == Self::jump_code(old(code)@),
    ;

    /// Make a branch lead to `target`.
    fn patch_branch(&self, code: &mut Vec<u8>, branch: Branch, target: usize)
        requires
            branch.at() + 4 <= old(code)@.len(),
            Self::reaches(branch, target as int),
        ensures
            final(code)@ == Self::patched(old(code)@, branch, target as int),
    ;

    /// Function epilogue. After this the code is complete, unless its constants
    /// are out of reach.
    fn epilogue(&mut self, code: &mut Vec<u8>, result_reg: Reg, frame_size: u32) -> (done: bool)
        requires
            old(self).valid(),
            frame_size <= 0x20_0000,
        ensures
            final(self).valid(),
            final(self).budget() == old(self).budget(),
            done == Self::can_finish(
                old(code)@,
                old(self).pool(),
                old(self).anchor(),
                result_reg,
                frame_size,
            ),
            done ==> final(code)@ == Self::finished(
                old(code)@,
                old(self).pool(),
                old(self).anchor(),
                result_reg,
                frame_size,
            ),
    ;

    /// May the unary operation be asked for?
    fn can_unary(op: OpKind) -> (b: bool)
        ensures
            b == Self::unary_ok(op),
    ;

    /// May the shift be asked for?
    fn can_shift(op: OpKind, amount: u8) -> (b: bool)
        ensures
            b == Self::shift_ok(op, amount),
    ;

    /// May the binary operation be asked for?
    fn can_binary(op: OpKind) -> (b: bool)
        ensures
            b == Self::binary_ok(op),
    ;

    /// Can the stack slot be addressed?
    fn can_address(offset: u32) -> (b: bool)
        ensures
            b == Self::slot_ok(offset),
    ;

    /// Can the branch be made to lead to `target`?
    fn can_reach(branch: Branch, target: usize) -> (b: bool)
        ensures
            b == Self::reaches(branch, target as int),
    ;
}

/// The operation may be asked for.
pub open spec fn supports<B: IsaBackend>(op: ScheduledOp) -> bool {
    match op {
        ScheduledOp::Unary(k, _) => B::unary_ok(k),
        ScheduledOp::ShiftImm(k, _, amount) => B::shift_ok(k, amount),
        ScheduledOp::Binary(k, _, _) => B::binary_ok(k),
        _ => true,
    }
}

/// May the operation be asked for?
pub(crate) fn is_supported<B: IsaBackend>(op: ScheduledOp) -> (b: bool)
    ensures
        b == supports::<B>(op),
{
    match op {
        ScheduledOp::Unary(k, _) => B::can_unary(k),
        ScheduledOp::ShiftImm(k, _, amount) => B::can_shift(k, amount),
        ScheduledOp::Binary(k, _, _) => B::can_binary(k),
        _ => true,
    }
}

/// The instruction may be asked for.
pub open spec fn encodes<B: IsaBackend>(op: ResolvedOp) -> bool {
    match op {
        ResolvedOp::Unary { op, .. } => B::unary_ok(op),
        ResolvedOp::ShiftImm { op, amount, .. } => B::shift_ok(op, amount),
        ResolvedOp::Binary { op, .. } => B::binary_ok(op),
        _ => true,
    }
}

/// An offset of a frame slot.
pub open spec fn slot(offset: u32) -> bool {
    offset % 16 == 0 && offset < 0x20_0000
}

/// Every stack slot of an instruction is one of the frame.
pub open spec fn op_slots(op: ResolvedOp) -> bool {
    match op {
        ResolvedOp::DecomposedMulAdd { c_deferred: Some(DeferredReload::FromStack(o)), .. } => slot(
            o,
        ),
        ResolvedOp::Clamp { lo_deferred: Some(DeferredReload::FromStack(o)), .. } => slot(o),
        _ => true,
    }
}

/// Every stack slot of a plan is one of the frame.
pub open spec fn plan_slots(p: Plan) -> bool {
    &&& forall|i: int|
        0 <= i < p.reloads.len() ==> (#[trigger] p.reloads[i] matches Reload::FromStack {
            offset,
            ..
        } ==> slot(offset))
    &&& op_slots(p.op)
    &&& p.store matches Some(s) ==> slot(s.offset)
}

/// Code of a load from the stack.
pub open spec fn stack_load<B: IsaBackend>(code: Seq<u8>, target: Reg, offset: u32) -> Result<
    Seq<u8>,
    &'static str,
> {
    if B::slot_ok(offset) {
        Ok(B::load_code(code, target, offset))
    } else {
        Err(B::slot_error())
    }
}

/// Code of the first `k` loads of a plan.
pub open spec fn reload_code<B: IsaBackend>(
    code: Seq<u8>,
    pool: Seq<u32>,
    reloads: Seq<Reload>,
    k: int,
) -> Result<Seq<u8>, &'static str>
    decreases k,
{
    if k <= 0 {
        Ok(code)
    } else {
        match reload_code::<B>(code, pool, reloads, k - 1) {
            Err(e) => Err(e),
            Ok(c) => match reloads[k - 1] {
                Reload::FromStack { target, offset } => stack_load::<B>(c, target, offset),
                Reload::Const { target, val_bits } => Ok(B::const_code(c, pool, target, val_bits)),
            },
        }
    }
}

/// Code of a load in the middle of an instruction.
pub open spec fn late_code<B: IsaBackend>(
    code: Seq<u8>,
    pool: Seq<u32>,
    target: Reg,
    d: Option<DeferredReload>,
) -> Result<Seq<u8>, &'static str> {
    match d {
        None => Ok(code),
        Some(DeferredReload::FromStack(offset)) => stack_load::<B>(code, target, offset),
        Some(DeferredReload::Const(bits)) => Ok(B::const_code(code, pool, target, bits)),
    }
}

/// Code of an instruction.
pub open spec fn main_code<B: IsaBackend>(code: Seq<u8>, pool: Seq<u32>, op: ResolvedOp) -> Result<
    Emitted,
    &'static str,
> {
    match op {
        ResolvedOp::Nop => Ok((code, pool)),
        ResolvedOp::LoadConst { dst, val_bits } => Ok(
            (B::const_code(code, pool, dst, val_bits), pool),
        ),
        ResolvedOp::Unary { op, dst, src } => match B::unary_code(code, op, dst, src) {
            Ok(c) => Ok((c, pool)),
            Err(e) => Err(e),
        },
        ResolvedOp::ShiftImm { op, dst, src, amount } => match B::shift_code(
            code,
            op,
            dst,
            src,
            amount,
        ) {
            Ok(c) => Ok((c, pool)),
            Err(e) => Err(e),
        },
        ResolvedOp::Binary { op, dst, left, right } => B::binary_code(
            code,
            pool,
            op,
            dst,
            left,
            right,
        ),
        ResolvedOp::FusedMulAdd { dst, a, b } => Ok((B::fma_code(code, dst, a, b), pool)),
        ResolvedOp::DecomposedMulAdd { dst, a, b, c, c_deferred } => match late_code::<B>(
            B::arith_code(code, OpKind::Mul, dst, a, b),
            pool,
            c,
            c_deferred,
        ) {
            Ok(d) => Ok((B::arith_code(d, OpKind::Add, dst, dst, c), pool)),
            Err(e) => Err(e),
        },
        ResolvedOp::Select { dst, if_true, if_false } => Ok(
            (B::select_code(code, dst, if_true, if_false), pool),
        ),
        ResolvedOp::Clamp { dst, val, lo, hi, lo_deferred } => match late_code::<B>(
            B::arith_code(code, OpKind::Min, dst, val, hi),
            pool,
            lo,
            lo_deferred,
        ) {
            Ok(d) => Ok((B::arith_code(d, OpKind::Max, dst, dst, lo), pool)),
            Err(e) => Err(e),
        },
    }
}

/// Code of a plan: its loads, its copy, its instruction and its store.
pub open spec fn plan_code<B: IsaBackend>(code: Seq<u8>, pool: Seq<u32>, p: Plan) -> Result<
    Emitted,
    &'static str,
> {
    match reload_code::<B>(code, pool, p.reloads, p.reloads.len() as int) {
        Err(e) => Err(e),
        Ok(c) => {
            let c = match p.setup_mov {
                Some((dst, src)) => B::mov_code(c, dst, src),
                None => c,
            };
            match main_code::<B>(c, pool, p.op) {
                Err(e) => Err(e),
                Ok((c, pool)) => match p.store {
                    None => Ok((c, pool)),
                    Some(s) => if B::slot_ok(s.offset) {
                        Ok((B::store_code(c, s.src, s.offset), pool))
                    } else {
                        Err(B::slot_error())
                    },
                },
            }
        },
    }
}

/// Code that brings a value to the register it is read from.
pub open spec fn fetch_code<B: IsaBackend>(
    code: Seq<u8>,
    pool: Seq<u32>,
    at: Places,
    v: ValueId,
    target: Reg,
) -> Seq<u8> {
    if at.regs.contains_key(v.0) {
        code
    } else if at.consts.contains_key(v.0) {
        B::const_code(code, pool, target, at.consts[v.0])
    } else {
        B::load_code(code, target, at.slots[v.0])
    }
}

/// The stack slot of a value, if it is read from there, can be addressed.
pub open spec fn fetchable<B: IsaBackend>(at: Places, v: ValueId) -> bool {
    &&& at.holds(v)
    &&& !at.regs.contains_key(v.0) && !at.consts.contains_key(v.0) ==> B::slot_ok(at.slots[v.0])
        && slot(at.slots[v.0])
}

proof fn lemma_reload_growth<B: IsaBackend>(
    code: Seq<u8>,
    pool: Seq<u32>,
    reloads: Seq<Reload>,
    k: int,
)
    ensures
        reload_code::<B>(code, pool, reloads, k) matches Ok(c) ==> c.len() >= code.len(),
    decreases k,
{
    if k > 0 {
        lemma_reload_growth::<B>(code, pool, reloads, k - 1);
        if let Ok(c) = reload_code::<B>(code, pool, reloads, k - 1) {
            match reloads[k - 1] {
                Reload::FromStack { target, offset } => {
                    B::growth_laws(c, pool, OpKind::Add, target, target, target, offset);
                },
                Reload::Const { target, val_bits } => {
                    B::growth_laws(c, pool, OpKind::Add, target, target, target, val_bits);
                },
            }
        }
    }
}

proof fn lemma_late_growth<B: IsaBackend>(
    code: Seq<u8>,
    pool: Seq<u32>,
    target: Reg,
    d: Option<DeferredReload>,
)
    ensures
        late_code::<B>(code, pool, target, d) matches Ok(c) ==> c.len() >= code.len(),
{
    match d {
        None => {},
        Some(DeferredReload::FromStack(offset)) => {
            B::growth_laws(code, pool, OpKind::Add, target, target, target, offset);
        },
        Some(DeferredReload::Const(bits)) => {
            B::growth_laws(code, pool, OpKind::Add, target, target, target, bits);
        },
    }
}

proof fn lemma_main_growth<B: IsaBackend>(code: Seq<u8>, pool: Seq<u32>, op: ResolvedOp)
    requires
        encodes::<B>(op),
    ensures
        main_code::<B>(code, pool, op) matches Ok(e) ==> e.0.len() >= code.len(),
{
    match op {
        ResolvedOp::Nop => {},
        ResolvedOp::LoadConst { dst, val_bits } => {
            B::growth_laws(code, pool, OpKind::Add, dst, dst, dst, val_bits);
        },
        ResolvedOp::Unary { op, dst, src } => {
            B::growth_laws(code, pool, op, dst, src, src, 0);
        },
        ResolvedOp::ShiftImm { op, dst, src, amount } => {
            B::growth_laws(code, pool, op, dst, src, src, amount as u32);
        },
        ResolvedOp::Binary { op, dst, left, right } => {
            B::growth_laws(code, pool, op, dst, left, right, 0);
        },
        ResolvedOp::FusedMulAdd { dst, a, b } => {
            B::growth_laws(code, pool, OpKind::Add, dst, a, b, 0);
        },
        ResolvedOp::DecomposedMulAdd { dst, a, b, c, c_deferred } => {
            B::growth_laws(code, pool, OpKind::Mul, dst, a, b, 0);
            let c1 = B::arith_code(code, OpKind::Mul, dst, a, b);
            lemma_late_growth::<B>(c1, pool, c, c_deferred);
            if let Ok(c2) = late_code::<B>(c1, pool, c, c_deferred) {
                B::growth_laws(c2, pool, OpKind::Add, dst, dst, c, 0);
            }
        },
        ResolvedOp::Select { dst, if_true, if_false } => {
            B::growth_laws(code, pool, OpKind::Add, dst, if_true, if_false, 0);
        },
        ResolvedOp::Clamp { dst, val, lo, hi, lo_deferred } => {
            B::growth_laws(code, pool, OpKind::Min, dst, val, hi, 0);
            let c1 = B::arith_code(code, OpKind::Min, dst, val, hi);
            lemma_late_growth::<B>(c1, pool, lo, lo_deferred);
            if let Ok(c2) = late_code::<B>(c1, pool, lo, lo_deferred) {
                B::growth_laws(c2, pool, OpKind::Max, dst, dst, lo, 0);
            }
        },
    }
}

/// A plan only appends, and if its result goes to the stack, the slot can be
/// addressed.
pub proof fn lemma_plan_code<B: IsaBackend>(code: Seq<u8>, pool: Seq<u32>, p: Plan)
    requires
        encodes::<B>(p.op),
    ensures
        plan_code::<B>(code, pool, p) matches Ok(e) ==> e.0.len() >= code.len(),
        plan_code::<B>(code, pool, p) is Ok && p.store is Some ==> B::slot_ok(p.store->0.offset),
{
    lemma_reload_growth::<B>(code, pool, p.reloads, p.reloads.len() as int);
    if let Ok(c) = reload_code::<B>(code, pool, p.reloads, p.reloads.len() as int) {
        let c1 = match p.setup_mov {
            Some((dst, src)) => B::mov_code(c, dst, src),
            None => c,
        };
        if let Some((dst, src)) = p.setup_mov {
            B::growth_laws(c, pool, OpKind::Add, dst, src, src, 0);
        }
        lemma_main_growth::<B>(c1, pool, p.op);
        if let Ok((c2, pool2)) = main_code::<B>(c1, pool, p.op) {
            if let Some(s) = p.store {
                B::growth_laws(c2, pool2, OpKind::Add, s.src, s.src, s.src, s.offset);
            }
        }
    }
}

/// Fetching a value only appends.
pub proof fn lemma_fetch_growth<B: IsaBackend>(
    code: Seq<u8>,
    pool: Seq<u32>,
    at: Places,
    v: ValueId,
    target: Reg,
)
    ensures
        fetch_code::<B>(code, pool, at, v, target).len() >= code.len(),
{
    B::growth_laws(code, pool, OpKind::Add, target, target, target, at.consts[v.0]);
    B::growth_laws(code, pool, OpKind::Add, target, target, target, at.slots[v.0]);
}

/// Emit a load in the middle of an instruction.
fn emit_deferred<B: IsaBackend>(
    backend: &B,
    code: &mut Vec<u8>,
    target: Reg,
    deferred: Option<DeferredReload>,
) -> (r: Result<(), &'static str>)
    requires
        backend.valid(),
        deferred matches Some(DeferredReload::FromStack(o)) ==> slot(o),
    ensures
        match late_code::<B>(old(code)@, backend.pool(), target, deferred) {
            Ok(c) => r is Ok && final(code)@ == c,
            Err(e) => r == Err::<(), &'static str>(e),
        },
{
    match deferred {
        None => Ok(()),
        Some(DeferredReload::FromStack(offset)) => backend.emit_load(code, target, offset),
        Some(DeferredReload::Const(bits)) => {
            backend.emit_const(code, target, bits);
            Ok(())
        },
    }
}

/// Emit the main instruction of a plan.
fn emit_main<B: IsaBackend>(backend: &mut B, code: &mut Vec<u8>, op: ResolvedOp) -> (r: Result<
    (),
    &'static str,
>)
    requires
        old(backend).valid(),
        encodes::<B>(op),
        op_slots(op),
    ensures
        final(backend).valid(),
        final(backend).budget() == old(backend).budget(),
        final(backend).anchor() == old(backend).anchor(),
        match main_code::<B>(old(code)@, old(backend).pool(), op) {
            Ok(e) => r is Ok && final(code)@ == e.0 && final(backend).pool() == e.1,
            Err(e) => r == Err::<(), &'static str>(e),
        },
{
    match op {
        ResolvedOp::Nop => Ok(()),
        ResolvedOp::LoadConst { dst, val_bits } => {
            backend.emit_const(code, dst, val_bits);
            Ok(())
        },
        ResolvedOp::Unary { op, dst, src } => backend.emit_unary(code, op, dst, src),
        ResolvedOp::ShiftImm { op, dst, src, amount } => backend.emit_shift(
            code,
            op,
            dst,
            src,
            amount,
        ),
        ResolvedOp::Binary { op, dst, left, right } => backend.emit_binary(
            code,
            op,
            dst,
            left,
            right,
        ),
        ResolvedOp::FusedMulAdd { dst, a, b } => {
            backend.emit_fma(code, dst, a, b);
            Ok(())
        },
        ResolvedOp::DecomposedMulAdd { dst, a, b, c, c_deferred } => {
            backend.emit_arith(code, OpKind::Mul, dst, a, b);
            if let Err(e) = emit_deferred(backend, code, c, c_deferred) {
                return Err(e);
            }
            backend.emit_arith(code, OpKind::Add, dst, dst, c);
            Ok(())
        },
        ResolvedOp::Select { dst, if_true, if_false } => {
            backend.emit_select(code, dst, if_true, if_false);
            Ok(())
        },
        ResolvedOp::Clamp { dst, val, lo, hi, lo_deferred } => {
            backend.emit_arith(code, OpKind::Min, dst, val, hi);
            if let Err(e) = emit_deferred(backend, code, lo, lo_deferred) {
                return Err(e);
            }
            backend.emit_arith(code, OpKind::Max, dst, dst, lo);
            Ok(())
        },
    }
}

/// Emit a resolved plan: its loads, its copy, its instruction and its store.
pub(crate) fn emit_plan<B: IsaBackend>(backend: &mut B, code: &mut Vec<u8>, plan: &InstructionPlan) -> (r:
    Result<(), &'static str>)
    requires
        old(backend).valid(),
        encodes::<B>(plan.op),
        plan_slots(plan@),
    ensures
        final(backend).valid(),
        final(backend).budget() == old(backend).budget(),
        final(backend).anchor() == old(backend).anchor(),
        match plan_code::<B>(old(code)@, old(backend).pool(), plan@) {
            Ok(e) => r is Ok && final(code)@ == e.0 && final(backend).pool() == e.1,
            Err(e) => r == Err::<(), &'static str>(e),
        },
{
    let ghost start = code@;
    let ghost pool = backend.pool();
    let ghost reloads = plan.reloads@;
    let mut i: usize = 0;
    while i < plan.reloads.len()
        invariant
            i <= plan.reloads@.len(),
            reloads == plan.reloads@,
            backend.valid(),
            backend.pool() == pool,
            backend.budget() == old(backend).budget(),
            backend.anchor() == old(backend).anchor(),
            plan_slots(plan@),
            start == old(code)@,
            pool == old(backend).pool(),
            reload_code::<B>(start, pool, reloads, i as int) == Ok::<Seq<u8>, &'static str>(code@),
        decreases plan.reloads@.len() - i,
    {
        let ghost before = code@;
        assert(plan@.reloads[i as int] == plan.reloads@[i as int]);
        let r = match plan.reloads[i] {
            Reload::FromStack { target, offset } => backend.emit_load(code, target, offset),
            Reload::Const { target, val_bits } => {
                backend.emit_const(code, target, val_bits);
                Ok(())
            },
        };
        if let Err(e) = r {
            proof {
                assert(reload_code::<B>(start, pool, reloads, i + 1) == Err::<
                    Seq<u8>,
                    &'static str,
                >(e));
                lemma_reload_error::<B>(start, pool, reloads, i + 1, reloads.len() as int);
            }
            return Err(e);
        }
        i += 1;
    }
    if let Some((dst, src)) = plan.setup_mov {
        backend.emit_mov(code, dst, src);
    }
    if let Err(e) = emit_main(backend, code, plan.op) {
        return Err(e);
    }
    match plan.store {
        None => Ok(()),
        Some(s) => backend.emit_store(code, s.src, s.offset),
    }
}

proof fn lemma_reload_error<B: IsaBackend>(
    code: Seq<u8>,
    pool: Seq<u32>,
    reloads: Seq<Reload>,
    i: int,
    k: int,
)
    requires
        0 <= i <= k,
        reload_code::<B>(code, pool, reloads, i) is Err,
    ensures
        reload_code::<B>(code, pool, reloads, k) == reload_code::<B>(code, pool, reloads, i),
    decreases k,
{
    if i < k {
        lemma_reload_error::<B>(code, pool, reloads, i, k - 1);
    }
}

/// Bring a value to a register: its own, or `target` if it has to be loaded.
pub(crate) fn emit_resolve<B: IsaBackend>(
    backend: &B,
    code: &mut Vec<u8>,
    vid: ValueId,
    target: Reg,
    reg_for: &[Option<Reg>],
    spill_for: &[Option<u32>],
    remat_for: &[Option<u32>],
    Ghost(at): Ghost<Places>,
) -> (r: Reg)
    requires
        backend.valid(),
        lists(reg_for@, spill_for@, remat_for@, at),
        (vid.0 as int) < reg_for@.len(),
        fetchable::<B>(at, vid),
    ensures
        final(code)@ == fetch_code::<B>(old(code)@, backend.pool(), at, vid, target),
        r == at.source(vid, target),
{
    let idx: usize = vid.0 as usize;
    assert(listed(reg_for@, spill_for@, remat_for@, at, idx as int));
    if let Some(reg) = reg_for[idx] {
        reg
    } else if let Some(bits) = remat_for[idx] {
        backend.emit_const(code, target, bits);
        target
    } else if let Some(offset) = spill_for[idx] {
        let _r = backend.emit_load(code, target, offset);
        target
    } else {
        target
    }
}

/// The tables say where value `v` lives.
pub open spec fn listed(
    reg_for: Seq<Option<Reg>>,
    spill_for: Seq<Option<u32>>,
    remat_for: Seq<Option<u32>>,
    at: Places,
    v: int,
) -> bool {
    &&& reg_for[v] == (if at.regs.contains_key(v as u32) {
        Some(at.regs[v as u32])
    } else {
        None
    })
    &&& spill_for[v] == (if at.slots.contains_key(v as u32) {
        Some(at.slots[v as u32])
    } else {
        None
    })
    &&& remat_for[v] == (if at.consts.contains_key(v as u32) {
        Some(at.consts[v as u32])
    } else {
        None
    })
}

/// The tables say where each value lives.
pub open spec fn lists(
    reg_for: Seq<Option<Reg>>,
    spill_for: Seq<Option<u32>>,
    remat_for: Seq<Option<u32>>,
    at: Places,
) -> bool {
    &&& reg_for.len() == spill_for.len() == remat_for.len()
    &&& reg_for.len() <= u32::MAX + 1
    &&& forall|v: int|
        0 <= v < reg_for.len() ==> #[trigger] listed(reg_for, spill_for, remat_for, at, v)
}

} // verus!
