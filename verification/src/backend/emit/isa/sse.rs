//! SSE and AVX kernels on 128-bit registers.
//!
//! xmm0 to xmm3 hold the inputs, xmm4 to xmm9 values, xmm10 is scratch, xmm11
//! and xmm12 serve spilled values, xmm13 to xmm15 builtins. Spilled values go to
//! the red zone below the stack pointer, which a leaf function may use: slot 0
//! is 16 bytes below it.

use crate::backend::emit::bytes::CodeBytes;
use crate::backend::emit::isa::{Branch, Emitted, IsaBackend};
use crate::backend::emit::regalloc::ValueId;
use crate::backend::emit::schedule::ScheduledOp;
use crate::backend::emit::Reg;
use crate::kind::OpKind;
use crate::backend::emit::x86_64;
use crate::backend::emit::x86_64::X86Code;
use vstd::prelude::*;

verus! {

/// Allocatable registers: xmm4 to xmm9.
pub const X86_SCHED_NUM_REGS: u8 = 6;

/// Displacement of a frame slot from the stack pointer.
pub open spec fn redzone(offset: u32) -> i8 {
    (-(offset + 16)) as i8
}

/// The slot lies in the 128-byte red zone.
pub open spec fn in_redzone(offset: u32) -> bool {
    offset + 16 <= 128
}

/// Displacement of a frame slot, if it lies in the red zone.
pub fn x86_redzone_disp(offset: u32) -> (r: Result<i8, &'static str>)
    ensures
        match r {
            Ok(d) => in_redzone(offset) && d == -(offset + 16) && d == redzone(offset),
            Err(e) => !in_redzone(offset) && e
                == "x86 scheduled: spill frame exceeds 128-byte red zone",
        },
{
    if offset > 112 {
        return Err("x86 scheduled: spill frame exceeds 128-byte red zone");
    }
    Ok((-(offset as i32 + 16)) as i8)
}

/// The machine has an instruction for the binary operation.
pub open spec fn sse_binary(op: OpKind) -> bool {
    match op {
        OpKind::Add | OpKind::Sub | OpKind::Mul | OpKind::Div | OpKind::Min | OpKind::Max => true,
        OpKind::Eq | OpKind::Ne | OpKind::Lt | OpKind::Le | OpKind::Gt | OpKind::Ge => true,
        OpKind::IAdd | OpKind::BitAnd | OpKind::BitOr => true,
        _ => false,
    }
}

/// Swapping the operands does not matter.
pub open spec fn commutes(op: OpKind) -> bool {
    match op {
        OpKind::Add | OpKind::Mul | OpKind::Min | OpKind::Max | OpKind::Eq | OpKind::Ne => true,
        _ => false,
    }
}

/// Code of a binary operation whose destination may be its right operand, which
/// the two-operand form would overwrite too early: the operands are swapped, or
/// the right one is saved in xmm10.
pub open spec fn hazard_free(code: Seq<u8>, op: OpKind, dst: Reg, left: Reg, right: Reg) -> Seq<
    u8,
> {
    if dst == left || dst != right {
        x86_64::binary_code(code, op, dst, left, right)->0
    } else if commutes(op) {
        x86_64::binary_code(code, op, dst, right, left)->0
    } else {
        x86_64::binary_code(
            code.sse(0x28, Reg(10), right).sse(0x28, dst, left),
            op,
            dst,
            dst,
            Reg(10),
        )->0
    }
}

/// Emit `dst = left op right` for any registers.
pub fn emit_binary_safe(code: &mut Vec<u8>, op: OpKind, dst: Reg, left: Reg, right: Reg)
    requires
        sse_binary(op),
    ensures
        final(code)@ == hazard_free(old(code)@, op, dst, left, right),
{
    let commutative: bool = match op {
        OpKind::Add | OpKind::Mul | OpKind::Min | OpKind::Max | OpKind::Eq | OpKind::Ne => true,
        _ => false,
    };
    if dst.0 == left.0 || dst.0 != right.0 {
        x86_64::emit_binary(code, op, dst, left, right);
    } else if commutative {
        x86_64::emit_binary(code, op, dst, right, left);
    } else {
        x86_64::emit_movaps(code, Reg(10), right);
        x86_64::emit_movaps(code, dst, left);
        x86_64::emit_binary(code, op, dst, dst, Reg(10));
    }
}

/// SSE and AVX machine.
pub struct X86Backend;

/// Scratch registers of builtins.
pub open spec fn builtin_scratch() -> [Reg; 4] {
    [Reg(10), Reg(13), Reg(14), Reg(15)]
}

impl IsaBackend for X86Backend {
    open spec fn pool(&self) -> Seq<u32> {
        Seq::empty()
    }

    open spec fn anchor(&self) -> int {
        0
    }

    open spec fn budget(&self) -> u8 {
        X86_SCHED_NUM_REGS
    }

    open spec fn valid(&self) -> bool {
        true
    }

    open spec fn reload_pair() -> [Reg; 2] {
        [Reg(11), Reg(12)]
    }

    open spec fn const_code(code: Seq<u8>, pool: Seq<u32>, dst: Reg, bits: u32) -> Seq<u8> {
        code.constant(dst, bits)
    }

    open spec fn slot_ok(offset: u32) -> bool {
        in_redzone(offset)
    }

    open spec fn slot_error() -> &'static str {
        "x86 scheduled: spill frame exceeds 128-byte red zone"
    }

    open spec fn load_code(code: Seq<u8>, dst: Reg, offset: u32) -> Seq<u8> {
        code.at_rsp(0x10, dst, redzone(offset))
    }

    open spec fn store_code(code: Seq<u8>, src: Reg, offset: u32) -> Seq<u8> {
        code.at_rsp(0x11, src, redzone(offset))
    }

    open spec fn mov_code(code: Seq<u8>, dst: Reg, src: Reg) -> Seq<u8> {
        code.sse(0x28, dst, src)
    }

    open spec fn unary_ok(op: OpKind) -> bool {
        match op {
            OpKind::Sqrt | OpKind::Rsqrt | OpKind::Recip | OpKind::Neg | OpKind::Abs => true,
            OpKind::Floor | OpKind::Ceil | OpKind::Round | OpKind::Fract => true,
            OpKind::TruncToInt | OpKind::IntToFloat => true,
            _ => false,
        }
    }

    open spec fn unary_code(code: Seq<u8>, op: OpKind, dst: Reg, src: Reg) -> Result<
        Seq<u8>,
        &'static str,
    > {
        Ok(x86_64::unary_code(code, op, dst, src, builtin_scratch())->0)
    }

    open spec fn shift_ok(op: OpKind, amount: u8) -> bool {
        op is Shl || op is Shr
    }

    open spec fn shift_code(code: Seq<u8>, op: OpKind, dst: Reg, src: Reg, amount: u8) -> Result<
        Seq<u8>,
        &'static str,
    > {
        Ok(
            code.shift(
                if op is Shl {
                    6u8
                } else {
                    2u8
                },
                dst,
                src,
                amount,
            ),
        )
    }

    open spec fn binary_ok(op: OpKind) -> bool {
        sse_binary(op) || op is Pow || op is Hypot
    }

    open spec fn binary_code(
        code: Seq<u8>,
        pool: Seq<u32>,
        op: OpKind,
        dst: Reg,
        left: Reg,
        right: Reg,
    ) -> Result<Emitted, &'static str> {
        match op {
            OpKind::Pow => Ok((x86_64::pow_code(code, dst, left, right, builtin_scratch()), pool)),
            OpKind::Hypot => Ok(
                (x86_64::hypot_code(code, dst, left, right, builtin_scratch()), pool),
            ),
            _ => Ok((hazard_free(code, op, dst, left, right), pool)),
        }
    }

    open spec fn arith_code(code: Seq<u8>, op: OpKind, dst: Reg, left: Reg, right: Reg) -> Seq<u8> {
        hazard_free(code, op, dst, left, right)
    }

    open spec fn fma_code(code: Seq<u8>, dst: Reg, a: Reg, b: Reg) -> Seq<u8> {
        let code = code.sse(0x28, Reg(10), a);
        let code = x86_64::binary_code(code, OpKind::Mul, Reg(10), Reg(10), b)->0;
        x86_64::binary_code(code, OpKind::Add, dst, dst, Reg(10))->0
    }

    open spec fn select_code(code: Seq<u8>, dst: Reg, if_true: Reg, if_false: Reg) -> Seq<u8> {
        x86_64::blend_code(code, dst, dst, if_true, if_false, Reg(10))
    }

    open spec fn skip_if_false(code: Seq<u8>, mask: Reg) -> (Seq<u8>, Branch) {
        let code = code.sse(0x50, Reg(0), mask).byte(0x85).byte(0xC0);
        (code.byte(0x0F).byte(0x84).inst(0), Branch::Cond((code.len() + 2) as usize))
    }

    open spec fn skip_if_true(code: Seq<u8>, mask: Reg) -> (Seq<u8>, Branch) {
        let code = code.sse(0x50, Reg(0), mask).byte(0x83).byte(0xF8).byte(0x0F);
        (code.byte(0x0F).byte(0x84).inst(0), Branch::Cond((code.len() + 2) as usize))
    }

    open spec fn jump_code(code: Seq<u8>) -> (Seq<u8>, Branch) {
        (code.byte(0xE9).inst(0), Branch::Jump((code.len() + 1) as usize))
    }

    open spec fn patched(code: Seq<u8>, branch: Branch, target: int) -> Seq<u8> {
        x86_64::rel32_patched(code, branch.at(), target)
    }

    open spec fn reaches(branch: Branch, target: int) -> bool {
        true
    }

    open spec fn begun(sched: Seq<(ValueId, ScheduledOp)>) -> Result<Seq<u32>, &'static str> {
        Ok(Seq::empty())
    }

    open spec fn entered(code: Seq<u8>, frame: u32) -> (Seq<u8>, int) {
        (code, 0)
    }

    open spec fn finished(
        code: Seq<u8>,
        pool: Seq<u32>,
        anchor: int,
        result: Reg,
        frame: u32,
    ) -> Seq<u8> {
        x86_64::copy_code(code, Reg(0), result).byte(0xC3)
    }

    open spec fn can_finish(
        code: Seq<u8>,
        pool: Seq<u32>,
        anchor: int,
        result: Reg,
        frame: u32,
    ) -> bool {
        true
    }

    proof fn branch_laws(code: Seq<u8>, mask: Reg, branch: Branch, target: int) {
    }

    proof fn growth_laws(
        code: Seq<u8>,
        pool: Seq<u32>,
        op: OpKind,
        d: Reg,
        a: Reg,
        b: Reg,
        w: u32,
    ) {
        reveal(x86_64::vex_code);
        reveal(x86_64::constant_code);
        x86_64::lemma_pow_grows(code, d, a, b, builtin_scratch());
    }

    fn num_regs(&self) -> (n: u8) {
        X86_SCHED_NUM_REGS
    }

    fn reload_regs() -> (r: [Reg; 2]) {
        [Reg(11), Reg(12)]
    }

    fn begin(&mut self, _schedule: &[(ValueId, ScheduledOp)]) -> (r: Result<(), &'static str>) {
        Ok(())
    }

    fn prologue(&mut self, _code: &mut Vec<u8>, _frame_size: u32) {
    }

    fn emit_const(&self, code: &mut Vec<u8>, dst: Reg, bits: u32) {
        x86_64::emit_const(code, dst, bits, [Reg(10), Reg(13), Reg(14), Reg(15)]);
    }

    fn emit_load(&self, code: &mut Vec<u8>, dst: Reg, offset: u32) -> (r: Result<
        (),
        &'static str,
    >) {
        match x86_redzone_disp(offset) {
            Ok(disp) => {
                x86_64::emit_movups_load_rsp(code, dst, disp);
                Ok(())
            },
            Err(e) => Err(e),
        }
    }

    fn emit_store(&self, code: &mut Vec<u8>, src: Reg, offset: u32) -> (r: Result<
        (),
        &'static str,
    >) {
        match x86_redzone_disp(offset) {
            Ok(disp) => {
                x86_64::emit_movups_store_rsp(code, src, disp);
                Ok(())
            },
            Err(e) => Err(e),
        }
    }

    fn emit_mov(&self, code: &mut Vec<u8>, dst: Reg, src: Reg) {
        x86_64::emit_movaps(code, dst, src);
    }

    fn emit_unary(&mut self, code: &mut Vec<u8>, op: OpKind, dst: Reg, src: Reg) -> (r: Result<
        (),
        &'static str,
    >) {
        x86_64::emit_unary(code, op, dst, src, [Reg(10), Reg(13), Reg(14), Reg(15)]);
        Ok(())
    }

    fn emit_shift(
        &self,
        code: &mut Vec<u8>,
        op: OpKind,
        dst: Reg,
        src: Reg,
        amount: u8,
    ) -> (r: Result<(), &'static str>) {
        x86_64::emit_shift_imm(code, op, dst, src, amount);
        Ok(())
    }

    fn emit_binary(
        &mut self,
        code: &mut Vec<u8>,
        op: OpKind,
        dst: Reg,
        left: Reg,
        right: Reg,
    ) -> (r: Result<(), &'static str>) {
        match op {
            OpKind::Pow | OpKind::Hypot => x86_64::emit_binary_transcendental(
                code,
                op,
                dst,
                left,
                right,
                [Reg(10), Reg(13), Reg(14), Reg(15)],
            ),
            _ => emit_binary_safe(code, op, dst, left, right),
        }
        Ok(())
    }

    fn emit_arith(&self, code: &mut Vec<u8>, op: OpKind, dst: Reg, left: Reg, right: Reg) {
        emit_binary_safe(code, op, dst, left, right);
    }

    fn emit_fma(&self, code: &mut Vec<u8>, dst: Reg, a: Reg, b: Reg) {
        x86_64::emit_movaps(code, Reg(10), a);
        x86_64::emit_binary(code, OpKind::Mul, Reg(10), Reg(10), b);
        x86_64::emit_binary(code, OpKind::Add, dst, dst, Reg(10));
    }

    fn emit_select(&self, code: &mut Vec<u8>, dst: Reg, if_true: Reg, if_false: Reg) {
        x86_64::emit_select(code, dst, dst, if_true, if_false, Reg(10));
    }

    fn emit_skip_if_all_false(&self, code: &mut Vec<u8>, mask_reg: Reg) -> (b: Branch) {
        x86_64::emit_movmskps_eax(code, mask_reg);
        x86_64::emit_test_eax(code);
        Branch::Cond(x86_64::emit_jcc_rel32(code, 0x84))
    }

    fn emit_skip_if_all_true(&self, code: &mut Vec<u8>, mask_reg: Reg) -> (b: Branch) {
        x86_64::emit_movmskps_eax(code, mask_reg);
        x86_64::emit_cmp_eax_imm8(code, 0x0F);
        Branch::Cond(x86_64::emit_jcc_rel32(code, 0x84))
    }

    fn emit_jump(&self, code: &mut Vec<u8>) -> (b: Branch) {
        Branch::Jump(x86_64::emit_jmp_rel32(code))
    }

    fn patch_branch(&self, code: &mut Vec<u8>, branch: Branch, target: usize) {
        let pos: usize = match branch {
            Branch::Cond(p) => p,
            Branch::Jump(p) => p,
        };
        x86_64::patch_rel32(code, pos, target);
    }

    fn epilogue(&mut self, code: &mut Vec<u8>, result_reg: Reg, _frame_size: u32) -> (done: bool) {
        x86_64::emit_epilogue(code, result_reg);
        true
    }

    fn can_unary(op: OpKind) -> (b: bool) {
        match op {
            OpKind::Sqrt | OpKind::Rsqrt | OpKind::Recip | OpKind::Neg | OpKind::Abs => true,
            OpKind::Floor | OpKind::Ceil | OpKind::Round | OpKind::Fract => true,
            OpKind::TruncToInt | OpKind::IntToFloat => true,
            _ => false,
        }
    }

    fn can_shift(op: OpKind, _amount: u8) -> (b: bool) {
        match op {
            OpKind::Shl | OpKind::Shr => true,
            _ => false,
        }
    }

    fn can_binary(op: OpKind) -> (b: bool) {
        match op {
            OpKind::Add | OpKind::Sub | OpKind::Mul | OpKind::Div | OpKind::Min
            | OpKind::Max => true,
            OpKind::Eq | OpKind::Ne | OpKind::Lt | OpKind::Le | OpKind::Gt | OpKind::Ge => true,
            OpKind::IAdd | OpKind::BitAnd | OpKind::BitOr => true,
            OpKind::Pow | OpKind::Hypot => true,
            _ => false,
        }
    }

    fn can_address(offset: u32) -> (b: bool) {
        offset <= 112
    }

    fn can_reach(_branch: Branch, _target: usize) -> (b: bool) {
        true
    }
}

} // verus!
