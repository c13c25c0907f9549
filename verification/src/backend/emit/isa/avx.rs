//! AVX-512 kernels on 512-bit registers.
//!
//! Registers have the roles they have on the SSE machine. Three-operand
//! instructions overwrite no source, and there is a fused multiply-add. Spilled
//! values go to a real stack frame: a slot of the frame layout is 16 bytes, a
//! register 64, so offsets are scaled by four.

use crate::backend::emit::avx512;
use crate::backend::emit::avx512::{Avx512Code, MAP_0F, MAP_0F38, MAP_0F3A, PP_66, PP_F3, PP_NONE};
use crate::backend::emit::bytes::CodeBytes;
use crate::backend::emit::isa::sse::X86_SCHED_NUM_REGS;
use crate::backend::emit::isa::{Branch, Emitted, IsaBackend};
use crate::backend::emit::regalloc::ValueId;
use crate::backend::emit::schedule::ScheduledOp;
use crate::backend::emit::x86_64;
use crate::backend::emit::Reg;
use crate::kind::OpKind;
use vstd::prelude::*;

verus! {

/// Where a frame slot lies, 64 bytes to a slot.
pub open spec fn slot_disp(offset: u32) -> i32 {
    (offset / 16 * 64) as i32
}

/// Where a frame slot lies.
pub fn avx512_slot_disp(offset: u32) -> (d: i32)
    requires
        offset < 0x20_0000,
    ensures
        d == offset / 16 * 64,
        d == slot_disp(offset),
{
    (offset / 16 * 64) as i32
}

/// Size of the frame, 64 bytes to a slot.
pub fn avx512_frame_bytes(frame_size: u32) -> (n: u32)
    requires
        frame_size <= 0x20_0000,
    ensures
        n == frame_size / 16 * 64,
{
    frame_size / 16 * 64
}

/// AVX-512 machine.
pub struct Avx512Backend;

impl IsaBackend for Avx512Backend {
    open spec fn pool(&self) -> Seq<u32> {
        Seq::empty()
    }

    open spec fn anchor(&self) -> int {
        0
    }

    open spec fn budget(&self) -> u8 {
        X86_SCHED_NUM_REGS
    }

    open spec fn valid(&self) -> bool {
        true
    }

    open spec fn reload_pair() -> [Reg; 2] {
        [Reg(11), Reg(12)]
    }

    open spec fn const_code(code: Seq<u8>, pool: Seq<u32>, dst: Reg, bits: u32) -> Seq<u8> {
        code.splat(dst, bits)
    }

    open spec fn slot_ok(offset: u32) -> bool {
        true
    }

    open spec fn slot_error() -> &'static str {
        ""
    }

    open spec fn load_code(code: Seq<u8>, dst: Reg, offset: u32) -> Seq<u8> {
        code.evex_rsp(MAP_0F, PP_F3, 0x10, dst.0, slot_disp(offset))
    }

    open spec fn store_code(code: Seq<u8>, src: Reg, offset: u32) -> Seq<u8> {
        code.evex_rsp(MAP_0F, PP_F3, 0x11, src.0, slot_disp(offset))
    }

    open spec fn mov_code(code: Seq<u8>, dst: Reg, src: Reg) -> Seq<u8> {
        code.copied(dst, src)
    }

    open spec fn unary_ok(op: OpKind) -> bool {
        true
    }

    open spec fn unary_code(code: Seq<u8>, op: OpKind, dst: Reg, src: Reg) -> Result<
        Seq<u8>,
        &'static str,
    > {
        match avx512::unary_code(code, op, dst, src) {
            Some(c) => Ok(c),
            None => Err("avx512: unary op not in Stage-1 subset"),
        }
    }

    open spec fn shift_ok(op: OpKind, amount: u8) -> bool {
        true
    }

    open spec fn shift_code(code: Seq<u8>, op: OpKind, dst: Reg, src: Reg, amount: u8) -> Result<
        Seq<u8>,
        &'static str,
    > {
        Err("avx512: bit-shift (exp/log lowering) not yet supported")
    }

    open spec fn binary_ok(op: OpKind) -> bool {
        true
    }

    open spec fn binary_code(
        code: Seq<u8>,
        pool: Seq<u32>,
        op: OpKind,
        dst: Reg,
        left: Reg,
        right: Reg,
    ) -> Result<Emitted, &'static str> {
        match avx512::predicate(op) {
            Some(pred) => Ok((avx512::compare_code(code, pred, dst, left, right), pool)),
            None => match avx512::arith_opcode(op) {
                Some(opcode) => Ok(
                    (code.evex(MAP_0F, PP_NONE, opcode, dst.0, left.0, right.0), pool),
                ),
                None => Err("avx512: binary op not in Stage-1 subset"),
            },
        }
    }

    open spec fn arith_code(code: Seq<u8>, op: OpKind, dst: Reg, left: Reg, right: Reg) -> Seq<u8> {
        code.evex(MAP_0F, PP_NONE, avx512::arith_opcode(op)->0, dst.0, left.0, right.0)
    }

    open spec fn fma_code(code: Seq<u8>, dst: Reg, a: Reg, b: Reg) -> Seq<u8> {
        code.evex(MAP_0F38, PP_66, 0xB8, dst.0, a.0, b.0)
    }

    open spec fn select_code(code: Seq<u8>, dst: Reg, if_true: Reg, if_false: Reg) -> Seq<u8> {
        code.evex(MAP_0F3A, PP_66, 0x25, dst.0, if_true.0, if_false.0).byte(0xCA)
    }

    open spec fn skip_if_false(code: Seq<u8>, mask: Reg) -> (Seq<u8>, Branch) {
        let code = avx512::mask_flags_code(code, mask);
        (code.byte(0x0F).byte(0x84).inst(0), Branch::Cond((code.len() + 2) as usize))
    }

    open spec fn skip_if_true(code: Seq<u8>, mask: Reg) -> (Seq<u8>, Branch) {
        let code = avx512::mask_flags_code(code, mask);
        (code.byte(0x0F).byte(0x82).inst(0), Branch::Cond((code.len() + 2) as usize))
    }

    open spec fn jump_code(code: Seq<u8>) -> (Seq<u8>, Branch) {
        (code.byte(0xE9).inst(0), Branch::Jump((code.len() + 1) as usize))
    }

    open spec fn patched(code: Seq<u8>, branch: Branch, target: int) -> Seq<u8> {
        x86_64::rel32_patched(code, branch.at(), target)
    }

    open spec fn reaches(branch: Branch, target: int) -> bool {
        true
    }

    open spec fn begun(sched: Seq<(ValueId, ScheduledOp)>) -> Result<Seq<u32>, &'static str> {
        Ok(Seq::empty())
    }

    open spec fn entered(code: Seq<u8>, frame: u32) -> (Seq<u8>, int) {
        if frame / 16 > 0 {
            (code.byte(0x48).byte(0x81).byte(0xEC).inst((frame / 16 * 64) as u32), 0)
        } else {
            (code, 0)
        }
    }

    open spec fn finished(
        code: Seq<u8>,
        pool: Seq<u32>,
        anchor: int,
        result: Reg,
        frame: u32,
    ) -> Seq<u8> {
        let code = code.copied(Reg(0), result);
        if frame / 16 > 0 {
            code.byte(0x48).byte(0x81).byte(0xC4).inst((frame / 16 * 64) as u32).byte(0xC3)
        } else {
            code.byte(0xC3)
        }
    }

    open spec fn can_finish(
        code: Seq<u8>,
        pool: Seq<u32>,
        anchor: int,
        result: Reg,
        frame: u32,
    ) -> bool {
        true
    }

    proof fn branch_laws(code: Seq<u8>, mask: Reg, branch: Branch, target: int) {
    }

    proof fn growth_laws(
        code: Seq<u8>,
        pool: Seq<u32>,
        op: OpKind,
        d: Reg,
        a: Reg,
        b: Reg,
        w: u32,
    ) {
    }

    fn num_regs(&self) -> (n: u8) {
        X86_SCHED_NUM_REGS
    }

    fn reload_regs() -> (r: [Reg; 2]) {
        [Reg(11), Reg(12)]
    }

    fn begin(&mut self, _schedule: &[(ValueId, ScheduledOp)]) -> (r: Result<(), &'static str>) {
        Ok(())
    }

    fn prologue(&mut self, code: &mut Vec<u8>, frame_size: u32) {
        let bytes: u32 = avx512_frame_bytes(frame_size);
        if bytes > 0 {
            avx512::emit_sub_rsp(code, bytes);
        }
    }

    fn emit_const(&self, code: &mut Vec<u8>, dst: Reg, bits: u32) {
        avx512::emit_const(code, dst, bits);
    }

    fn emit_load(&self, code: &mut Vec<u8>, dst: Reg, offset: u32) -> (r: Result<
        (),
        &'static str,
    >) {
        avx512::emit_load_rsp(code, dst, avx512_slot_disp(offset));
        Ok(())
    }

    fn emit_store(&self, code: &mut Vec<u8>, src: Reg, offset: u32) -> (r: Result<
        (),
        &'static str,
    >) {
        avx512::emit_store_rsp(code, src, avx512_slot_disp(offset));
        Ok(())
    }

    fn emit_mov(&self, code: &mut Vec<u8>, dst: Reg, src: Reg) {
        avx512::emit_mov(code, dst, src);
    }

    fn emit_unary(&mut self, code: &mut Vec<u8>, op: OpKind, dst: Reg, src: Reg) -> (r: Result<
        (),
        &'static str,
    >) {
        avx512::emit_unary(code, op, dst, src)
    }

    fn emit_shift(
        &self,
        _code: &mut Vec<u8>,
        _op: OpKind,
        _dst: Reg,
        _src: Reg,
        _amount: u8,
    ) -> (r: Result<(), &'static str>) {
        Err("avx512: bit-shift (exp/log lowering) not yet supported")
    }

    fn emit_binary(
        &mut self,
        code: &mut Vec<u8>,
        op: OpKind,
        dst: Reg,
        left: Reg,
        right: Reg,
    ) -> (r: Result<(), &'static str>) {
        if avx512::is_compare(op) {
            avx512::emit_compare(code, op, dst, left, right)
        } else {
            avx512::emit_binary(code, op, dst, left, right)
        }
    }

    fn emit_arith(&self, code: &mut Vec<u8>, op: OpKind, dst: Reg, left: Reg, right: Reg) {
        let _r = avx512::emit_binary(code, op, dst, left, right);
    }

    fn emit_fma(&self, code: &mut Vec<u8>, dst: Reg, a: Reg, b: Reg) {
        avx512::emit_fmadd_c_in_dst(code, dst, a, b);
    }

    fn emit_select(&self, code: &mut Vec<u8>, dst: Reg, if_true: Reg, if_false: Reg) {
        avx512::emit_select(code, dst, if_true, if_false);
    }

    fn emit_skip_if_all_false(&self, code: &mut Vec<u8>, mask_reg: Reg) -> (b: Branch) {
        avx512::emit_mask_flags(code, mask_reg);
        Branch::Cond(x86_64::emit_jcc_rel32(code, 0x84))
    }

    fn emit_skip_if_all_true(&self, code: &mut Vec<u8>, mask_reg: Reg) -> (b: Branch) {
        avx512::emit_mask_flags(code, mask_reg);
        Branch::Cond(x86_64::emit_jcc_rel32(code, 0x82))
    }

    fn emit_jump(&self, code: &mut Vec<u8>) -> (b: Branch) {
        Branch::Jump(x86_64::emit_jmp_rel32(code))
    }

    fn patch_branch(&self, code: &mut Vec<u8>, branch: Branch, target: usize) {
        let pos: usize = match branch {
            Branch::Cond(p) => p,
            Branch::Jump(p) => p,
        };
        x86_64::patch_rel32(code, pos, target);
    }

    fn epilogue(&mut self, code: &mut Vec<u8>, result_reg: Reg, frame_size: u32) -> (done: bool) {
        avx512::emit_mov(code, Reg(0), result_reg);
        let bytes: u32 = avx512_frame_bytes(frame_size);
        if bytes > 0 {
            avx512::emit_add_rsp(code, bytes);
        }
        avx512::emit_ret(code);
        true
    }

    fn can_unary(_op: OpKind) -> (b: bool) {
        true
    }

    fn can_shift(_op: OpKind, _amount: u8) -> (b: bool) {
        true
    }

    fn can_binary(_op: OpKind) -> (b: bool) {
        true
    }

    fn can_address(_offset: u32) -> (b: bool) {
        true
    }

    fn can_reach(_branch: Branch, _target: usize) -> (b: bool) {
        true
    }
}

} // verus!
