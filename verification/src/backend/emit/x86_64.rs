//! x86-64 SSE and AVX instruction encoding.
//!
//! Legacy SSE instructions have two operands and overwrite the first; VEX
//! instructions have three.

use crate::backend::emit::bytes::{emit32, with_word, word_at, write32, CodeBytes};
use crate::backend::emit::Reg;
use crate::kind::OpKind;
use vstd::prelude::*;

pub mod effects;
pub mod model;

verus! {

/// Comparison predicate: equal, ordered.
pub const PRED_EQ: u8 = 0;

/// Comparison predicate: less than.
pub const PRED_LT: u8 = 1;

/// Comparison predicate: less or equal.
pub const PRED_LE: u8 = 2;

/// Comparison predicate: not equal.
pub const PRED_NEQ: u8 = 4;

/// Comparison predicate: not less than.
pub const PRED_GE: u8 = 5;

/// Comparison predicate: not less or equal.
pub const PRED_NLE: u8 = 6;

/// Register operand byte.
pub open spec fn modrm(reg: Reg, rm: Reg) -> u8 {
    0xC0u8 | ((reg.0 & 7) << 3) | (rm.0 & 7)
}

/// Prefix byte that extends `reg` and `rm` to sixteen registers.
pub open spec fn rex(reg: Reg, rm: Reg) -> u8 {
    if reg.0 >= 8 {
        if rm.0 >= 8 {
            0x45
        } else {
            0x44
        }
    } else if rm.0 >= 8 {
        0x41
    } else {
        0x40
    }
}

/// Appending instructions to a byte sequence, for use in contracts.
pub trait X86Code: Sized {
    /// The prefix, if one of the registers needs it.
    spec fn rex_if(self, reg: Reg, rm: Reg) -> Self;

    /// Legacy SSE instruction `dst op= src`.
    spec fn sse(self, opcode: u8, dst: Reg, src: Reg) -> Self;

    /// VEX instruction on 128 bits. An unused `vvvv` is register 0.
    spec fn vex(self, pp: u8, map: u8, reg: Reg, vvvv: Reg, rm: Reg, opcode: u8) -> Self;

    /// VEX instruction `dst = op(src1, src2)` on packed floats.
    spec fn vop(self, opcode: u8, dst: Reg, src1: Reg, src2: Reg) -> Self;

    /// Rounding: 0 to nearest, 1 down, 2 up.
    spec fn rounded(self, dst: Reg, src: Reg, mode: u8) -> Self;

    /// Shift of integer lanes by an immediate; `ext` selects the direction.
    spec fn shift(self, ext: u8, dst: Reg, src: Reg, amount: u8) -> Self;

    /// A constant in every lane: zero by XOR, anything else from four copies in
    /// the code that a jump skips.
    spec fn constant(self, dst: Reg, bits: u32) -> Self;

    /// An instruction on memory at the stack pointer plus a displacement.
    spec fn at_rsp(self, opcode: u8, reg: Reg, disp: i8) -> Self;

    /// An instruction on memory at RDI plus an offset.
    spec fn at_rdi(self, opcode: u8, reg: Reg, offset: u16) -> Self;
}

impl X86Code for Seq<u8> {
    open spec fn rex_if(self, reg: Reg, rm: Reg) -> Seq<u8> {
        if rex(reg, rm) != 0x40 {
            self.byte(rex(reg, rm))
        } else {
            self
        }
    }

    open spec fn sse(self, opcode: u8, dst: Reg, src: Reg) -> Seq<u8> {
        self.rex_if(dst, src).byte(0x0F).byte(opcode).byte(modrm(dst, src))
    }

    open spec fn vex(self, pp: u8, map: u8, reg: Reg, vvvv: Reg, rm: Reg, opcode: u8) -> Seq<u8> {
        vex_code(self, pp, map, reg, vvvv, rm, opcode)
    }

    open spec fn vop(self, opcode: u8, dst: Reg, src1: Reg, src2: Reg) -> Seq<u8> {
        self.vex(0, 1, dst, src1, src2, opcode)
    }

    open spec fn rounded(self, dst: Reg, src: Reg, mode: u8) -> Seq<u8> {
        self.vex(1, 3, dst, Reg(0), src, 0x08).byte(mode)
    }

    open spec fn shift(self, ext: u8, dst: Reg, src: Reg, amount: u8) -> Seq<u8> {
        self.vex(1, 1, Reg(ext), dst, src, 0x72).byte(amount)
    }

    open spec fn constant(self, dst: Reg, bits: u32) -> Seq<u8> {
        constant_code(self, dst, bits)
    }

    open spec fn at_rsp(self, opcode: u8, reg: Reg, disp: i8) -> Seq<u8> {
        self.rex_if(reg, Reg(0)).byte(0x0F).byte(opcode).byte(0x44u8 | ((reg.0 & 7) << 3)).byte(
            0x24,
        ).byte(disp as u8)
    }

    open spec fn at_rdi(self, opcode: u8, reg: Reg, offset: u16) -> Seq<u8> {
        let code = self.rex_if(reg, Reg(0)).byte(0x0F).byte(opcode);
        if offset == 0 {
            code.byte(0x07u8 | ((reg.0 & 7) << 3))
        } else if offset < 128 {
            code.byte(0x47u8 | ((reg.0 & 7) << 3)).byte(offset as u8)
        } else {
            code.byte(0x87u8 | ((reg.0 & 7) << 3)).inst(offset as u32)
        }
    }
}

/// VEX instruction on 128 bits.
#[verifier::opaque]
pub open spec fn vex_code(
    code: Seq<u8>,
    pp: u8,
    map: u8,
    reg: Reg,
    vvvv: Reg,
    rm: Reg,
    opcode: u8,
) -> Seq<u8> {
    let r: u8 = if reg.0 >= 8 {
        0x00
    } else {
        0x80
    };
    let b: u8 = if rm.0 >= 8 {
        0x00
    } else {
        0x20
    };
    code.byte(0xC4).byte(r | 0x40 | b | map).byte(((!vvvv.0 & 0xF) << 3) | pp).byte(
        opcode,
    ).byte(modrm(reg, rm))
}

/// A constant in every lane.
#[verifier::opaque]
pub open spec fn constant_code(code: Seq<u8>, dst: Reg, bits: u32) -> Seq<u8> {
    if bits == 0 {
        code.vop(0x57, dst, dst, dst)
    } else {
        let data = code.byte(0xEB).byte(0x10).inst(bits).inst(bits).inst(bits).inst(bits);
        let load = data.rex_if(dst, Reg(0)).byte(0x0F).byte(0x10).byte(
            0x05u8 | ((dst.0 & 7) << 3),
        );
        if dst.0 >= 8 {
            load.inst(0xFFFFFFE8)
        } else {
            load.inst(0xFFFFFFE9)
        }
    }
}

/// Register operand byte.
fn encode_modrm(reg: Reg, rm: Reg) -> (b: u8)
    ensures
        b == modrm(reg, rm),
{
    0xC0u8 | ((reg.0 & 7) << 3) | (rm.0 & 7)
}

/// Emit the register prefix if one of the registers needs it.
fn emit_rex(code: &mut Vec<u8>, reg: Reg, rm: Reg)
    ensures
        final(code)@ == old(code)@.rex_if(reg, rm),
{
    if reg.0 >= 8 {
        code.push(
            if rm.0 >= 8 {
                0x45
            } else {
                0x44
            },
        );
    } else if rm.0 >= 8 {
        code.push(0x41);
    }
}

/// Emit a legacy SSE instruction `dst op= src`.
fn emit_sse_rr(code: &mut Vec<u8>, opcode: u8, dst: Reg, src: Reg)
    ensures
        final(code)@ == old(code)@.sse(opcode, dst, src),
{
    emit_rex(code, dst, src);
    code.push(0x0F);
    code.push(opcode);
    code.push(encode_modrm(dst, src));
}

/// Emit a VEX instruction on 128 bits. `pp` is the mandatory prefix (1 for 66,
/// 2 for F3), `map` the opcode map (1 for 0F, 3 for 0F3A).
fn emit_vex(code: &mut Vec<u8>, pp: u8, map: u8, reg: Reg, vvvv: Reg, rm: Reg, opcode: u8)
    ensures
        final(code)@ == old(code)@.vex(pp, map, reg, vvvv, rm, opcode),
{
    proof {
        reveal(vex_code);
    }
    let r: u8 = if reg.0 >= 8 {
        0x00
    } else {
        0x80
    };
    let b: u8 = if rm.0 >= 8 {
        0x00
    } else {
        0x20
    };
    code.push(0xC4);
    code.push(r | 0x40 | b | map);
    code.push(((!vvvv.0 & 0xF) << 3) | pp);
    code.push(opcode);
    code.push(encode_modrm(reg, rm));
}

/// Emit an instruction on memory at RDI plus an offset.
fn emit_at_rdi(code: &mut Vec<u8>, opcode: u8, reg: Reg, offset: u16)
    ensures
        final(code)@ == old(code)@.at_rdi(opcode, reg, offset),
{
    emit_rex(code, reg, Reg(0));
    code.push(0x0F);
    code.push(opcode);
    if offset == 0 {
        code.push(0x07u8 | ((reg.0 & 7) << 3));
    } else if offset < 128 {
        code.push(0x47u8 | ((reg.0 & 7) << 3));
        code.push(offset as u8);
    } else {
        code.push(0x87u8 | ((reg.0 & 7) << 3));
        emit32(code, offset as u32);
    }
}

/// Emit an instruction on memory at the stack pointer plus a displacement.
fn emit_at_rsp(code: &mut Vec<u8>, opcode: u8, reg: Reg, disp: i8)
    ensures
        final(code)@ == old(code)@.at_rsp(opcode, reg, disp),
{
    emit_rex(code, reg, Reg(0));
    code.push(0x0F);
    code.push(opcode);
    code.push(0x44u8 | ((reg.0 & 7) << 3));
    code.push(0x24);
    code.push(disp as u8);
}

/// MOVAPS xmm, [rdi + offset]
pub fn emit_movaps_load(code: &mut Vec<u8>, dst: Reg, offset: u16)
    ensures
        final(code)@ == old(code)@.at_rdi(0x28, dst, offset),
{
    emit_at_rdi(code, 0x28, dst, offset);
}

/// MOVAPS [rdi + offset], xmm
pub fn emit_movaps_store(code: &mut Vec<u8>, src: Reg, offset: u16)
    ensures
        final(code)@ == old(code)@.at_rdi(0x29, src, offset),
{
    emit_at_rdi(code, 0x29, src, offset);
}

/// MOVUPS [rsp + disp8], xmm
pub fn emit_movups_store_rsp(code: &mut Vec<u8>, src: Reg, disp: i8)
    ensures
        final(code)@ == old(code)@.at_rsp(0x11, src, disp),
{
    emit_at_rsp(code, 0x11, src, disp);
}

/// MOVUPS xmm, [rsp + disp8]
pub fn emit_movups_load_rsp(code: &mut Vec<u8>, dst: Reg, disp: i8)
    ensures
        final(code)@ == old(code)@.at_rsp(0x10, dst, disp),
{
    emit_at_rsp(code, 0x10, dst, disp);
}

/// MOVAPS xmm, xmm
pub fn emit_movaps(code: &mut Vec<u8>, dst: Reg, src: Reg)
    ensures
        final(code)@ == old(code)@.sse(0x28, dst, src),
{
    emit_sse_rr(code, 0x28, dst, src);
}

/// ADDPS xmm, xmm
pub fn emit_addps(code: &mut Vec<u8>, dst: Reg, src: Reg)
    ensures
        final(code)@ == old(code)@.sse(0x58, dst, src),
{
    emit_sse_rr(code, 0x58, dst, src);
}

/// SUBPS xmm, xmm
pub fn emit_subps(code: &mut Vec<u8>, dst: Reg, src: Reg)
    ensures
        final(code)@ == old(code)@.sse(0x5C, dst, src),
{
    emit_sse_rr(code, 0x5C, dst, src);
}

/// MULPS xmm, xmm
pub fn emit_mulps(code: &mut Vec<u8>, dst: Reg, src: Reg)
    ensures
        final(code)@ == old(code)@.sse(0x59, dst, src),
{
    emit_sse_rr(code, 0x59, dst, src);
}

/// DIVPS xmm, xmm
pub fn emit_divps(code: &mut Vec<u8>, dst: Reg, src: Reg)
    ensures
        final(code)@ == old(code)@.sse(0x5E, dst, src),
{
    emit_sse_rr(code, 0x5E, dst, src);
}

/// SQRTPS xmm, xmm
pub fn emit_sqrtps(code: &mut Vec<u8>, dst: Reg, src: Reg)
    ensures
        final(code)@ == old(code)@.sse(0x51, dst, src),
{
    emit_sse_rr(code, 0x51, dst, src);
}

/// RSQRTPS xmm, xmm (approximate)
pub fn emit_rsqrtps(code: &mut Vec<u8>, dst: Reg, src: Reg)
    ensures
        final(code)@ == old(code)@.sse(0x52, dst, src),
{
    emit_sse_rr(code, 0x52, dst, src);
}

/// RCPPS xmm, xmm (approximate reciprocal)
pub fn emit_rcpps(code: &mut Vec<u8>, dst: Reg, src: Reg)
    ensures
        final(code)@ == old(code)@.sse(0x53, dst, src),
{
    emit_sse_rr(code, 0x53, dst, src);
}

/// MINPS xmm, xmm
pub fn emit_minps(code: &mut Vec<u8>, dst: Reg, src: Reg)
    ensures
        final(code)@ == old(code)@.sse(0x5D, dst, src),
{
    emit_sse_rr(code, 0x5D, dst, src);
}

/// MAXPS xmm, xmm
pub fn emit_maxps(code: &mut Vec<u8>, dst: Reg, src: Reg)
    ensures
        final(code)@ == old(code)@.sse(0x5F, dst, src),
{
    emit_sse_rr(code, 0x5F, dst, src);
}

/// XORPS xmm, xmm
pub fn emit_xorps(code: &mut Vec<u8>, dst: Reg, src: Reg)
    ensures
        final(code)@ == old(code)@.sse(0x57, dst, src),
{
    emit_sse_rr(code, 0x57, dst, src);
}

/// ANDPS xmm, xmm
pub fn emit_andps(code: &mut Vec<u8>, dst: Reg, src: Reg)
    ensures
        final(code)@ == old(code)@.sse(0x54, dst, src),
{
    emit_sse_rr(code, 0x54, dst, src);
}

/// VADDPS dst, src1, src2
fn emit_vaddps(code: &mut Vec<u8>, dst: Reg, src1: Reg, src2: Reg)
    ensures
        final(code)@ == old(code)@.vop(0x58, dst, src1, src2),
{
    emit_vex(code, 0, 1, dst, src1, src2, 0x58);
}

/// VSUBPS dst, src1, src2
fn emit_vsubps(code: &mut Vec<u8>, dst: Reg, src1: Reg, src2: Reg)
    ensures
        final(code)@ == old(code)@.vop(0x5C, dst, src1, src2),
{
    emit_vex(code, 0, 1, dst, src1, src2, 0x5C);
}

/// VMULPS dst, src1, src2
fn emit_vmulps(code: &mut Vec<u8>, dst: Reg, src1: Reg, src2: Reg)
    ensures
        final(code)@ == old(code)@.vop(0x59, dst, src1, src2),
{
    emit_vex(code, 0, 1, dst, src1, src2, 0x59);
}

/// VANDPS dst, src1, src2
fn emit_vandps(code: &mut Vec<u8>, dst: Reg, src1: Reg, src2: Reg)
    ensures
        final(code)@ == old(code)@.vop(0x54, dst, src1, src2),
{
    emit_vex(code, 0, 1, dst, src1, src2, 0x54);
}

/// VANDNPS dst, src1, src2: the complement of src1 and src2
fn emit_vandnps(code: &mut Vec<u8>, dst: Reg, src1: Reg, src2: Reg)
    ensures
        final(code)@ == old(code)@.vop(0x55, dst, src1, src2),
{
    emit_vex(code, 0, 1, dst, src1, src2, 0x55);
}

/// VORPS dst, src1, src2
fn emit_vorps(code: &mut Vec<u8>, dst: Reg, src1: Reg, src2: Reg)
    ensures
        final(code)@ == old(code)@.vop(0x56, dst, src1, src2),
{
    emit_vex(code, 0, 1, dst, src1, src2, 0x56);
}

/// VXORPS dst, src1, src2
fn emit_vxorps(code: &mut Vec<u8>, dst: Reg, src1: Reg, src2: Reg)
    ensures
        final(code)@ == old(code)@.vop(0x57, dst, src1, src2),
{
    emit_vex(code, 0, 1, dst, src1, src2, 0x57);
}

/// VSQRTPS dst, src
fn emit_vsqrtps(code: &mut Vec<u8>, dst: Reg, src: Reg)
    ensures
        final(code)@ == old(code)@.vop(0x51, dst, Reg(0), src),
{
    emit_vex(code, 0, 1, dst, Reg(0), src, 0x51);
}

/// VCMPPS dst, src1, src2, predicate: all ones where it holds, else zeros.
fn emit_vcompare(code: &mut Vec<u8>, dst: Reg, src1: Reg, src2: Reg, predicate: u8)
    ensures
        final(code)@ == old(code)@.vop(0xC2, dst, src1, src2).byte(predicate),
{
    emit_vex(code, 0, 1, dst, src1, src2, 0xC2);
    code.push(predicate);
}

/// VROUNDPS dst, src, imm8
fn emit_vroundps(code: &mut Vec<u8>, dst: Reg, src: Reg, imm: u8)
    ensures
        final(code)@ == old(code)@.rounded(dst, src, imm),
{
    emit_vex(code, 1, 3, dst, Reg(0), src, 0x08);
    code.push(imm);
}

/// VCVTTPS2DQ dst, src: float to integer, truncating.
fn emit_vcvttps2dq(code: &mut Vec<u8>, dst: Reg, src: Reg)
    ensures
        final(code)@ == old(code)@.vex(2, 1, dst, Reg(0), src, 0x5B),
{
    emit_vex(code, 2, 1, dst, Reg(0), src, 0x5B);
}

/// VCVTDQ2PS dst, src: integer to float.
fn emit_vcvtdq2ps(code: &mut Vec<u8>, dst: Reg, src: Reg)
    ensures
        final(code)@ == old(code)@.vex(0, 1, dst, Reg(0), src, 0x5B),
{
    emit_vex(code, 0, 1, dst, Reg(0), src, 0x5B);
}

/// VPADDD dst, src1, src2
fn emit_vpaddd(code: &mut Vec<u8>, dst: Reg, src1: Reg, src2: Reg)
    ensures
        final(code)@ == old(code)@.vex(1, 1, dst, src1, src2, 0xFE),
{
    emit_vex(code, 1, 1, dst, src1, src2, 0xFE);
}

/// VPSUBD dst, src1, src2
fn emit_vpsubd(code: &mut Vec<u8>, dst: Reg, src1: Reg, src2: Reg)
    ensures
        final(code)@ == old(code)@.vex(1, 1, dst, src1, src2, 0xFA),
{
    emit_vex(code, 1, 1, dst, src1, src2, 0xFA);
}

/// VPSLLD dst, src, imm8
fn emit_vpslld_imm(code: &mut Vec<u8>, dst: Reg, src: Reg, imm: u8)
    ensures
        final(code)@ == old(code)@.shift(6, dst, src, imm),
{
    emit_vex(code, 1, 1, Reg(6), dst, src, 0x72);
    code.push(imm);
}

/// VPSRLD dst, src, imm8
fn emit_vpsrld_imm(code: &mut Vec<u8>, dst: Reg, src: Reg, imm: u8)
    ensures
        final(code)@ == old(code)@.shift(2, dst, src, imm),
{
    emit_vex(code, 1, 1, Reg(2), dst, src, 0x72);
    code.push(imm);
}

/// Load a constant into every lane, relative to the instruction pointer: a jump
/// skips sixteen bytes of data, which an unaligned load then reads back.
fn emit_f32_const(code: &mut Vec<u8>, dst: Reg, bits: u32)
    ensures
        final(code)@ == old(code)@.constant(dst, bits),
{
    proof {
        reveal(constant_code);
    }
    if bits == 0 {
        emit_vxorps(code, dst, dst, dst);
        return;
    }
    code.push(0xEB);
    code.push(0x10);
    emit32(code, bits);
    emit32(code, bits);
    emit32(code, bits);
    emit32(code, bits);
    emit_rex(code, dst, Reg(0));
    code.push(0x0F);
    code.push(0x10);
    code.push(0x05u8 | ((dst.0 & 7) << 3));
    if dst.0 >= 8 {
        emit32(code, 0xFFFFFFE8);
    } else {
        emit32(code, 0xFFFFFFE9);
    }
}

/// Load the `f32` with the given bits into a register.
pub fn emit_const(code: &mut Vec<u8>, dst: Reg, bits: u32, _scratch: [Reg; 4])
    ensures
        final(code)@ == old(code)@.constant(dst, bits),
{
    emit_f32_const(code, dst, bits);
}

/// Code of a blend: `(mask & if_true) | (!mask & if_false)`.
pub open spec fn blend_code(
    code: Seq<u8>,
    dst: Reg,
    mask: Reg,
    if_true: Reg,
    if_false: Reg,
    tmp: Reg,
) -> Seq<u8> {
    code.vop(0x54, tmp, mask, if_true).vop(0x55, dst, mask, if_false).vop(0x56, dst, tmp, dst)
}

/// Choose by mask. `tmp` differs from the other registers.
pub fn emit_select(
    code: &mut Vec<u8>,
    dst: Reg,
    cond: Reg,
    if_true: Reg,
    if_false: Reg,
    tmp: Reg,
)
    ensures
        final(code)@ == blend_code(old(code)@, dst, cond, if_true, if_false, tmp),
{
    emit_vandps(code, tmp, cond, if_true);
    emit_vandnps(code, dst, cond, if_false);
    emit_vorps(code, dst, tmp, dst);
}

/// log2: exponent extraction, mantissa reduction, then a polynomial.
#[verifier::opaque]
pub open spec fn log2_body(code: Seq<u8>, dst: Reg, src: Reg, s0: Reg, s1: Reg, s2: Reg) -> Seq<u8> {
    let code = code.shift(2, s0, src, 23);
    let code = code.constant(s2, 127);
    let code = code.vex(1, 1, s0, s0, s2, 0xFA);
    let code = code.vex(0, 1, dst, Reg(0), s0, 0x5B);
    let code = code.constant(s2, 0x007FFFFF);
    let code = code.vop(0x54, s1, src, s2);
    let code = code.constant(s2, 0x3F800000);
    let code = code.vop(0x56, s1, s1, s2);
    let code = code.constant(s2, 0x3FB504F3);
    let code = code.vop(0xC2, s2, s1, s2).byte(PRED_GE);
    let code = code.constant(s0, 0x3F800000);
    let code = code.vop(0x54, s0, s0, s2);
    let code = code.vop(0x58, dst, dst, s0);
    let code = code.constant(s2, 0x3F000000);
    let code = code.vop(0x59, s2, s0, s2);
    let code = code.constant(s0, 0x3F800000);
    let code = code.vop(0x5C, s2, s0, s2);
    let code = code.vop(0x59, s1, s1, s2);
    let code = code.constant(s0, 0xBEA3DCBF);
    let code = code.constant(s2, 0x3FE61461);
    let code = code.vop(0x59, s0, s0, s1);
    let code = code.vop(0x58, s0, s0, s2);
    let code = code.constant(s2, 0xC0865C9B);
    let code = code.vop(0x59, s0, s0, s1);
    let code = code.vop(0x58, s0, s0, s2);
    let code = code.constant(s2, 0x40B743C6);
    let code = code.vop(0x59, s0, s0, s1);
    let code = code.vop(0x58, s0, s0, s2);
    let code = code.constant(s2, 0xC0405BFE);
    let code = code.vop(0x59, s0, s0, s1);
    let code = code.vop(0x58, s0, s0, s2);
    let code = code.vop(0x58, dst, dst, s0);
    code
}

/// Emit [`log2_body`].
fn emit_log2_body(code: &mut Vec<u8>, dst: Reg, src: Reg, s0: Reg, s1: Reg, s2: Reg)
    ensures
        final(code)@ == log2_body(old(code)@, dst, src, s0, s1, s2),
{
    reveal(log2_body);
    emit_vpsrld_imm(code, s0, src, 23);
    emit_f32_const(code, s2, 127);
    emit_vpsubd(code, s0, s0, s2);
    emit_vcvtdq2ps(code, dst, s0);
    emit_f32_const(code, s2, 0x007FFFFF);
    emit_vandps(code, s1, src, s2);
    emit_f32_const(code, s2, 0x3F800000);
    emit_vorps(code, s1, s1, s2);
    emit_f32_const(code, s2, 0x3FB504F3);
    emit_vcompare(code, s2, s1, s2, PRED_GE);
    emit_f32_const(code, s0, 0x3F800000);
    emit_vandps(code, s0, s0, s2);
    emit_vaddps(code, dst, dst, s0);
    emit_f32_const(code, s2, 0x3F000000);
    emit_vmulps(code, s2, s0, s2);
    emit_f32_const(code, s0, 0x3F800000);
    emit_vsubps(code, s2, s0, s2);
    emit_vmulps(code, s1, s1, s2);
    emit_f32_const(code, s0, 0xBEA3DCBF);
    emit_f32_const(code, s2, 0x3FE61461);
    emit_vmulps(code, s0, s0, s1);
    emit_vaddps(code, s0, s0, s2);
    emit_f32_const(code, s2, 0xC0865C9B);
    emit_vmulps(code, s0, s0, s1);
    emit_vaddps(code, s0, s0, s2);
    emit_f32_const(code, s2, 0x40B743C6);
    emit_vmulps(code, s0, s0, s1);
    emit_vaddps(code, s0, s0, s2);
    emit_f32_const(code, s2, 0xC0405BFE);
    emit_vmulps(code, s0, s0, s1);
    emit_vaddps(code, s0, s0, s2);
    emit_vaddps(code, dst, dst, s0);
}

/// exp2: split into whole and fraction, a polynomial, then scaling through the
/// exponent bits.
#[verifier::opaque]
pub open spec fn exp2_body(code: Seq<u8>, dst: Reg, src: Reg, s0: Reg, s1: Reg, s2: Reg) -> Seq<u8> {
    let code = code.rounded(s0, src, 1);
    let code = code.vop(0x5C, s1, src, s0);
    let code = code.constant(s2, 0x3C5E18BA);
    let code = code.constant(dst, 0x3D551FD2);
    let code = code.vop(0x59, s2, s2, s1);
    let code = code.vop(0x58, s2, s2, dst);
    let code = code.constant(dst, 0x3E772C23);
    let code = code.vop(0x59, s2, s2, s1);
    let code = code.vop(0x58, s2, s2, dst);
    let code = code.constant(dst, 0x3F317218);
    let code = code.vop(0x59, s2, s2, s1);
    let code = code.vop(0x58, s2, s2, dst);
    let code = code.constant(dst, 0x3F800000);
    let code = code.vop(0x59, s2, s2, s1);
    let code = code.vop(0x58, s2, s2, dst);
    let code = code.vex(2, 1, s1, Reg(0), s0, 0x5B);
    let code = code.constant(dst, 127);
    let code = code.vex(1, 1, s1, s1, dst, 0xFE);
    let code = code.shift(6, s1, s1, 23);
    let code = code.vop(0x59, dst, s2, s1);
    code
}

/// Emit [`exp2_body`].
fn emit_exp2_body(code: &mut Vec<u8>, dst: Reg, src: Reg, s0: Reg, s1: Reg, s2: Reg)
    ensures
        final(code)@ == exp2_body(old(code)@, dst, src, s0, s1, s2),
{
    reveal(exp2_body);
    emit_vroundps(code, s0, src, 1);
    emit_vsubps(code, s1, src, s0);
    emit_f32_const(code, s2, 0x3C5E18BA);
    emit_f32_const(code, dst, 0x3D551FD2);
    emit_vmulps(code, s2, s2, s1);
    emit_vaddps(code, s2, s2, dst);
    emit_f32_const(code, dst, 0x3E772C23);
    emit_vmulps(code, s2, s2, s1);
    emit_vaddps(code, s2, s2, dst);
    emit_f32_const(code, dst, 0x3F317218);
    emit_vmulps(code, s2, s2, s1);
    emit_vaddps(code, s2, s2, dst);
    emit_f32_const(code, dst, 0x3F800000);
    emit_vmulps(code, s2, s2, s1);
    emit_vaddps(code, s2, s2, dst);
    emit_vcvttps2dq(code, s1, s0);
    emit_f32_const(code, dst, 127);
    emit_vpaddd(code, s1, s1, dst);
    emit_vpslld_imm(code, s1, s1, 23);
    emit_vmulps(code, dst, s2, s1);
}

/// Round down.
pub fn emit_floor_builtin(code: &mut Vec<u8>, dst: Reg, src: Reg)
    ensures
        final(code)@ == old(code)@.rounded(dst, src, 1),
{
    emit_vroundps(code, dst, src, 1);
}

/// Round up.
pub fn emit_ceil_builtin(code: &mut Vec<u8>, dst: Reg, src: Reg)
    ensures
        final(code)@ == old(code)@.rounded(dst, src, 2),
{
    emit_vroundps(code, dst, src, 2);
}

/// Round to nearest, ties to even.
pub fn emit_round_builtin(code: &mut Vec<u8>, dst: Reg, src: Reg)
    ensures
        final(code)@ == old(code)@.rounded(dst, src, 0),
{
    emit_vroundps(code, dst, src, 0);
}

/// The fraction: the value minus its floor.
pub fn emit_fract_builtin(code: &mut Vec<u8>, dst: Reg, src: Reg, sc: [Reg; 4])
    ensures
        final(code)@ == old(code)@.rounded(sc[0], src, 1).vop(0x5C, dst, src, sc[0]),
{
    emit_vroundps(code, sc[0], src, 1);
    emit_vsubps(code, dst, src, sc[0]);
}

/// Code of a power: `exp2(exp * log2(base))`.
pub open spec fn pow_code(code: Seq<u8>, dst: Reg, base: Reg, exp: Reg, sc: [Reg; 4]) -> Seq<u8> {
    exp2_body(
        log2_body(code, sc[3], base, sc[0], sc[1], sc[2]).vop(0x59, sc[3], sc[3], exp),
        dst,
        sc[3],
        sc[0],
        sc[1],
        sc[2],
    )
}

/// A VEX instruction is five bytes.
pub proof fn lemma_vex_len(
    code: Seq<u8>,
    pp: u8,
    map: u8,
    reg: Reg,
    vvvv: Reg,
    rm: Reg,
    opcode: u8,
)
    ensures
        code.vex(pp, map, reg, vvvv, rm, opcode).len() == code.len() + 5,
{
    reveal(vex_code);
}

/// Loading a constant only appends.
pub proof fn lemma_constant_grows(code: Seq<u8>, dst: Reg, bits: u32)
    ensures
        code.constant(dst, bits).len() > code.len(),
{
    reveal(constant_code);
    lemma_vex_len(code, 0, 1, dst, dst, dst, 0x57);
}

proof fn lemma_log2_grows(code: Seq<u8>, dst: Reg, src: Reg, s0: Reg, s1: Reg, s2: Reg)
    ensures
        log2_body(code, dst, src, s0, s1, s2).len() >= code.len(),
{
    reveal(log2_body);
    let c0 = code.shift(2, s0, src, 23);
    lemma_vex_len(code, 1, 1, Reg(2), s0, src, 0x72);
    let c1 = c0.constant(s2, 127);
    lemma_constant_grows(c0, s2, 127);
    let c2 = c1.vex(1, 1, s0, s0, s2, 0xFA);
    lemma_vex_len(c1, 1, 1, s0, s0, s2, 0xFA);
    let c3 = c2.vex(0, 1, dst, Reg(0), s0, 0x5B);
    lemma_vex_len(c2, 0, 1, dst, Reg(0), s0, 0x5B);
    let c4 = c3.constant(s2, 0x007FFFFF);
    lemma_constant_grows(c3, s2, 0x007FFFFF);
    let c5 = c4.vop(0x54, s1, src, s2);
    lemma_vex_len(c4, 0, 1, s1, src, s2, 0x54);
    let c6 = c5.constant(s2, 0x3F800000);
    lemma_constant_grows(c5, s2, 0x3F800000);
    let c7 = c6.vop(0x56, s1, s1, s2);
    lemma_vex_len(c6, 0, 1, s1, s1, s2, 0x56);
    let c8 = c7.constant(s2, 0x3FB504F3);
    lemma_constant_grows(c7, s2, 0x3FB504F3);
    let c9 = c8.vop(0xC2, s2, s1, s2).byte(PRED_GE);
    lemma_vex_len(c8, 0, 1, s2, s1, s2, 0xC2);
    let c10 = c9.constant(s0, 0x3F800000);
    lemma_constant_grows(c9, s0, 0x3F800000);
    let c11 = c10.vop(0x54, s0, s0, s2);
    lemma_vex_len(c10, 0, 1, s0, s0, s2, 0x54);
    let c12 = c11.vop(0x58, dst, dst, s0);
    lemma_vex_len(c11, 0, 1, dst, dst, s0, 0x58);
    let c13 = c12.constant(s2, 0x3F000000);
    lemma_constant_grows(c12, s2, 0x3F000000);
    let c14 = c13.vop(0x59, s2, s0, s2);
    lemma_vex_len(c13, 0, 1, s2, s0, s2, 0x59);
    let c15 = c14.constant(s0, 0x3F800000);
    lemma_constant_grows(c14, s0, 0x3F800000);
    let c16 = c15.vop(0x5C, s2, s0, s2);
    lemma_vex_len(c15, 0, 1, s2, s0, s2, 0x5C);
    let c17 = c16.vop(0x59, s1, s1, s2);
    lemma_vex_len(c16, 0, 1, s1, s1, s2, 0x59);
    let c18 = c17.constant(s0, 0xBEA3DCBF);
    lemma_constant_grows(c17, s0, 0xBEA3DCBF);
    let c19 = c18.constant(s2, 0x3FE61461);
    lemma_constant_grows(c18, s2, 0x3FE61461);
    let c20 = c19.vop(0x59, s0, s0, s1);
    lemma_vex_len(c19, 0, 1, s0, s0, s1, 0x59);
    let c21 = c20.vop(0x58, s0, s0, s2);
    lemma_vex_len(c20, 0, 1, s0, s0, s2, 0x58);
    let c22 = c21.constant(s2, 0xC0865C9B);
    lemma_constant_grows(c21, s2, 0xC0865C9B);
    let c23 = c22.vop(0x59, s0, s0, s1);
    lemma_vex_len(c22, 0, 1, s0, s0, s1, 0x59);
    let c24 = c23.vop(0x58, s0, s0, s2);
    lemma_vex_len(c23, 0, 1, s0, s0, s2, 0x58);
    let c25 = c24.constant(s2, 0x40B743C6);
    lemma_constant_grows(c24, s2, 0x40B743C6);
    let c26 = c25.vop(0x59, s0, s0, s1);
    lemma_vex_len(c25, 0, 1, s0, s0, s1, 0x59);
    let c27 = c26.vop(0x58, s0, s0, s2);
    lemma_vex_len(c26, 0, 1, s0, s0, s2, 0x58);
    let c28 = c27.constant(s2, 0xC0405BFE);
    lemma_constant_grows(c27, s2, 0xC0405BFE);
    let c29 = c28.vop(0x59, s0, s0, s1);
    lemma_vex_len(c28, 0, 1, s0, s0, s1, 0x59);
    let c30 = c29.vop(0x58, s0, s0, s2);
    lemma_vex_len(c29, 0, 1, s0, s0, s2, 0x58);
    let c31 = c30.vop(0x58, dst, dst, s0);
    lemma_vex_len(c30, 0, 1, dst, dst, s0, 0x58);
    assert(log2_body(code, dst, src, s0, s1, s2) == c31);
}

proof fn lemma_exp2_grows(code: Seq<u8>, dst: Reg, src: Reg, s0: Reg, s1: Reg, s2: Reg)
    ensures
        exp2_body(code, dst, src, s0, s1, s2).len() >= code.len(),
{
    reveal(exp2_body);
    let c0 = code.rounded(s0, src, 1);
    lemma_vex_len(code, 1, 3, s0, Reg(0), src, 0x08);
    let c1 = c0.vop(0x5C, s1, src, s0);
    lemma_vex_len(c0, 0, 1, s1, src, s0, 0x5C);
    let c2 = c1.constant(s2, 0x3C5E18BA);
    lemma_constant_grows(c1, s2, 0x3C5E18BA);
    let c3 = c2.constant(dst, 0x3D551FD2);
    lemma_constant_grows(c2, dst, 0x3D551FD2);
    let c4 = c3.vop(0x59, s2, s2, s1);
    lemma_vex_len(c3, 0, 1, s2, s2, s1, 0x59);
    let c5 = c4.vop(0x58, s2, s2, dst);
    lemma_vex_len(c4, 0, 1, s2, s2, dst, 0x58);
    let c6 = c5.constant(dst, 0x3E772C23);
    lemma_constant_grows(c5, dst, 0x3E772C23);
    let c7 = c6.vop(0x59, s2, s2, s1);
    lemma_vex_len(c6, 0, 1, s2, s2, s1, 0x59);
    let c8 = c7.vop(0x58, s2, s2, dst);
    lemma_vex_len(c7, 0, 1, s2, s2, dst, 0x58);
    let c9 = c8.constant(dst, 0x3F317218);
    lemma_constant_grows(c8, dst, 0x3F317218);
    let c10 = c9.vop(0x59, s2, s2, s1);
    lemma_vex_len(c9, 0, 1, s2, s2, s1, 0x59);
    let c11 = c10.vop(0x58, s2, s2, dst);
    lemma_vex_len(c10, 0, 1, s2, s2, dst, 0x58);
    let c12 = c11.constant(dst, 0x3F800000);
    lemma_constant_grows(c11, dst, 0x3F800000);
    let c13 = c12.vop(0x59, s2, s2, s1);
    lemma_vex_len(c12, 0, 1, s2, s2, s1, 0x59);
    let c14 = c13.vop(0x58, s2, s2, dst);
    lemma_vex_len(c13, 0, 1, s2, s2, dst, 0x58);
    let c15 = c14.vex(2, 1, s1, Reg(0), s0, 0x5B);
    lemma_vex_len(c14, 2, 1, s1, Reg(0), s0, 0x5B);
    let c16 = c15.constant(dst, 127);
    lemma_constant_grows(c15, dst, 127);
    let c17 = c16.vex(1, 1, s1, s1, dst, 0xFE);
    lemma_vex_len(c16, 1, 1, s1, s1, dst, 0xFE);
    let c18 = c17.shift(6, s1, s1, 23);
    lemma_vex_len(c17, 1, 1, Reg(6), s1, s1, 0x72);
    let c19 = c18.vop(0x59, dst, s2, s1);
    lemma_vex_len(c18, 0, 1, dst, s2, s1, 0x59);
    assert(exp2_body(code, dst, src, s0, s1, s2) == c19);
}

/// A power only appends.
pub proof fn lemma_pow_grows(code: Seq<u8>, dst: Reg, base: Reg, exp: Reg, sc: [Reg; 4])
    ensures
        pow_code(code, dst, base, exp, sc).len() >= code.len(),
{
    let c = log2_body(code, sc[3], base, sc[0], sc[1], sc[2]);
    lemma_vex_len(c, 0, 1, sc[3], sc[3], exp, 0x59);
    lemma_log2_grows(code, sc[3], base, sc[0], sc[1], sc[2]);
    lemma_exp2_grows(c.vop(0x59, sc[3], sc[3], exp), dst, sc[3], sc[0], sc[1], sc[2]);
}

/// Power.
pub fn emit_pow_builtin(code: &mut Vec<u8>, dst: Reg, base: Reg, exp: Reg, sc: [Reg; 4])
    ensures
        final(code)@ == pow_code(old(code)@, dst, base, exp, sc),
{
    emit_log2_body(code, sc[3], base, sc[0], sc[1], sc[2]);
    emit_vmulps(code, sc[3], sc[3], exp);
    emit_exp2_body(code, dst, sc[3], sc[0], sc[1], sc[2]);
}

/// Code of `sqrt(x * x + y * y)`.
pub open spec fn hypot_code(code: Seq<u8>, dst: Reg, x: Reg, y: Reg, sc: [Reg; 4]) -> Seq<u8> {
    code.vop(0x59, sc[0], x, x).vop(0x59, dst, y, y).vop(0x58, dst, dst, sc[0]).vop(
        0x51,
        dst,
        Reg(0),
        dst,
    )
}

/// Length of a vector.
pub fn emit_hypot_builtin(code: &mut Vec<u8>, dst: Reg, x: Reg, y: Reg, sc: [Reg; 4])
    ensures
        final(code)@ == hypot_code(old(code)@, dst, x, y, sc),
{
    emit_vmulps(code, sc[0], x, x);
    emit_vmulps(code, dst, y, y);
    emit_vaddps(code, dst, dst, sc[0]);
    emit_vsqrtps(code, dst, dst);
}

/// Code of a unary operation, if it is a machine primitive.
pub open spec fn unary_code(
    code: Seq<u8>,
    op: OpKind,
    dst: Reg,
    src: Reg,
    scratch: [Reg; 4],
) -> Option<Seq<u8>> {
    match op {
        OpKind::Sqrt => Some(code.sse(0x51, dst, src)),
        OpKind::Rsqrt => Some(code.sse(0x52, dst, src)),
        OpKind::Recip => Some(code.sse(0x53, dst, src)),
        OpKind::Neg => Some(code.constant(scratch[0], 0x80000000).vop(0x57, dst, src, scratch[0])),
        OpKind::Abs => Some(code.constant(scratch[0], 0x7FFFFFFF).vop(0x54, dst, src, scratch[0])),
        OpKind::Floor => Some(code.rounded(dst, src, 1)),
        OpKind::Ceil => Some(code.rounded(dst, src, 2)),
        OpKind::Round => Some(code.rounded(dst, src, 0)),
        OpKind::Fract => Some(
            code.rounded(scratch[0], src, 1).vop(0x5C, dst, src, scratch[0]),
        ),
        OpKind::TruncToInt => Some(code.vex(2, 1, dst, Reg(0), src, 0x5B)),
        OpKind::IntToFloat => Some(code.vex(0, 1, dst, Reg(0), src, 0x5B)),
        _ => None,
    }
}

/// Emit a unary operation. Transcendentals are expanded to primitives before
/// emission.
pub fn emit_unary(code: &mut Vec<u8>, op: OpKind, dst: Reg, src: Reg, scratch: [Reg; 4])
    requires
        unary_code(old(code)@, op, dst, src, scratch) is Some,
    ensures
        Some(final(code)@) == unary_code(old(code)@, op, dst, src, scratch),
{
    match op {
        OpKind::Sqrt => emit_sqrtps(code, dst, src),
        OpKind::Rsqrt => emit_rsqrtps(code, dst, src),
        OpKind::Recip => emit_rcpps(code, dst, src),
        OpKind::Neg => {
            emit_f32_const(code, scratch[0], 0x80000000);
            emit_vxorps(code, dst, src, scratch[0]);
        },
        OpKind::Abs => {
            emit_f32_const(code, scratch[0], 0x7FFFFFFF);
            emit_vandps(code, dst, src, scratch[0]);
        },
        OpKind::Floor => emit_floor_builtin(code, dst, src),
        OpKind::Ceil => emit_ceil_builtin(code, dst, src),
        OpKind::Round => emit_round_builtin(code, dst, src),
        OpKind::Fract => emit_fract_builtin(code, dst, src, scratch),
        OpKind::TruncToInt => emit_vcvttps2dq(code, dst, src),
        OpKind::IntToFloat => emit_vcvtdq2ps(code, dst, src),
        _ => {},
    }
}

/// Emit a logical shift of integer lanes by an immediate.
pub fn emit_shift_imm(code: &mut Vec<u8>, op: OpKind, dst: Reg, src: Reg, amount: u8)
    requires
        op is Shl || op is Shr,
    ensures
        final(code)@ == old(code)@.shift(
            if op is Shl {
                6u8
            } else {
                2u8
            },
            dst,
            src,
            amount,
        ),
{
    match op {
        OpKind::Shl => emit_vpslld_imm(code, dst, src, amount),
        _ => emit_vpsrld_imm(code, dst, src, amount),
    }
}

/// Code of a copy, if the registers differ.
pub open spec fn copy_code(code: Seq<u8>, dst: Reg, src: Reg) -> Seq<u8> {
    if dst.0 != src.0 {
        code.sse(0x28, dst, src)
    } else {
        code
    }
}

/// Emit a copy, if the registers differ.
fn emit_copy(code: &mut Vec<u8>, dst: Reg, src: Reg)
    ensures
        final(code)@ == copy_code(old(code)@, dst, src),
{
    if dst.0 != src.0 {
        emit_movaps(code, dst, src);
    }
}

/// Code of a binary operation, if it is a machine primitive: the first operand
/// is copied to the destination, which the operation then updates.
pub open spec fn binary_code(
    code: Seq<u8>,
    op: OpKind,
    dst: Reg,
    src1: Reg,
    src2: Reg,
) -> Option<Seq<u8>> {
    let code = copy_code(code, dst, src1);
    match op {
        OpKind::Add => Some(code.sse(0x58, dst, src2)),
        OpKind::Sub => Some(code.sse(0x5C, dst, src2)),
        OpKind::Mul => Some(code.sse(0x59, dst, src2)),
        OpKind::Div => Some(code.sse(0x5E, dst, src2)),
        OpKind::Min => Some(code.sse(0x5D, dst, src2)),
        OpKind::Max => Some(code.sse(0x5F, dst, src2)),
        OpKind::Eq => Some(code.sse(0xC2, dst, src2).byte(PRED_EQ)),
        OpKind::Ne => Some(code.sse(0xC2, dst, src2).byte(PRED_NEQ)),
        OpKind::Lt => Some(code.sse(0xC2, dst, src2).byte(PRED_LT)),
        OpKind::Le => Some(code.sse(0xC2, dst, src2).byte(PRED_LE)),
        OpKind::Gt => Some(code.sse(0xC2, dst, src2).byte(PRED_NLE)),
        OpKind::Ge => Some(code.sse(0xC2, dst, src2).byte(PRED_GE)),
        OpKind::IAdd => Some(code.vex(1, 1, dst, dst, src2, 0xFE)),
        OpKind::BitAnd => Some(code.vop(0x54, dst, dst, src2)),
        OpKind::BitOr => Some(code.vop(0x56, dst, dst, src2)),
        _ => None,
    }
}

/// Emit a binary operation. Comparisons leave a lane mask in `dst`.
pub fn emit_binary(code: &mut Vec<u8>, op: OpKind, dst: Reg, src1: Reg, src2: Reg)
    requires
        binary_code(old(code)@, op, dst, src1, src2) is Some,
    ensures
        Some(final(code)@) == binary_code(old(code)@, op, dst, src1, src2),
{
    emit_copy(code, dst, src1);
    match op {
        OpKind::Add => emit_addps(code, dst, src2),
        OpKind::Sub => emit_subps(code, dst, src2),
        OpKind::Mul => emit_mulps(code, dst, src2),
        OpKind::Div => emit_divps(code, dst, src2),
        OpKind::Min => emit_minps(code, dst, src2),
        OpKind::Max => emit_maxps(code, dst, src2),
        OpKind::Eq => emit_compare_tail(code, dst, src2, PRED_EQ),
        OpKind::Ne => emit_compare_tail(code, dst, src2, PRED_NEQ),
        OpKind::Lt => emit_compare_tail(code, dst, src2, PRED_LT),
        OpKind::Le => emit_compare_tail(code, dst, src2, PRED_LE),
        OpKind::Gt => emit_compare_tail(code, dst, src2, PRED_NLE),
        OpKind::Ge => emit_compare_tail(code, dst, src2, PRED_GE),
        OpKind::IAdd => emit_vpaddd(code, dst, dst, src2),
        OpKind::BitAnd => emit_vandps(code, dst, dst, src2),
        OpKind::BitOr => emit_vorps(code, dst, dst, src2),
        _ => {},
    }
}

/// Compare in place: `dst` holds the first operand.
fn emit_compare_tail(code: &mut Vec<u8>, dst: Reg, src2: Reg, pred: u8)
    ensures
        final(code)@ == old(code)@.sse(0xC2, dst, src2).byte(pred),
{
    emit_sse_rr(code, 0xC2, dst, src2);
    code.push(pred);
}

/// Code of a binary operation that needs scratch registers.
pub open spec fn transcendental_code(
    code: Seq<u8>,
    op: OpKind,
    dst: Reg,
    src1: Reg,
    src2: Reg,
    scratch: [Reg; 4],
) -> Option<Seq<u8>> {
    match op {
        OpKind::Pow => Some(pow_code(code, dst, src1, src2, scratch)),
        OpKind::Hypot => Some(hypot_code(code, dst, src1, src2, scratch)),
        _ => None,
    }
}

/// Emit a binary operation that needs scratch registers.
pub fn emit_binary_transcendental(
    code: &mut Vec<u8>,
    op: OpKind,
    dst: Reg,
    src1: Reg,
    src2: Reg,
    scratch: [Reg; 4],
)
    requires
        op is Pow || op is Hypot,
    ensures
        Some(final(code)@) == transcendental_code(old(code)@, op, dst, src1, src2, scratch),
{
    match op {
        OpKind::Pow => emit_pow_builtin(code, dst, src1, src2, scratch),
        _ => emit_hypot_builtin(code, dst, src1, src2, scratch),
    }
}

/// Code of a ternary operation, if it is a machine primitive.
pub open spec fn ternary_code(
    code: Seq<u8>,
    op: OpKind,
    dst: Reg,
    a: Reg,
    b: Reg,
    c: Reg,
) -> Option<Seq<u8>> {
    match op {
        OpKind::MulAdd => Some(copy_code(code, dst, a).sse(0x59, dst, b).sse(0x58, dst, c)),
        OpKind::Clamp => Some(copy_code(code, dst, a).sse(0x5D, dst, c).sse(0x5F, dst, b)),
        _ => None,
    }
}

/// Emit a ternary operation.
pub fn emit_ternary(code: &mut Vec<u8>, op: OpKind, dst: Reg, a: Reg, b: Reg, c: Reg)
    requires
        op is MulAdd || op is Clamp,
    ensures
        Some(final(code)@) == ternary_code(old(code)@, op, dst, a, b, c),
{
    emit_copy(code, dst, a);
    match op {
        OpKind::MulAdd => {
            emit_mulps(code, dst, b);
            emit_addps(code, dst, c);
        },
        _ => {
            emit_minps(code, dst, c);
            emit_maxps(code, dst, b);
        },
    }
}

/// Function prologue: a leaf kernel needs none.
pub fn emit_prologue(_code: &mut Vec<u8>)
    ensures
        final(_code)@ == old(_code)@,
{
}

/// Function epilogue: result to xmm0, then RET.
pub fn emit_epilogue(code: &mut Vec<u8>, result: Reg)
    ensures
        final(code)@ == copy_code(old(code)@, Reg(0), result).byte(0xC3),
{
    emit_copy(code, Reg(0), result);
    code.push(0xC3);
}

/// MOVMSKPS eax, xmm: the four lane sign bits.
pub fn emit_movmskps_eax(code: &mut Vec<u8>, src: Reg)
    ensures
        final(code)@ == old(code)@.sse(0x50, Reg(0), src),
{
    emit_sse_rr(code, 0x50, Reg(0), src);
}

/// Conditional jump with its distance still to be patched. Returns where the
/// distance is. `cc` is the second opcode byte.
pub fn emit_jcc_rel32(code: &mut Vec<u8>, cc: u8) -> (pos: usize)
    ensures
        pos == old(code)@.len() + 2,
        final(code)@ == old(code)@.byte(0x0F).byte(cc).inst(0),
{
    code.push(0x0F);
    code.push(cc);
    let pos: usize = code.len();
    emit32(code, 0);
    pos
}

/// Jump with its distance still to be patched. Returns where the distance is.
pub fn emit_jmp_rel32(code: &mut Vec<u8>) -> (pos: usize)
    ensures
        pos == old(code)@.len() + 1,
        final(code)@ == old(code)@.byte(0xE9).inst(0),
{
    code.push(0xE9);
    let pos: usize = code.len();
    emit32(code, 0);
    pos
}

/// The 32-bit two's complement field of `v`.
pub open spec fn field32(v: int) -> u32 {
    (v % 0x1_0000_0000) as u32
}

/// `code` with the jump distance at `pos` leading to `target`.
pub open spec fn rel32_patched(code: Seq<u8>, pos: int, target: int) -> Seq<u8> {
    with_word(code, pos, field32(target - (pos + 4)))
}

/// Where a jump with its distance at `pos` leads.
pub open spec fn rel32_target(code: Seq<u8>, pos: int) -> int {
    let w = word_at(code, pos);
    pos + 4 + if w < 0x8000_0000 {
        w as int
    } else {
        w - 0x1_0000_0000
    }
}

/// A patched jump leads to the target it was given, if that is within two
/// gigabytes, and nothing else in the code changes.
pub proof fn patched_rel32_leads_to_target(code: Seq<u8>, pos: int, target: int)
    requires
        0 <= pos,
        pos + 4 <= code.len(),
        -0x8000_0000 <= target - (pos + 4) < 0x8000_0000,
    ensures
        rel32_target(rel32_patched(code, pos, target), pos) == target,
        rel32_patched(code, pos, target).len() == code.len(),
        forall|i: int|
            0 <= i < code.len() && !(pos <= i < pos + 4) ==> #[trigger] rel32_patched(
                code,
                pos,
                target,
            )[i] == code[i],
{
    crate::backend::emit::bytes::read_replaced_word(code, pos, field32(target - (pos + 4)));
}

/// Makes the jump with its distance at `pos` lead to `target`.
pub fn patch_rel32(code: &mut [u8], pos: usize, target: usize)
    requires
        pos + 4 <= old(code)@.len(),
    ensures
        final(code)@ == rel32_patched(old(code)@, pos as int, target as int),
{
    let len: usize = code.len();
    assert(pos + 4 <= len);
    let from: u64 = pos as u64 + 4;
    let to: u64 = target as u64;
    let rel: u32 = if to >= from {
        ((to - from) % 0x1_0000_0000) as u32
    } else {
        let back: u64 = (from - to) % 0x1_0000_0000;
        if back == 0 {
            0
        } else {
            (0x1_0000_0000 - back) as u32
        }
    };
    write32(code, pos, rel);
}

/// TEST eax, eax
pub fn emit_test_eax(code: &mut Vec<u8>)
    ensures
        final(code)@ == old(code)@.byte(0x85).byte(0xC0),
{
    code.push(0x85);
    code.push(0xC0);
}

/// CMP eax, imm8
pub fn emit_cmp_eax_imm8(code: &mut Vec<u8>, imm: u8)
    ensures
        final(code)@ == old(code)@.byte(0x83).byte(0xF8).byte(imm),
{
    code.push(0x83);
    code.push(0xF8);
    code.push(imm);
}

} // verus!
