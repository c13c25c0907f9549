//! x86-64 AVX-512 instruction encoding: 512-bit kernels on zmm0 to zmm31.
//!
//! Spills use a real stack frame: a register is 64 bytes, more than the red
//! zone below the stack pointer can serve.

use crate::backend::emit::bytes::{emit32, CodeBytes};
use crate::backend::emit::x86_64::{PRED_EQ, PRED_GE, PRED_LE, PRED_LT, PRED_NEQ, PRED_NLE};
use crate::backend::emit::Reg;
use crate::kind::OpKind;
use vstd::prelude::*;

verus! {

/// Opcode map 0F.
pub const MAP_0F: u8 = 1;

/// Opcode map 0F38.
pub const MAP_0F38: u8 = 2;

/// Opcode map 0F3A.
pub const MAP_0F3A: u8 = 3;

/// No mandatory prefix.
pub const PP_NONE: u8 = 0;

/// Mandatory prefix 66.
pub const PP_66: u8 = 1;

/// Mandatory prefix F3.
pub const PP_F3: u8 = 2;

/// First payload byte for register operands: the high bits of both registers,
/// inverted, and the opcode map.
pub open spec fn p0_rr(reg: u8, rm: u8, map: u8) -> u8 {
    ((((reg >> 3) & 1) ^ 1) << 7) | ((((rm >> 4) & 1) ^ 1) << 6) | ((((rm >> 3) & 1) ^ 1) << 5) | (((
    (reg >> 4) & 1) ^ 1) << 4) | map
}

/// First payload byte for memory at the stack pointer, which needs no extension
/// bit: both stand at one, inverted.
pub open spec fn p0_rsp(reg: u8, map: u8) -> u8 {
    ((((reg >> 3) & 1) ^ 1) << 7) | 0x60 | ((((reg >> 4) & 1) ^ 1) << 4) | map
}

/// Second payload byte: the other source, inverted, and the prefix.
pub open spec fn p1(src1: u8, pp: u8) -> u8 {
    ((!src1 & 0x0F) << 3) | 4 | pp
}

/// Third payload byte: 512 bits, no mask, and the high bit of the other source.
pub open spec fn p2(src1: u8) -> u8 {
    0x40 | ((((src1 >> 4) & 1) ^ 1) << 3)
}

/// Appending instructions to a byte sequence, for use in contracts.
pub trait Avx512Code: Sized {
    /// Three registers. An unused `src1` is 0, which is stored as all ones.
    spec fn evex(self, map: u8, pp: u8, opcode: u8, dst: u8, src1: u8, src2: u8) -> Self;

    /// A register and memory at the stack pointer plus a displacement.
    spec fn evex_rsp(self, map: u8, pp: u8, opcode: u8, reg: u8, disp: i32) -> Self;

    /// A constant in every lane, through the four bytes below the stack pointer.
    spec fn splat(self, dst: Reg, bits: u32) -> Self;

    /// A register copy, unless it is the same register.
    spec fn copied(self, dst: Reg, src: Reg) -> Self;
}

impl Avx512Code for Seq<u8> {
    open spec fn evex(self, map: u8, pp: u8, opcode: u8, dst: u8, src1: u8, src2: u8) -> Seq<u8> {
        self.byte(0x62).byte(p0_rr(dst, src2, map)).byte(p1(src1, pp)).byte(p2(src1)).byte(
            opcode,
        ).byte(0xC0u8 | ((dst & 7) << 3) | (src2 & 7))
    }

    open spec fn evex_rsp(self, map: u8, pp: u8, opcode: u8, reg: u8, disp: i32) -> Seq<u8> {
        self.byte(0x62).byte(p0_rsp(reg, map)).byte(p1(0, pp)).byte(p2(0)).byte(opcode).byte(
            0x84u8 | ((reg & 7) << 3),
        ).byte(0x24).inst(disp as u32)
    }

    open spec fn splat(self, dst: Reg, bits: u32) -> Seq<u8> {
        let code = self.byte(0xC7).byte(0x44).byte(0x24).byte(0xFC).inst(bits);
        code.byte(0x62).byte(p0_rsp(dst.0, MAP_0F38)).byte(p1(0, PP_66)).byte(p2(0)).byte(
            0x18,
        ).byte(0x44u8 | ((dst.0 & 7) << 3)).byte(0x24).byte(0xFF)
    }

    open spec fn copied(self, dst: Reg, src: Reg) -> Seq<u8> {
        if dst.0 == src.0 {
            self
        } else {
            self.evex(MAP_0F, PP_NONE, 0x28, dst.0, 0, src.0)
        }
    }
}

/// First payload byte for register operands.
fn encode_p0(reg: u8, rm: u8, map: u8) -> (b: u8)
    ensures
        b == p0_rr(reg, rm, map),
{
    ((((reg >> 3) & 1) ^ 1) << 7) | ((((rm >> 4) & 1) ^ 1) << 6) | ((((rm >> 3) & 1) ^ 1) << 5) | (((
    (reg >> 4) & 1) ^ 1) << 4) | map
}

/// First payload byte for memory at the stack pointer.
fn encode_p0_rsp(reg: u8, map: u8) -> (b: u8)
    ensures
        b == p0_rsp(reg, map),
{
    ((((reg >> 3) & 1) ^ 1) << 7) | 0x60 | ((((reg >> 4) & 1) ^ 1) << 4) | map
}

/// Second payload byte.
fn encode_p1(src1: u8, pp: u8) -> (b: u8)
    ensures
        b == p1(src1, pp),
{
    ((!src1 & 0x0F) << 3) | 4 | pp
}

/// Third payload byte.
fn encode_p2(src1: u8) -> (b: u8)
    ensures
        b == p2(src1),
{
    0x40 | ((((src1 >> 4) & 1) ^ 1) << 3)
}

/// Emit a 512-bit instruction on three registers.
fn evex_rrr(code: &mut Vec<u8>, map: u8, pp: u8, opcode: u8, dst: u8, src1: u8, src2: u8)
    ensures
        final(code)@ == old(code)@.evex(map, pp, opcode, dst, src1, src2),
{
    code.push(0x62);
    code.push(encode_p0(dst, src2, map));
    code.push(encode_p1(src1, pp));
    code.push(encode_p2(src1));
    code.push(opcode);
    code.push(0xC0u8 | ((dst & 7) << 3) | (src2 & 7));
}

/// Emit a 512-bit instruction on a register and memory at the stack pointer.
fn evex_rm_rsp(code: &mut Vec<u8>, map: u8, pp: u8, opcode: u8, reg: u8, disp: i32)
    ensures
        final(code)@ == old(code)@.evex_rsp(map, pp, opcode, reg, disp),
{
    code.push(0x62);
    code.push(encode_p0_rsp(reg, map));
    code.push(encode_p1(0, pp));
    code.push(encode_p2(0));
    code.push(opcode);
    code.push(0x84u8 | ((reg & 7) << 3));
    code.push(0x24);
    emit32(code, disp as u32);
}

/// VMOVAPS zmm, zmm
pub fn emit_mov(code: &mut Vec<u8>, dst: Reg, src: Reg)
    ensures
        final(code)@ == old(code)@.copied(dst, src),
{
    if dst.0 != src.0 {
        evex_rrr(code, MAP_0F, PP_NONE, 0x28, dst.0, 0, src.0);
    }
}

/// VMOVUPS zmm, [rsp + disp]
pub fn emit_load_rsp(code: &mut Vec<u8>, dst: Reg, disp: i32)
    ensures
        final(code)@ == old(code)@.evex_rsp(MAP_0F, PP_F3, 0x10, dst.0, disp),
{
    evex_rm_rsp(code, MAP_0F, PP_F3, 0x10, dst.0, disp);
}

/// VMOVUPS [rsp + disp], zmm
pub fn emit_store_rsp(code: &mut Vec<u8>, src: Reg, disp: i32)
    ensures
        final(code)@ == old(code)@.evex_rsp(MAP_0F, PP_F3, 0x11, src.0, disp),
{
    evex_rm_rsp(code, MAP_0F, PP_F3, 0x11, src.0, disp);
}

/// Load the `f32` with the given bits into every lane: MOV dword [rsp - 4],
/// then VBROADCASTSS. The broadcast's displacement byte counts its own four-byte
/// elements, so it is -1. Nothing above the stack pointer is touched.
pub fn emit_const(code: &mut Vec<u8>, dst: Reg, bits: u32)
    ensures
        final(code)@ == old(code)@.splat(dst, bits),
{
    code.push(0xC7);
    code.push(0x44);
    code.push(0x24);
    code.push(0xFC);
    emit32(code, bits);
    code.push(0x62);
    code.push(encode_p0_rsp(dst.0, MAP_0F38));
    code.push(encode_p1(0, PP_66));
    code.push(encode_p2(0));
    code.push(0x18);
    code.push(0x44u8 | ((dst.0 & 7) << 3));
    code.push(0x24);
    code.push(0xFF);
}

/// SUB rsp, imm32
pub fn emit_sub_rsp(code: &mut Vec<u8>, size: u32)
    ensures
        final(code)@ == old(code)@.byte(0x48).byte(0x81).byte(0xEC).inst(size),
{
    code.push(0x48);
    code.push(0x81);
    code.push(0xEC);
    emit32(code, size);
}

/// ADD rsp, imm32
pub fn emit_add_rsp(code: &mut Vec<u8>, size: u32)
    ensures
        final(code)@ == old(code)@.byte(0x48).byte(0x81).byte(0xC4).inst(size),
{
    code.push(0x48);
    code.push(0x81);
    code.push(0xC4);
    emit32(code, size);
}

/// RET
pub fn emit_ret(code: &mut Vec<u8>)
    ensures
        final(code)@ == old(code)@.byte(0xC3),
{
    code.push(0xC3);
}

/// Opcode of a binary arithmetic operation.
pub open spec fn arith_opcode(op: OpKind) -> Option<u8> {
    match op {
        OpKind::Add => Some(0x58),
        OpKind::Sub => Some(0x5C),
        OpKind::Mul => Some(0x59),
        OpKind::Div => Some(0x5E),
        OpKind::Min => Some(0x5D),
        OpKind::Max => Some(0x5F),
        _ => None,
    }
}

/// Emit `dst = op(src1, src2)`. Sources are never overwritten before they are
/// read, so they may be the destination.
pub fn emit_binary(code: &mut Vec<u8>, op: OpKind, dst: Reg, src1: Reg, src2: Reg) -> (r: Result<
    (),
    &'static str,
>)
    ensures
        match arith_opcode(op) {
            Some(opcode) => r == Ok::<(), &'static str>(()) && final(code)@ == old(code)@.evex(
                MAP_0F,
                PP_NONE,
                opcode,
                dst.0,
                src1.0,
                src2.0,
            ),
            None => r == Err::<(), &'static str>("avx512: binary op not in Stage-1 subset")
                && final(code)@ == old(code)@,
        },
{
    let opcode: u8 = match op {
        OpKind::Add => 0x58,
        OpKind::Sub => 0x5C,
        OpKind::Mul => 0x59,
        OpKind::Div => 0x5E,
        OpKind::Min => 0x5D,
        OpKind::Max => 0x5F,
        _ => return Err("avx512: binary op not in Stage-1 subset"),
    };
    evex_rrr(code, MAP_0F, PP_NONE, opcode, dst.0, src1.0, src2.0);
    Ok(())
}

/// Where the sign mask of a negation or absolute value is built: the
/// destination, or a scratch register if that holds the source.
pub open spec fn mask_reg(dst: Reg, src: Reg) -> Reg {
    if dst.0 != src.0 {
        dst
    } else if dst.0 != 10 {
        Reg(10)
    } else {
        Reg(13)
    }
}

/// Code of a unary operation, if it is supported.
pub open spec fn unary_code(code: Seq<u8>, op: OpKind, dst: Reg, src: Reg) -> Option<Seq<u8>> {
    let mask = mask_reg(dst, src);
    match op {
        OpKind::Sqrt => Some(code.evex(MAP_0F, PP_NONE, 0x51, dst.0, 0, src.0)),
        OpKind::Neg => Some(
            code.splat(mask, 0x80000000).evex(MAP_0F, PP_NONE, 0x57, dst.0, mask.0, src.0),
        ),
        OpKind::Abs => Some(
            code.splat(mask, 0x7FFFFFFF).evex(MAP_0F, PP_NONE, 0x54, dst.0, mask.0, src.0),
        ),
        OpKind::Recip => Some(code.evex(MAP_0F38, PP_66, 0x4C, dst.0, 0, src.0)),
        OpKind::Rsqrt => Some(code.evex(MAP_0F38, PP_66, 0x4E, dst.0, 0, src.0)),
        OpKind::Round => Some(code.evex(MAP_0F3A, PP_66, 0x08, dst.0, 0, src.0).byte(0)),
        OpKind::Floor => Some(code.evex(MAP_0F3A, PP_66, 0x08, dst.0, 0, src.0).byte(1)),
        OpKind::Ceil => Some(code.evex(MAP_0F3A, PP_66, 0x08, dst.0, 0, src.0).byte(2)),
        _ => None,
    }
}

/// VRNDSCALEPS: round to nearest (0), down (1) or up (2).
fn emit_rndscale(code: &mut Vec<u8>, dst: Reg, src: Reg, mode: u8)
    ensures
        final(code)@ == old(code)@.evex(MAP_0F3A, PP_66, 0x08, dst.0, 0, src.0).byte(mode),
{
    evex_rrr(code, MAP_0F3A, PP_66, 0x08, dst.0, 0, src.0);
    code.push(mode);
}

/// Emit `dst = op(src)`. Reciprocals are approximate.
pub fn emit_unary(code: &mut Vec<u8>, op: OpKind, dst: Reg, src: Reg) -> (r: Result<
    (),
    &'static str,
>)
    ensures
        match unary_code(old(code)@, op, dst, src) {
            Some(c) => r == Ok::<(), &'static str>(()) && final(code)@ == c,
            None => r == Err::<(), &'static str>("avx512: unary op not in Stage-1 subset")
                && final(code)@ == old(code)@,
        },
{
    let mask: Reg = if dst.0 != src.0 {
        dst
    } else if dst.0 != 10 {
        Reg(10)
    } else {
        Reg(13)
    };
    match op {
        OpKind::Sqrt => evex_rrr(code, MAP_0F, PP_NONE, 0x51, dst.0, 0, src.0),
        OpKind::Neg => {
            emit_const(code, mask, 0x80000000);
            evex_rrr(code, MAP_0F, PP_NONE, 0x57, dst.0, mask.0, src.0);
        },
        OpKind::Abs => {
            emit_const(code, mask, 0x7FFFFFFF);
            evex_rrr(code, MAP_0F, PP_NONE, 0x54, dst.0, mask.0, src.0);
        },
        OpKind::Recip => evex_rrr(code, MAP_0F38, PP_66, 0x4C, dst.0, 0, src.0),
        OpKind::Rsqrt => evex_rrr(code, MAP_0F38, PP_66, 0x4E, dst.0, 0, src.0),
        OpKind::Round => emit_rndscale(code, dst, src, 0),
        OpKind::Floor => emit_rndscale(code, dst, src, 1),
        OpKind::Ceil => emit_rndscale(code, dst, src, 2),
        _ => return Err("avx512: unary op not in Stage-1 subset"),
    }
    Ok(())
}

/// VFMADD231PS: `dst = a * b + dst`.
pub fn emit_fmadd_c_in_dst(code: &mut Vec<u8>, dst: Reg, a: Reg, b: Reg)
    ensures
        final(code)@ == old(code)@.evex(MAP_0F38, PP_66, 0xB8, dst.0, a.0, b.0),
{
    evex_rrr(code, MAP_0F38, PP_66, 0xB8, dst.0, a.0, b.0);
}

/// VFMADD213PS: `dst = s1 * dst + s2`.
pub fn emit_fmadd213(code: &mut Vec<u8>, dst: Reg, s1: Reg, s2: Reg)
    ensures
        final(code)@ == old(code)@.evex(MAP_0F38, PP_66, 0xA8, dst.0, s1.0, s2.0),
{
    evex_rrr(code, MAP_0F38, PP_66, 0xA8, dst.0, s1.0, s2.0);
}

/// VANDPS
pub fn emit_and(code: &mut Vec<u8>, dst: Reg, s1: Reg, s2: Reg)
    ensures
        final(code)@ == old(code)@.evex(MAP_0F, PP_NONE, 0x54, dst.0, s1.0, s2.0),
{
    evex_rrr(code, MAP_0F, PP_NONE, 0x54, dst.0, s1.0, s2.0);
}

/// VORPS
pub fn emit_or(code: &mut Vec<u8>, dst: Reg, s1: Reg, s2: Reg)
    ensures
        final(code)@ == old(code)@.evex(MAP_0F, PP_NONE, 0x56, dst.0, s1.0, s2.0),
{
    evex_rrr(code, MAP_0F, PP_NONE, 0x56, dst.0, s1.0, s2.0);
}

/// VXORPS
pub fn emit_xor(code: &mut Vec<u8>, dst: Reg, s1: Reg, s2: Reg)
    ensures
        final(code)@ == old(code)@.evex(MAP_0F, PP_NONE, 0x57, dst.0, s1.0, s2.0),
{
    evex_rrr(code, MAP_0F, PP_NONE, 0x57, dst.0, s1.0, s2.0);
}

/// VANDNPS: the complement of the first source and the second
pub fn emit_andn(code: &mut Vec<u8>, dst: Reg, s1: Reg, s2: Reg)
    ensures
        final(code)@ == old(code)@.evex(MAP_0F, PP_NONE, 0x55, dst.0, s1.0, s2.0),
{
    evex_rrr(code, MAP_0F, PP_NONE, 0x55, dst.0, s1.0, s2.0);
}

/// Predicate of a comparison.
pub open spec fn predicate(op: OpKind) -> Option<u8> {
    match op {
        OpKind::Eq => Some(PRED_EQ),
        OpKind::Ne => Some(PRED_NEQ),
        OpKind::Lt => Some(PRED_LT),
        OpKind::Le => Some(PRED_LE),
        OpKind::Gt => Some(PRED_NLE),
        OpKind::Ge => Some(PRED_GE),
        _ => None,
    }
}

/// The operation is a comparison.
pub fn is_compare(op: OpKind) -> (b: bool)
    ensures
        b == predicate(op) is Some,
{
    match op {
        OpKind::Eq | OpKind::Ne | OpKind::Lt | OpKind::Le | OpKind::Gt | OpKind::Ge => true,
        _ => false,
    }
}

/// Code of a comparison: VCMPPS into k1, then VPMOVM2D to a vector mask.
pub open spec fn compare_code(code: Seq<u8>, pred: u8, dst: Reg, src1: Reg, src2: Reg) -> Seq<u8> {
    code.evex(MAP_0F, PP_NONE, 0xC2, 1, src1.0, src2.0).byte(pred).evex(
        MAP_0F38,
        PP_F3,
        0x38,
        dst.0,
        0,
        1,
    )
}

/// Emit a comparison: all ones in the lanes where it holds, else zeros.
pub fn emit_compare(code: &mut Vec<u8>, op: OpKind, dst: Reg, src1: Reg, src2: Reg) -> (r: Result<
    (),
    &'static str,
>)
    ensures
        match predicate(op) {
            Some(pred) => r == Ok::<(), &'static str>(()) && final(code)@ == compare_code(
                old(code)@,
                pred,
                dst,
                src1,
                src2,
            ),
            None => r == Err::<(), &'static str>("avx512: not a comparison") && final(code)@ == old(
                code,
            )@,
        },
{
    let pred: u8 = match op {
        OpKind::Eq => PRED_EQ,
        OpKind::Ne => PRED_NEQ,
        OpKind::Lt => PRED_LT,
        OpKind::Le => PRED_LE,
        OpKind::Gt => PRED_NLE,
        OpKind::Ge => PRED_GE,
        _ => return Err("avx512: not a comparison"),
    };
    evex_rrr(code, MAP_0F, PP_NONE, 0xC2, 1, src1.0, src2.0);
    code.push(pred);
    evex_rrr(code, MAP_0F38, PP_F3, 0x38, dst.0, 0, 1);
    Ok(())
}

/// Choose by the vector mask in `dst`: one VPTERNLOGD.
pub fn emit_select(code: &mut Vec<u8>, dst: Reg, if_true: Reg, if_false: Reg)
    ensures
        final(code)@ == old(code)@.evex(
            MAP_0F3A,
            PP_66,
            0x25,
            dst.0,
            if_true.0,
            if_false.0,
        ).byte(0xCA),
{
    evex_rrr(code, MAP_0F3A, PP_66, 0x25, dst.0, if_true.0, if_false.0);
    code.push(0xCA);
}

/// Code that reduces a vector mask to flags: VPTESTMD into k1, then KORTESTW.
/// Zero is set if every lane is false, carry if every lane is true.
pub open spec fn mask_flags_code(code: Seq<u8>, mask: Reg) -> Seq<u8> {
    code.evex(MAP_0F38, PP_66, 0x27, 1, mask.0, mask.0).byte(0xC5).byte(0xF8).byte(0x98).byte(0xC9)
}

/// Reduce a vector mask to flags.
pub fn emit_mask_flags(code: &mut Vec<u8>, mask: Reg)
    ensures
        final(code)@ == mask_flags_code(old(code)@, mask),
{
    evex_rrr(code, MAP_0F38, PP_66, 0x27, 1, mask.0, mask.0);
    code.push(0xC5);
    code.push(0xF8);
    code.push(0x98);
    code.push(0xC9);
}

} // verus!
