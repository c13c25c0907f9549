//! Multi-instruction builtins.

use crate::backend::emit::aarch64::{
    emit_add_i32, emit_and, emit_bsl, emit_fadd, emit_fcmge, emit_fcvtzs, emit_fmla, emit_fmul,
    emit_frinta, emit_frintm, emit_fsqrt, emit_fsub, emit_mov, emit_orr, emit_scvtf, emit_shl,
    emit_sub_i32, emit_u32_const, emit_ushr, misc2, same3, shl_word, ushr_word,
};
use crate::backend::emit::bytes::CodeBytes;
use crate::backend::emit::pool::{emit_pool_load, ConstPool, Output};
use crate::backend::emit::Reg;
use vstd::prelude::*;

verus! {

/// log2: exponent extraction, then a polynomial on the mantissa reduced to
/// [sqrt(2)/2, sqrt(2)].
#[verifier::opaque]
pub open spec fn log2_out(o: Output, dst: Reg, src: Reg, scratch: [Reg; 4]) -> Output {
    let s0 = scratch[0];
    let s1 = scratch[1];
    let s2 = scratch[2];
    let o = o.inst(ushr_word(s0, src, 23));
    let o = o.bits(s2, 127);
    let o = o.inst(same3(0x6EA08400, s0, s0, s2));
    let o = o.inst(misc2(0x4E21D800, dst, s0));
    let o = o.bits(s2, 0x007FFFFF);
    let o = o.inst(same3(0x4E201C00, s1, src, s2));
    let o = o.bits(s2, 0x3F800000);
    let o = o.inst(same3(0x4EA01C00, s1, s1, s2));
    let o = o.load(s2, 0x3FB504F3);
    let o = o.inst(same3(0x6E20E400, s2, s1, s2));
    let o = o.load(s0, 0x3F800000);
    let o = o.inst(same3(0x4E201C00, s0, s0, s2));
    let o = o.inst(same3(0x4E20D400, dst, dst, s0));
    let o = o.load(s0, 0x3F000000);
    let o = o.inst(same3(0x6E20DC00, s0, s1, s0));
    let o = o.inst(same3(0x6E601C00, s2, s0, s1));
    let o = o.mov(s1, s2);
    let o = o.load(s2, 0xBEA3DCBE);
    let o = o.load(s0, 0x3FE61461);
    let o = o.inst(same3(0x4E20CC00, s0, s2, s1));
    let o = o.load(s2, 0xC0865C9C);
    let o = o.inst(same3(0x4E20CC00, s2, s0, s1));
    let o = o.load(s0, 0x40B743C6);
    let o = o.inst(same3(0x4E20CC00, s0, s2, s1));
    let o = o.load(s2, 0xC0405BFE);
    let o = o.inst(same3(0x4E20CC00, s2, s0, s1));
    let o = o.inst(same3(0x4E20D400, dst, dst, s2));
    o
}

/// exp2: floor, a polynomial on the fraction, then scaling through the
/// exponent bits.
#[verifier::opaque]
pub open spec fn exp2_out(o: Output, dst: Reg, src: Reg, scratch: [Reg; 4]) -> Output {
    let s0 = scratch[0];
    let s1 = scratch[1];
    let s2 = scratch[2];
    let o = o.inst(misc2(0x4E219800, s0, src));
    let o = o.inst(same3(0x4EA0D400, s1, src, s0));
    let o = o.load(s2, 0x3C5E18BA);
    let o = o.load(dst, 0x3D551FD2);
    let o = o.inst(same3(0x4E20CC00, dst, s2, s1));
    let o = o.load(s2, 0x3E772C23);
    let o = o.inst(same3(0x4E20CC00, s2, dst, s1));
    let o = o.load(dst, 0x3F317218);
    let o = o.inst(same3(0x4E20CC00, dst, s2, s1));
    let o = o.load(s2, 0x3F800000);
    let o = o.inst(same3(0x4E20CC00, s2, dst, s1));
    let o = o.inst(misc2(0x4EA1B800, s1, s0));
    let o = o.bits(dst, 127);
    let o = o.inst(same3(0x4EA08400, s1, s1, dst));
    let o = o.inst(shl_word(s1, s1, 23));
    let o = o.inst(same3(0x6E20DC00, dst, s2, s1));
    o
}

/// pow(x, y) = exp2(y * log2(x)).
pub open spec fn pow_out(o: Output, dst: Reg, src1: Reg, src2: Reg, scratch: [Reg; 4]) -> Output {
    let s3 = scratch[3];
    let o = log2_out(o, s3, src1, scratch).inst(same3(0x6E20DC00, s3, src2, s3));
    exp2_out(o, dst, s3, scratch)
}

/// log2(x), elementwise.
pub fn emit_log2_builtin(
    code: &mut Vec<u8>,
    pool: &mut ConstPool,
    dst: Reg,
    src: Reg,
    scratch: [Reg; 4],
) -> (r: Result<(), &'static str>)
    requires
        old(pool).wf(),
    ensures
        final(pool).wf(),
        ({
            let out = log2_out(
                (Output { code: old(code)@, pool: old(pool)@, ok: true }),
                dst,
                src,
                scratch,
            );
            &&& final(code)@ == out.code
            &&& final(pool)@ == out.pool
            &&& r == out.status()
        }),
{
    proof {
        reveal(log2_out);
    }
    let s0 = scratch[0];
    let s1 = scratch[1];
    let s2 = scratch[2];
    emit_ushr(code, s0, src, 23);
    emit_u32_const(code, s2, 127);
    emit_sub_i32(code, s0, s0, s2);
    emit_scvtf(code, dst, s0);
    emit_u32_const(code, s2, 0x007FFFFF);
    emit_and(code, s1, src, s2);
    emit_u32_const(code, s2, 0x3F800000);
    emit_orr(code, s1, s1, s2);
    // sqrt(2)
    if let Err(e) = emit_pool_load(code, pool, s2, 0x3FB504F3) {
        return Err(e);
    }
    emit_fcmge(code, s2, s1, s2);
    // 1
    if let Err(e) = emit_pool_load(code, pool, s0, 0x3F800000) {
        return Err(e);
    }
    emit_and(code, s0, s0, s2);
    emit_fadd(code, dst, dst, s0);
    // 0.5
    if let Err(e) = emit_pool_load(code, pool, s0, 0x3F000000) {
        return Err(e);
    }
    emit_fmul(code, s0, s1, s0);
    emit_bsl(code, s2, s0, s1);
    emit_mov(code, s1, s2);
    // -0.3200435
    if let Err(e) = emit_pool_load(code, pool, s2, 0xBEA3DCBE) {
        return Err(e);
    }
    // 1.7974969
    if let Err(e) = emit_pool_load(code, pool, s0, 0x3FE61461) {
        return Err(e);
    }
    emit_fmla(code, s0, s2, s1);
    // -4.198805
    if let Err(e) = emit_pool_load(code, pool, s2, 0xC0865C9C) {
        return Err(e);
    }
    emit_fmla(code, s2, s0, s1);
    // 5.727023
    if let Err(e) = emit_pool_load(code, pool, s0, 0x40B743C6) {
        return Err(e);
    }
    emit_fmla(code, s0, s2, s1);
    // -3.0056148
    if let Err(e) = emit_pool_load(code, pool, s2, 0xC0405BFE) {
        return Err(e);
    }
    emit_fmla(code, s2, s0, s1);
    emit_fadd(code, dst, dst, s2);
    Ok(())
}

/// exp2(x), elementwise.
pub fn emit_exp2_builtin(
    code: &mut Vec<u8>,
    pool: &mut ConstPool,
    dst: Reg,
    src: Reg,
    scratch: [Reg; 4],
) -> (r: Result<(), &'static str>)
    requires
        old(pool).wf(),
    ensures
        final(pool).wf(),
        ({
            let out = exp2_out(
                (Output { code: old(code)@, pool: old(pool)@, ok: true }),
                dst,
                src,
                scratch,
            );
            &&& final(code)@ == out.code
            &&& final(pool)@ == out.pool
            &&& r == out.status()
        }),
{
    proof {
        reveal(exp2_out);
    }
    let s0 = scratch[0];
    let s1 = scratch[1];
    let s2 = scratch[2];
    emit_frintm(code, s0, src);
    emit_fsub(code, s1, src, s0);
    // 0.0135557
    if let Err(e) = emit_pool_load(code, pool, s2, 0x3C5E18BA) {
        return Err(e);
    }
    // 0.0520323
    if let Err(e) = emit_pool_load(code, pool, dst, 0x3D551FD2) {
        return Err(e);
    }
    emit_fmla(code, dst, s2, s1);
    // 0.2413793
    if let Err(e) = emit_pool_load(code, pool, s2, 0x3E772C23) {
        return Err(e);
    }
    emit_fmla(code, s2, dst, s1);
    // ln(2)
    if let Err(e) = emit_pool_load(code, pool, dst, 0x3F317218) {
        return Err(e);
    }
    emit_fmla(code, dst, s2, s1);
    // 1
    if let Err(e) = emit_pool_load(code, pool, s2, 0x3F800000) {
        return Err(e);
    }
    emit_fmla(code, s2, dst, s1);
    emit_fcvtzs(code, s1, s0);
    emit_u32_const(code, dst, 127);
    emit_add_i32(code, s1, s1, dst);
    emit_shl(code, s1, s1, 23);
    emit_fmul(code, dst, s2, s1);
    Ok(())
}

/// round(x): to nearest, ties away from zero.
pub fn emit_round_builtin(code: &mut Vec<u8>, dst: Reg, src: Reg)
    ensures
        final(code)@ == old(code)@.inst(misc2(0x6E218800, dst, src)),
{
    emit_frinta(code, dst, src);
}

/// fract(x) = x - floor(x).
pub fn emit_fract_builtin(code: &mut Vec<u8>, dst: Reg, src: Reg, scratch: [Reg; 4])
    ensures
        final(code)@ == old(code)@.inst(misc2(0x4E219800, scratch[0], src)).inst(
            same3(0x4EA0D400, dst, src, scratch[0]),
        ),
{
    let s0 = scratch[0];
    emit_frintm(code, s0, src);
    emit_fsub(code, dst, src, s0);
}

/// pow(x, y), elementwise.
pub fn emit_pow_builtin(
    code: &mut Vec<u8>,
    pool: &mut ConstPool,
    dst: Reg,
    src1: Reg,
    src2: Reg,
    scratch: [Reg; 4],
) -> (r: Result<(), &'static str>)
    requires
        old(pool).wf(),
    ensures
        final(pool).wf(),
        ({
            let out = pow_out(
                (Output { code: old(code)@, pool: old(pool)@, ok: true }),
                dst,
                src1,
                src2,
                scratch,
            );
            &&& final(code)@ == out.code
            &&& final(pool)@ == out.pool
            &&& r == out.status()
        }),
{
    proof {
        reveal(exp2_out);
    }
    let s3 = scratch[3];
    if let Err(e) = emit_log2_builtin(code, pool, s3, src1, scratch) {
        return Err(e);
    }
    emit_fmul(code, s3, src2, s3);
    emit_exp2_builtin(code, pool, dst, s3, scratch)
}

/// Code of hypot(x, y) = sqrt(x * x + y * y).
pub open spec fn hypot_code(code: Seq<u8>, dst: Reg, src1: Reg, src2: Reg) -> Seq<u8> {
    code.inst(same3(0x6E20DC00, dst, src1, src1)).inst(same3(0x4E20CC00, dst, src2, src2)).inst(
        misc2(0x6EA1F800, dst, dst),
    )
}

/// hypot(x, y), elementwise.
pub fn emit_hypot_builtin(code: &mut Vec<u8>, dst: Reg, src1: Reg, src2: Reg)
    ensures
        final(code)@ == hypot_code(old(code)@, dst, src1, src2),
{
    emit_fmul(code, dst, src1, src1);
    emit_fmla(code, dst, src2, src2);
    emit_fsqrt(code, dst, dst);
}

proof fn lemma_log2_grows(o: Output, dst: Reg, src: Reg, scratch: [Reg; 4])
    ensures
        log2_out(o, dst, src, scratch).code.len() >= o.code.len(),
{
    reveal(log2_out);
    let s0 = scratch[0];
    let s1 = scratch[1];
    let s2 = scratch[2];
    let o0 = o.inst(ushr_word(s0, src, 23));
    lemma_inst_grows(o, ushr_word(s0, src, 23));
    let o1 = o0.bits(s2, 127);
    lemma_bits_grows(o0, s2, 127);
    let o2 = o1.inst(same3(0x6EA08400, s0, s0, s2));
    lemma_inst_grows(o1, same3(0x6EA08400, s0, s0, s2));
    let o3 = o2.inst(misc2(0x4E21D800, dst, s0));
    lemma_inst_grows(o2, misc2(0x4E21D800, dst, s0));
    let o4 = o3.bits(s2, 0x007FFFFF);
    lemma_bits_grows(o3, s2, 0x007FFFFF);
    let o5 = o4.inst(same3(0x4E201C00, s1, src, s2));
    lemma_inst_grows(o4, same3(0x4E201C00, s1, src, s2));
    let o6 = o5.bits(s2, 0x3F800000);
    lemma_bits_grows(o5, s2, 0x3F800000);
    let o7 = o6.inst(same3(0x4EA01C00, s1, s1, s2));
    lemma_inst_grows(o6, same3(0x4EA01C00, s1, s1, s2));
    let o8 = o7.load(s2, 0x3FB504F3);
    lemma_load_grows(o7, s2, 0x3FB504F3);
    let o9 = o8.inst(same3(0x6E20E400, s2, s1, s2));
    lemma_inst_grows(o8, same3(0x6E20E400, s2, s1, s2));
    let o10 = o9.load(s0, 0x3F800000);
    lemma_load_grows(o9, s0, 0x3F800000);
    let o11 = o10.inst(same3(0x4E201C00, s0, s0, s2));
    lemma_inst_grows(o10, same3(0x4E201C00, s0, s0, s2));
    let o12 = o11.inst(same3(0x4E20D400, dst, dst, s0));
    lemma_inst_grows(o11, same3(0x4E20D400, dst, dst, s0));
    let o13 = o12.load(s0, 0x3F000000);
    lemma_load_grows(o12, s0, 0x3F000000);
    let o14 = o13.inst(same3(0x6E20DC00, s0, s1, s0));
    lemma_inst_grows(o13, same3(0x6E20DC00, s0, s1, s0));
    let o15 = o14.inst(same3(0x6E601C00, s2, s0, s1));
    lemma_inst_grows(o14, same3(0x6E601C00, s2, s0, s1));
    let o16 = o15.mov(s1, s2);
    lemma_copy_grows(o15, s1, s2);
    let o17 = o16.load(s2, 0xBEA3DCBE);
    lemma_load_grows(o16, s2, 0xBEA3DCBE);
    let o18 = o17.load(s0, 0x3FE61461);
    lemma_load_grows(o17, s0, 0x3FE61461);
    let o19 = o18.inst(same3(0x4E20CC00, s0, s2, s1));
    lemma_inst_grows(o18, same3(0x4E20CC00, s0, s2, s1));
    let o20 = o19.load(s2, 0xC0865C9C);
    lemma_load_grows(o19, s2, 0xC0865C9C);
    let o21 = o20.inst(same3(0x4E20CC00, s2, s0, s1));
    lemma_inst_grows(o20, same3(0x4E20CC00, s2, s0, s1));
    let o22 = o21.load(s0, 0x40B743C6);
    lemma_load_grows(o21, s0, 0x40B743C6);
    let o23 = o22.inst(same3(0x4E20CC00, s0, s2, s1));
    lemma_inst_grows(o22, same3(0x4E20CC00, s0, s2, s1));
    let o24 = o23.load(s2, 0xC0405BFE);
    lemma_load_grows(o23, s2, 0xC0405BFE);
    let o25 = o24.inst(same3(0x4E20CC00, s2, s0, s1));
    lemma_inst_grows(o24, same3(0x4E20CC00, s2, s0, s1));
    let o26 = o25.inst(same3(0x4E20D400, dst, dst, s2));
    lemma_inst_grows(o25, same3(0x4E20D400, dst, dst, s2));
}

proof fn lemma_exp2_grows(o: Output, dst: Reg, src: Reg, scratch: [Reg; 4])
    ensures
        exp2_out(o, dst, src, scratch).code.len() >= o.code.len(),
{
    reveal(exp2_out);
    let s0 = scratch[0];
    let s1 = scratch[1];
    let s2 = scratch[2];
    let o0 = o.inst(misc2(0x4E219800, s0, src));
    lemma_inst_grows(o, misc2(0x4E219800, s0, src));
    let o1 = o0.inst(same3(0x4EA0D400, s1, src, s0));
    lemma_inst_grows(o0, same3(0x4EA0D400, s1, src, s0));
    let o2 = o1.load(s2, 0x3C5E18BA);
    lemma_load_grows(o1, s2, 0x3C5E18BA);
    let o3 = o2.load(dst, 0x3D551FD2);
    lemma_load_grows(o2, dst, 0x3D551FD2);
    let o4 = o3.inst(same3(0x4E20CC00, dst, s2, s1));
    lemma_inst_grows(o3, same3(0x4E20CC00, dst, s2, s1));
    let o5 = o4.load(s2, 0x3E772C23);
    lemma_load_grows(o4, s2, 0x3E772C23);
    let o6 = o5.inst(same3(0x4E20CC00, s2, dst, s1));
    lemma_inst_grows(o5, same3(0x4E20CC00, s2, dst, s1));
    let o7 = o6.load(dst, 0x3F317218);
    lemma_load_grows(o6, dst, 0x3F317218);
    let o8 = o7.inst(same3(0x4E20CC00, dst, s2, s1));
    lemma_inst_grows(o7, same3(0x4E20CC00, dst, s2, s1));
    let o9 = o8.load(s2, 0x3F800000);
    lemma_load_grows(o8, s2, 0x3F800000);
    let o10 = o9.inst(same3(0x4E20CC00, s2, dst, s1));
    lemma_inst_grows(o9, same3(0x4E20CC00, s2, dst, s1));
    let o11 = o10.inst(misc2(0x4EA1B800, s1, s0));
    lemma_inst_grows(o10, misc2(0x4EA1B800, s1, s0));
    let o12 = o11.bits(dst, 127);
    lemma_bits_grows(o11, dst, 127);
    let o13 = o12.inst(same3(0x4EA08400, s1, s1, dst));
    lemma_inst_grows(o12, same3(0x4EA08400, s1, s1, dst));
    let o14 = o13.inst(shl_word(s1, s1, 23));
    lemma_inst_grows(o13, shl_word(s1, s1, 23));
    let o15 = o14.inst(same3(0x6E20DC00, dst, s2, s1));
    lemma_inst_grows(o14, same3(0x6E20DC00, dst, s2, s1));
}

/// A power only appends.
pub proof fn lemma_pow_grows(o: Output, dst: Reg, src1: Reg, src2: Reg, scratch: [Reg; 4])
    ensures
        pow_out(o, dst, src1, src2, scratch).code.len() >= o.code.len(),
{
    let s3 = scratch[3];
    let a = log2_out(o, s3, src1, scratch);
    let w = same3(0x6E20DC00, s3, src2, s3);
    lemma_log2_grows(o, s3, src1, scratch);
    lemma_inst_grows(a, w);
    lemma_exp2_grows(a.inst(w), dst, s3, scratch);
}

proof fn lemma_inst_grows(o: Output, w: u32)
    ensures
        o.inst(w).code.len() >= o.code.len(),
{
}

proof fn lemma_bits_grows(o: Output, dst: Reg, bits: u32)
    ensures
        o.bits(dst, bits).code.len() >= o.code.len(),
{
}

proof fn lemma_copy_grows(o: Output, dst: Reg, src: Reg)
    ensures
        o.mov(dst, src).code.len() >= o.code.len(),
{
}

proof fn lemma_load_grows(o: Output, dst: Reg, bits: u32)
    ensures
        o.load(dst, bits).code.len() >= o.code.len(),
{
}

} // verus!
