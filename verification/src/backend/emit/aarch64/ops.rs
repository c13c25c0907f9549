//! Operations dispatched by kind.

use crate::backend::emit::aarch64::builtins::{
    emit_fract_builtin, emit_hypot_builtin, emit_pow_builtin, emit_round_builtin, hypot_code,
    pow_out,
};
use crate::backend::emit::aarch64::{
    emit32, emit_add_i32, emit_and, emit_bsl, emit_fabs, emit_fadd, emit_fcmeq, emit_fcmge,
    emit_fcmgt, emit_fcvtzs, emit_fdiv, emit_fmax, emit_fmin, emit_fmla, emit_fmul, emit_fneg,
    emit_frecip, emit_frintm, emit_frintp, emit_frsqrt, emit_fsqrt, emit_fsub, emit_not, emit_orr,
    emit_scvtf, emit_shl, emit_ushr, encode_mov_v, frecip_code, frsqrt_code, misc2, mov_v, same3,
    shl_word, ushr_word,
};
use crate::backend::emit::bytes::CodeBytes;
use crate::backend::emit::pool::{ConstPool, Output};
use crate::backend::emit::Reg;
use crate::kind::OpKind;
use vstd::prelude::*;

verus! {

/// Code of a unary operation, if it is a machine primitive.
pub open spec fn unary_code(
    code: Seq<u8>,
    op: OpKind,
    dst: Reg,
    src: Reg,
    scratch: [Reg; 4],
) -> Option<Seq<u8>> {
    match op {
        OpKind::Neg => Some(code.inst(misc2(0x6EA0F800, dst, src))),
        OpKind::Abs => Some(code.inst(misc2(0x4EA0F800, dst, src))),
        OpKind::Sqrt => Some(code.inst(misc2(0x6EA1F800, dst, src))),
        OpKind::Rsqrt => Some(frsqrt_code(code, dst, src, scratch[0])),
        OpKind::Recip => Some(frecip_code(code, dst, src, scratch[0])),
        OpKind::Floor => Some(code.inst(misc2(0x4E219800, dst, src))),
        OpKind::Ceil => Some(code.inst(misc2(0x4EA18800, dst, src))),
        OpKind::Round => Some(code.inst(misc2(0x6E218800, dst, src))),
        OpKind::Fract => Some(
            code.inst(misc2(0x4E219800, scratch[0], src)).inst(
                same3(0x4EA0D400, dst, src, scratch[0]),
            ),
        ),
        OpKind::TruncToInt => Some(code.inst(misc2(0x4EA1B800, dst, src))),
        OpKind::IntToFloat => Some(code.inst(misc2(0x4E21D800, dst, src))),
        _ => None,
    }
}

/// Emit a unary operation. Transcendentals are expanded to primitives before
/// emission, so they are refused here.
pub fn emit_unary(
    code: &mut Vec<u8>,
    _pool: &mut ConstPool,
    op: OpKind,
    dst: Reg,
    src: Reg,
    scratch: [Reg; 4],
) -> (r: Result<(), &'static str>)
    ensures
        *final(_pool) == *old(_pool),
        match unary_code(old(code)@, op, dst, src, scratch) {
            Some(c) => final(code)@ == c && r == Ok::<(), &'static str>(()),
            None => final(code)@ == old(code)@ && r == Err::<(), &'static str>(
                "unary emit not implemented for this op (lowering not run?)",
            ),
        },
{
    match op {
        OpKind::Neg => emit_fneg(code, dst, src),
        OpKind::Abs => emit_fabs(code, dst, src),
        OpKind::Sqrt => emit_fsqrt(code, dst, src),
        OpKind::Rsqrt => emit_frsqrt(code, dst, src, scratch[0]),
        OpKind::Recip => emit_frecip(code, dst, src, scratch[0]),
        OpKind::Floor => emit_frintm(code, dst, src),
        OpKind::Ceil => emit_frintp(code, dst, src),
        OpKind::Round => emit_round_builtin(code, dst, src),
        OpKind::Fract => emit_fract_builtin(code, dst, src, scratch),
        OpKind::TruncToInt => emit_fcvtzs(code, dst, src),
        OpKind::IntToFloat => emit_scvtf(code, dst, src),
        _ => return Err("unary emit not implemented for this op (lowering not run?)"),
    }
    Ok(())
}

/// Code of a shift by an immediate.
pub open spec fn shift_code(
    code: Seq<u8>,
    op: OpKind,
    dst: Reg,
    src: Reg,
    amount: u8,
) -> Option<Seq<u8>> {
    match op {
        OpKind::Shl => Some(code.inst(shl_word(dst, src, amount))),
        OpKind::Shr => Some(code.inst(ushr_word(dst, src, amount))),
        _ => None,
    }
}

/// Emit a logical shift of 32-bit lanes by an immediate.
pub fn emit_shift_imm(
    code: &mut Vec<u8>,
    op: OpKind,
    dst: Reg,
    src: Reg,
    amount: u8,
) -> (r: Result<(), &'static str>)
    requires
        op is Shr ==> amount <= 64,
    ensures
        match shift_code(old(code)@, op, dst, src, amount) {
            Some(c) => final(code)@ == c && r == Ok::<(), &'static str>(()),
            None => final(code)@ == old(code)@ && r == Err::<(), &'static str>(
                "aarch64 emit_shift_imm: not a shift op",
            ),
        },
{
    match op {
        OpKind::Shl => emit_shl(code, dst, src, amount),
        OpKind::Shr => emit_ushr(code, dst, src, amount),
        _ => return Err("aarch64 emit_shift_imm: not a shift op"),
    }
    Ok(())
}

/// Code of a binary operation, if it is a machine primitive.
pub open spec fn binary_code(
    code: Seq<u8>,
    op: OpKind,
    dst: Reg,
    src1: Reg,
    src2: Reg,
) -> Option<Seq<u8>> {
    match op {
        OpKind::Add => Some(code.inst(same3(0x4E20D400, dst, src1, src2))),
        OpKind::Sub => Some(code.inst(same3(0x4EA0D400, dst, src1, src2))),
        OpKind::Mul => Some(code.inst(same3(0x6E20DC00, dst, src1, src2))),
        OpKind::Div => Some(code.inst(same3(0x6E20FC00, dst, src1, src2))),
        OpKind::Min => Some(code.inst(same3(0x4EA0F400, dst, src1, src2))),
        OpKind::Max => Some(code.inst(same3(0x4E20F400, dst, src1, src2))),
        OpKind::Gt => Some(code.inst(same3(0x6EA0E400, dst, src1, src2))),
        OpKind::Ge => Some(code.inst(same3(0x6E20E400, dst, src1, src2))),
        OpKind::Lt => Some(code.inst(same3(0x6EA0E400, dst, src2, src1))),
        OpKind::Le => Some(code.inst(same3(0x6E20E400, dst, src2, src1))),
        OpKind::Eq => Some(code.inst(same3(0x4E20E400, dst, src1, src2))),
        OpKind::Ne => Some(
            code.inst(same3(0x4E20E400, dst, src1, src2)).inst(misc2(0x6E205800, dst, dst)),
        ),
        OpKind::IAdd => Some(code.inst(same3(0x4EA08400, dst, src1, src2))),
        OpKind::BitAnd => Some(code.inst(same3(0x4E201C00, dst, src1, src2))),
        OpKind::BitOr => Some(code.inst(same3(0x4EA01C00, dst, src1, src2))),
        _ => None,
    }
}

/// Emit a binary operation. Comparisons leave a lane mask in `dst`.
pub fn emit_binary(code: &mut Vec<u8>, op: OpKind, dst: Reg, src1: Reg, src2: Reg)
    requires
        binary_code(old(code)@, op, dst, src1, src2) is Some,
    ensures
        Some(final(code)@) == binary_code(old(code)@, op, dst, src1, src2),
{
    match op {
        OpKind::Add => emit_fadd(code, dst, src1, src2),
        OpKind::Sub => emit_fsub(code, dst, src1, src2),
        OpKind::Mul => emit_fmul(code, dst, src1, src2),
        OpKind::Div => emit_fdiv(code, dst, src1, src2),
        OpKind::Min => emit_fmin(code, dst, src1, src2),
        OpKind::Max => emit_fmax(code, dst, src1, src2),
        OpKind::Gt => emit_fcmgt(code, dst, src1, src2),
        OpKind::Ge => emit_fcmge(code, dst, src1, src2),
        OpKind::Lt => emit_fcmgt(code, dst, src2, src1),
        OpKind::Le => emit_fcmge(code, dst, src2, src1),
        OpKind::Eq => emit_fcmeq(code, dst, src1, src2),
        OpKind::Ne => {
            emit_fcmeq(code, dst, src1, src2);
            emit_not(code, dst, dst);
        },
        OpKind::IAdd => emit_add_i32(code, dst, src1, src2),
        OpKind::BitAnd => emit_and(code, dst, src1, src2),
        OpKind::BitOr => emit_orr(code, dst, src1, src2),
        _ => {},
    }
}

/// Emit a binary operation that needs scratch registers.
pub fn emit_binary_transcendental(
    code: &mut Vec<u8>,
    pool: &mut ConstPool,
    op: OpKind,
    dst: Reg,
    src1: Reg,
    src2: Reg,
    scratch: [Reg; 4],
) -> (r: Result<(), &'static str>)
    requires
        old(pool).wf(),
    ensures
        final(pool).wf(),
        match op {
            OpKind::Pow => {
                let out = pow_out(
                    (Output { code: old(code)@, pool: old(pool)@, ok: true }),
                    dst,
                    src1,
                    src2,
                    scratch,
                );
                final(code)@ == out.code && final(pool)@ == out.pool && r == out.status()
            },
            OpKind::Hypot => final(code)@ == hypot_code(old(code)@, dst, src1, src2)
                && final(pool)@ == old(pool)@ && r == Ok::<(), &'static str>(()),
            _ => final(code)@ == old(code)@ && final(pool)@ == old(pool)@ && r == Err::<
                (),
                &'static str,
            >("binary transcendental emit not implemented for this op"),
        },
{
    match op {
        OpKind::Pow => emit_pow_builtin(code, pool, dst, src1, src2, scratch),
        OpKind::Hypot => {
            emit_hypot_builtin(code, dst, src1, src2);
            Ok(())
        },
        _ => Err("binary transcendental emit not implemented for this op"),
    }
}

/// Code with `src` copied to `dst`, if they differ.
pub open spec fn copied_code(code: Seq<u8>, dst: Reg, src: Reg) -> Seq<u8> {
    if dst.0 != src.0 {
        code.inst(mov_v(dst.0, src.0))
    } else {
        code
    }
}

/// Code of a ternary operation, if it is a machine primitive. A multiply-add
/// whose destination overlaps a factor but not the addend is split, since the
/// fused form would overwrite the factor first.
pub open spec fn ternary_code(
    code: Seq<u8>,
    op: OpKind,
    dst: Reg,
    a: Reg,
    b: Reg,
    c: Reg,
) -> Option<Seq<u8>> {
    match op {
        OpKind::MulAdd => if (dst.0 == a.0 || dst.0 == b.0) && dst.0 != c.0 {
            Some(code.inst(same3(0x6E20DC00, dst, a, b)).inst(same3(0x4E20D400, dst, dst, c)))
        } else {
            Some(copied_code(code, dst, c).inst(same3(0x4E20CC00, dst, a, b)))
        },
        OpKind::Select => Some(copied_code(code, dst, a).inst(same3(0x6E601C00, dst, b, c))),
        OpKind::Clamp => Some(
            code.inst(same3(0x4EA0F400, dst, a, c)).inst(same3(0x4E20F400, dst, dst, b)),
        ),
        _ => None,
    }
}

/// Emit a ternary operation.
pub fn emit_ternary(code: &mut Vec<u8>, op: OpKind, dst: Reg, a: Reg, b: Reg, c: Reg)
    requires
        ternary_code(old(code)@, op, dst, a, b, c) is Some,
    ensures
        Some(final(code)@) == ternary_code(old(code)@, op, dst, a, b, c),
{
    match op {
        OpKind::MulAdd => {
            if (dst.0 == a.0 || dst.0 == b.0) && dst.0 != c.0 {
                emit_fmul(code, dst, a, b);
                emit_fadd(code, dst, dst, c);
            } else {
                if dst.0 != c.0 {
                    emit32(code, encode_mov_v(dst.0, c.0));
                }
                emit_fmla(code, dst, a, b);
            }
        },
        OpKind::Select => {
            if dst.0 != a.0 {
                emit32(code, encode_mov_v(dst.0, a.0));
            }
            emit_bsl(code, dst, b, c);
        },
        OpKind::Clamp => {
            emit_fmin(code, dst, a, c);
            emit_fmax(code, dst, dst, b);
        },
        _ => {},
    }
}

} // verus!
