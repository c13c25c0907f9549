//! ARM64/NEON instruction encoding.
//!
//! Each function appends the machine code of one instruction, or of a small
//! fixed sequence. Offsets are in bytes.

use crate::backend::emit::bytes::{with_word, write32, CodeBytes};
use crate::backend::emit::Reg;
use vstd::prelude::*;

pub mod assembler;
pub mod branch;
pub mod builtins;
pub mod disassembly;
pub mod effects;
pub mod ends;
pub mod frame;
pub mod model;
pub mod ops;
pub mod plans;
pub mod scanline;
pub mod skips;

pub use crate::backend::emit::aarch64::assembler::Aarch64Asm;
pub use crate::backend::emit::aarch64::branch::{
    emit_b, emit_cbnz_w16, emit_cbz_w16, emit_epilogue, emit_fmov_to_gp, emit_prologue, emit_umaxv,
    emit_uminv, patch_b, patch_cbz_cbnz,
};
pub use crate::backend::emit::aarch64::builtins::{
    emit_fract_builtin, emit_hypot_builtin, emit_round_builtin,
};
pub use crate::backend::emit::aarch64::disassembly::disassemble_code;
pub use crate::backend::emit::aarch64::ops::{emit_binary, emit_shift_imm, emit_ternary};
pub use crate::backend::emit::aarch64::scanline::{
    emit_scanline_epilogue, emit_scanline_epilogue_hoisted, emit_scanline_loop_hoisted,
    emit_scanline_prologue, emit_scanline_prologue_hoisted, HoistedScanlinePrologue,
    ScanlinePrologue,
};
pub use crate::backend::emit::bytes::emit32;

verus! {

/// Word of a NEON 3-same instruction: `Vd, Vn, Vm`.
pub open spec fn same3(opcode: u32, dst: Reg, src1: Reg, src2: Reg) -> u32 {
    opcode | (dst.0 as u32 & 0x1F) | ((src1.0 as u32 & 0x1F) << 5) | ((src2.0 as u32 & 0x1F) << 16)
}

/// Word of a NEON two-register instruction: `Vd, Vn`.
pub open spec fn misc2(opcode: u32, dst: Reg, src: Reg) -> u32 {
    opcode | (dst.0 as u32 & 0x1F) | ((src.0 as u32 & 0x1F) << 5)
}

/// Word of an instruction with a 12-bit immediate, a base and a data register.
pub open spec fn imm12_word(opcode: u32, imm12: u32, base: u32, data: Reg) -> u32 {
    opcode | (imm12 << 10) | (base << 5) | (data.0 as u32)
}

/// Word of `MOV Vd.16B, Vn.16B`.
pub open spec fn mov_v(dst: u8, src: u8) -> u32 {
    0x4EA01C00u32 | ((src as u32) << 5) | ((src as u32) << 16) | (dst as u32)
}

/// Encode a NEON 3-same instruction.
#[inline]
fn encode_3same(opcode: u32, dst: Reg, src1: Reg, src2: Reg) -> (w: u32)
    ensures
        w == same3(opcode, dst, src1, src2),
{
    opcode | (dst.0 as u32 & 0x1F) | ((src1.0 as u32 & 0x1F) << 5) | ((src2.0 as u32 & 0x1F) << 16)
}

/// Encode a NEON register move.
#[inline]
pub(crate) fn encode_mov_v(dst: u8, src: u8) -> (w: u32)
    ensures
        w == mov_v(dst, src),
{
    0x4EA01C00u32 | ((src as u32) << 5) | ((src as u32) << 16) | (dst as u32)
}

/// Encode a NEON two-register instruction.
#[inline]
fn encode_2misc(opcode: u32, dst: Reg, src: Reg) -> (w: u32)
    ensures
        w == misc2(opcode, dst, src),
{
    opcode | (dst.0 as u32 & 0x1F) | ((src.0 as u32 & 0x1F) << 5)
}

/// Encode an instruction with a 12-bit immediate.
#[inline]
fn encode_imm12(opcode: u32, imm12: u32, base: u32, data: Reg) -> (w: u32)
    ensures
        w == imm12_word(opcode, imm12, base, data),
{
    opcode | (imm12 << 10) | (base << 5) | (data.0 as u32)
}

// ---------------------------------------------------------------------------
// Load / store
// ---------------------------------------------------------------------------

/// LDR Vd, [X0, #offset]: 128-bit load; the offset is scaled by 16.
pub fn emit_ldr_voff(code: &mut Vec<u8>, dst: Reg, offset: u16)
    ensures
        final(code)@ == old(code)@.inst(imm12_word(0x3DC00000, (offset / 16) as u32, 0, dst)),
{
    let imm12: u32 = (offset / 16) as u32;
    emit32(code, encode_imm12(0x3DC00000, imm12, 0, dst));
}

/// STR Vt, [X0, #offset]: 128-bit store; the offset is scaled by 16.
pub fn emit_str_voff(code: &mut Vec<u8>, src: Reg, offset: u16)
    ensures
        final(code)@ == old(code)@.inst(imm12_word(0x3D800000, (offset / 16) as u32, 0, src)),
{
    let imm12: u32 = (offset / 16) as u32;
    emit32(code, encode_imm12(0x3D800000, imm12, 0, src));
}

/// Repeated instructions `base | (chunk << 10)` whose 12-bit chunks add up to
/// `size`: each is the largest multiple of 16 that fits, or what is left.
pub open spec fn chunked(code: Seq<u8>, base: u32, size: u32) -> Seq<u8>
    decreases size,
{
    if size == 0 {
        code
    } else if size <= 4080 {
        code.inst(base | (size << 10))
    } else {
        chunked(code.inst(base | (4080u32 << 10)), base, (size - 4080) as u32)
    }
}

/// The chunks [`chunked`] splits `size` into.
pub open spec fn chunks(size: u32) -> Seq<u32>
    decreases size,
{
    if size == 0 {
        Seq::empty()
    } else if size <= 4080 {
        seq![size]
    } else {
        seq![4080u32] + chunks((size - 4080) as u32)
    }
}

/// `code` followed by one `base | (chunk << 10)` instruction per chunk.
pub open spec fn per_chunk(code: Seq<u8>, base: u32, cs: Seq<u32>) -> Seq<u8>
    decreases cs.len(),
{
    if cs.len() == 0 {
        code
    } else {
        per_chunk(code.inst(base | (cs[0] << 10)), base, cs.drop_first())
    }
}

/// Total of a list of chunks.
pub open spec fn chunk_total(cs: Seq<u32>) -> nat
    decreases cs.len(),
{
    if cs.len() == 0 {
        0
    } else {
        cs[0] as nat + chunk_total(cs.drop_first())
    }
}

/// The stack pointer moves by exactly the requested size, in steps that fit a
/// 12-bit immediate and keep 16-byte alignment.
pub proof fn chunks_add_up(code: Seq<u8>, base: u32, size: u32)
    ensures
        chunked(code, base, size) == per_chunk(code, base, chunks(size)),
        chunk_total(chunks(size)) == size,
        forall|i: int| 0 <= i < chunks(size).len() ==> 0 < #[trigger] chunks(size)[i] <= 4095,
        size % 16 == 0 ==> forall|i: int|
            0 <= i < chunks(size).len() ==> #[trigger] chunks(size)[i] % 16 == 0,
    decreases size,
{
    if size == 0 {
    } else if size <= 4080 {
        assert(chunks(size).drop_first() =~= Seq::<u32>::empty());
        assert(per_chunk(
            code.inst(base | (chunks(size)[0] << 10)),
            base,
            Seq::<u32>::empty(),
        ) == code.inst(base | (chunks(size)[0] << 10)));
        assert(chunk_total(Seq::<u32>::empty()) == 0);
    } else {
        let rest = (size - 4080) as u32;
        chunks_add_up(code.inst(base | (4080u32 << 10)), base, rest);
        assert(chunks(size).drop_first() =~= chunks(rest));
        assert forall|i: int| 0 <= i < chunks(size).len() implies 0 < #[trigger] chunks(size)[i]
            <= 4095 by {
            if i > 0 {
                assert(chunks(size)[i] == chunks(rest)[i - 1]);
            }
        }
        if size % 16 == 0 {
            assert forall|i: int| 0 <= i < chunks(size).len() implies #[trigger] chunks(size)[i]
                % 16 == 0 by {
                if i > 0 {
                    assert(chunks(size)[i] == chunks(rest)[i - 1]);
                }
            }
        }
    }
}

/// Instructions in chunks only append.
pub proof fn lemma_chunked_grows(code: Seq<u8>, base: u32, size: u32)
    ensures
        chunked(code, base, size).len() >= code.len(),
    decreases size,
{
    if size > 4080 {
        lemma_chunked_grows(code.inst(base | (4080u32 << 10)), base, (size - 4080) as u32);
    }
}

/// Appends the instructions of [`chunked`].
fn emit_chunked(code: &mut Vec<u8>, base: u32, size: u32)
    ensures
        final(code)@ == chunked(old(code)@, base, size),
{
    let mut remaining: u32 = size;
    while remaining > 0
        invariant
            chunked(code@, base, remaining) == chunked(old(code)@, base, size),
        decreases remaining,
    {
        let chunk: u32 = if remaining < 4080 {
            remaining
        } else {
            4080
        };
        emit32(code, base | (chunk << 10));
        remaining = remaining - chunk;
    }
}

/// Code computing `SP + offset` in X16.
pub open spec fn x16_from_sp(code: Seq<u8>, offset: u32) -> Seq<u8> {
    let first = if offset < 4080 {
        offset
    } else {
        4080u32
    };
    chunked(
        code.inst(imm12_word(0x91000000, first, 31, Reg(16))),
        0x91000000u32 | (16u32 << 5) | 16u32,
        (offset - first) as u32,
    )
}

/// ADD X16, SP, #offset, in as many steps as the 12-bit immediate needs.
fn emit_add_x16_sp(code: &mut Vec<u8>, offset: u32)
    ensures
        final(code)@ == x16_from_sp(old(code)@, offset),
{
    let first: u32 = if offset < 4080 {
        offset
    } else {
        4080
    };
    emit32(code, encode_imm12(0x91000000, first, 31, Reg(16)));
    emit_chunked(code, 0x91000000u32 | (16u32 << 5) | 16u32, offset - first);
}

/// Code of a 128-bit access to `[SP, #offset]`; `opcode` selects load or store.
/// Offsets beyond the scaled immediate go through X16.
pub open spec fn sp_access(code: Seq<u8>, opcode: u32, reg: Reg, offset: u32) -> Seq<u8> {
    if offset / 16 <= 4095 {
        code.inst(imm12_word(opcode, offset / 16, 31, reg))
    } else {
        x16_from_sp(code, offset).inst(imm12_word(opcode, 0, 16, reg))
    }
}

/// LDR Vd, [SP, #offset]: load a 128-bit vector from the stack.
pub fn emit_ldr_sp(code: &mut Vec<u8>, dst: Reg, offset: u32)
    requires
        offset % 16 == 0,
    ensures
        final(code)@ == sp_access(old(code)@, 0x3DC00000, dst, offset),
{
    let imm12: u32 = offset / 16;
    if imm12 <= 4095 {
        emit32(code, encode_imm12(0x3DC00000, imm12, 31, dst));
    } else {
        emit_add_x16_sp(code, offset);
        emit32(code, encode_imm12(0x3DC00000, 0, 16, dst));
    }
}

/// STR Vt, [SP, #offset]: store a 128-bit vector to the stack.
pub fn emit_str_sp(code: &mut Vec<u8>, src: Reg, offset: u32)
    requires
        offset % 16 == 0,
    ensures
        final(code)@ == sp_access(old(code)@, 0x3D800000, src, offset),
{
    let imm12: u32 = offset / 16;
    if imm12 <= 4095 {
        emit32(code, encode_imm12(0x3D800000, imm12, 31, src));
    } else {
        emit_add_x16_sp(code, offset);
        emit32(code, encode_imm12(0x3D800000, 0, 16, src));
    }
}

/// SUB SP, SP, #size: allocate a stack frame.
pub fn emit_sub_sp(code: &mut Vec<u8>, size: u32)
    ensures
        final(code)@ == chunked(old(code)@, 0xD10003FF, size),
{
    emit_chunked(code, 0xD10003FF, size);
}

/// ADD SP, SP, #size: release a stack frame.
pub fn emit_add_sp(code: &mut Vec<u8>, size: u32)
    ensures
        final(code)@ == chunked(old(code)@, 0x910003FF, size),
{
    emit_chunked(code, 0x910003FF, size);
}

// ---------------------------------------------------------------------------
// Single vector instructions
// ---------------------------------------------------------------------------

/// FADD Vd.4S, Vn.4S, Vm.4S
pub fn emit_fadd(code: &mut Vec<u8>, dst: Reg, src1: Reg, src2: Reg)
    ensures
        final(code)@ == old(code)@.inst(same3(0x4E20D400, dst, src1, src2)),
{
    emit32(code, encode_3same(0x4E20D400, dst, src1, src2));
}

/// FSUB Vd.4S, Vn.4S, Vm.4S
pub fn emit_fsub(code: &mut Vec<u8>, dst: Reg, src1: Reg, src2: Reg)
    ensures
        final(code)@ == old(code)@.inst(same3(0x4EA0D400, dst, src1, src2)),
{
    emit32(code, encode_3same(0x4EA0D400, dst, src1, src2));
}

/// FMUL Vd.4S, Vn.4S, Vm.4S
pub fn emit_fmul(code: &mut Vec<u8>, dst: Reg, src1: Reg, src2: Reg)
    ensures
        final(code)@ == old(code)@.inst(same3(0x6E20DC00, dst, src1, src2)),
{
    emit32(code, encode_3same(0x6E20DC00, dst, src1, src2));
}

/// FDIV Vd.4S, Vn.4S, Vm.4S
pub fn emit_fdiv(code: &mut Vec<u8>, dst: Reg, src1: Reg, src2: Reg)
    ensures
        final(code)@ == old(code)@.inst(same3(0x6E20FC00, dst, src1, src2)),
{
    emit32(code, encode_3same(0x6E20FC00, dst, src1, src2));
}

/// FMLA Vd.4S, Vn.4S, Vm.4S (Vd += Vn * Vm)
pub fn emit_fmla(code: &mut Vec<u8>, dst: Reg, src1: Reg, src2: Reg)
    ensures
        final(code)@ == old(code)@.inst(same3(0x4E20CC00, dst, src1, src2)),
{
    emit32(code, encode_3same(0x4E20CC00, dst, src1, src2));
}

/// FMIN Vd.4S, Vn.4S, Vm.4S
pub fn emit_fmin(code: &mut Vec<u8>, dst: Reg, src1: Reg, src2: Reg)
    ensures
        final(code)@ == old(code)@.inst(same3(0x4EA0F400, dst, src1, src2)),
{
    emit32(code, encode_3same(0x4EA0F400, dst, src1, src2));
}

/// FMAX Vd.4S, Vn.4S, Vm.4S
pub fn emit_fmax(code: &mut Vec<u8>, dst: Reg, src1: Reg, src2: Reg)
    ensures
        final(code)@ == old(code)@.inst(same3(0x4E20F400, dst, src1, src2)),
{
    emit32(code, encode_3same(0x4E20F400, dst, src1, src2));
}

/// FCMGT Vd.4S, Vn.4S, Vm.4S (greater than)
pub fn emit_fcmgt(code: &mut Vec<u8>, dst: Reg, src1: Reg, src2: Reg)
    ensures
        final(code)@ == old(code)@.inst(same3(0x6EA0E400, dst, src1, src2)),
{
    emit32(code, encode_3same(0x6EA0E400, dst, src1, src2));
}

/// FCMGE Vd.4S, Vn.4S, Vm.4S (greater or equal)
pub fn emit_fcmge(code: &mut Vec<u8>, dst: Reg, src1: Reg, src2: Reg)
    ensures
        final(code)@ == old(code)@.inst(same3(0x6E20E400, dst, src1, src2)),
{
    emit32(code, encode_3same(0x6E20E400, dst, src1, src2));
}

/// FCMEQ Vd.4S, Vn.4S, Vm.4S (equal)
pub fn emit_fcmeq(code: &mut Vec<u8>, dst: Reg, src1: Reg, src2: Reg)
    ensures
        final(code)@ == old(code)@.inst(same3(0x4E20E400, dst, src1, src2)),
{
    emit32(code, encode_3same(0x4E20E400, dst, src1, src2));
}

/// SUB Vd, Vn, Vm: .4S (integer)
pub(crate) fn emit_sub_i32(code: &mut Vec<u8>, dst: Reg, src1: Reg, src2: Reg)
    ensures
        final(code)@ == old(code)@.inst(same3(0x6EA08400, dst, src1, src2)),
{
    emit32(code, encode_3same(0x6EA08400, dst, src1, src2));
}

/// ADD Vd, Vn, Vm: .4S (integer)
pub(crate) fn emit_add_i32(code: &mut Vec<u8>, dst: Reg, src1: Reg, src2: Reg)
    ensures
        final(code)@ == old(code)@.inst(same3(0x4EA08400, dst, src1, src2)),
{
    emit32(code, encode_3same(0x4EA08400, dst, src1, src2));
}

/// AND Vd, Vn, Vm: .16B
pub(crate) fn emit_and(code: &mut Vec<u8>, dst: Reg, src1: Reg, src2: Reg)
    ensures
        final(code)@ == old(code)@.inst(same3(0x4E201C00, dst, src1, src2)),
{
    emit32(code, encode_3same(0x4E201C00, dst, src1, src2));
}

/// ORR Vd, Vn, Vm: .16B
pub(crate) fn emit_orr(code: &mut Vec<u8>, dst: Reg, src1: Reg, src2: Reg)
    ensures
        final(code)@ == old(code)@.inst(same3(0x4EA01C00, dst, src1, src2)),
{
    emit32(code, encode_3same(0x4EA01C00, dst, src1, src2));
}

/// FSQRT Vd, Vn: .4S
pub fn emit_fsqrt(code: &mut Vec<u8>, dst: Reg, src: Reg)
    ensures
        final(code)@ == old(code)@.inst(misc2(0x6EA1F800, dst, src)),
{
    emit32(code, encode_2misc(0x6EA1F800, dst, src));
}

/// FABS Vd, Vn: .4S
pub fn emit_fabs(code: &mut Vec<u8>, dst: Reg, src: Reg)
    ensures
        final(code)@ == old(code)@.inst(misc2(0x4EA0F800, dst, src)),
{
    emit32(code, encode_2misc(0x4EA0F800, dst, src));
}

/// FNEG Vd, Vn: .4S
pub fn emit_fneg(code: &mut Vec<u8>, dst: Reg, src: Reg)
    ensures
        final(code)@ == old(code)@.inst(misc2(0x6EA0F800, dst, src)),
{
    emit32(code, encode_2misc(0x6EA0F800, dst, src));
}

/// NOT Vd, Vn: .16B
pub fn emit_not(code: &mut Vec<u8>, dst: Reg, src: Reg)
    ensures
        final(code)@ == old(code)@.inst(misc2(0x6E205800, dst, src)),
{
    emit32(code, encode_2misc(0x6E205800, dst, src));
}

/// FRINTM Vd, Vn: .4S (floor)
pub fn emit_frintm(code: &mut Vec<u8>, dst: Reg, src: Reg)
    ensures
        final(code)@ == old(code)@.inst(misc2(0x4E219800, dst, src)),
{
    emit32(code, encode_2misc(0x4E219800, dst, src));
}

/// FRINTP Vd, Vn: .4S (ceil)
pub fn emit_frintp(code: &mut Vec<u8>, dst: Reg, src: Reg)
    ensures
        final(code)@ == old(code)@.inst(misc2(0x4EA18800, dst, src)),
{
    emit32(code, encode_2misc(0x4EA18800, dst, src));
}

/// FCVTZS Vd.4S, Vn.4S: float to signed integer, toward zero
pub(crate) fn emit_fcvtzs(code: &mut Vec<u8>, dst: Reg, src: Reg)
    ensures
        final(code)@ == old(code)@.inst(misc2(0x4EA1B800, dst, src)),
{
    emit32(code, encode_2misc(0x4EA1B800, dst, src));
}

/// SCVTF Vd.4S, Vn.4S: signed integer to float
pub(crate) fn emit_scvtf(code: &mut Vec<u8>, dst: Reg, src: Reg)
    ensures
        final(code)@ == old(code)@.inst(misc2(0x4E21D800, dst, src)),
{
    emit32(code, encode_2misc(0x4E21D800, dst, src));
}

/// FRINTA Vd.4S, Vn.4S: round to nearest, ties away from zero
pub(crate) fn emit_frinta(code: &mut Vec<u8>, dst: Reg, src: Reg)
    ensures
        final(code)@ == old(code)@.inst(misc2(0x6E218800, dst, src)),
{
    emit32(code, encode_2misc(0x6E218800, dst, src));
}

/// Code of a refined reciprocal square root estimate.
pub open spec fn frsqrt_code(code: Seq<u8>, dst: Reg, src: Reg, scratch: Reg) -> Seq<u8> {
    code.inst(misc2(0x6EA1D800, dst, src)).inst(same3(0x6E20DC00, scratch, dst, dst)).inst(
        same3(0x4EA0FC00, scratch, src, scratch),
    ).inst(same3(0x6E20DC00, dst, dst, scratch))
}

/// FRSQRTE with one FRSQRTS refinement step.
pub fn emit_frsqrt(code: &mut Vec<u8>, dst: Reg, src: Reg, scratch: Reg)
    ensures
        final(code)@ == frsqrt_code(old(code)@, dst, src, scratch),
{
    emit32(code, encode_2misc(0x6EA1D800, dst, src));
    emit32(code, encode_3same(0x6E20DC00, scratch, dst, dst));
    emit32(code, encode_3same(0x4EA0FC00, scratch, src, scratch));
    emit32(code, encode_3same(0x6E20DC00, dst, dst, scratch));
}

/// Code of a refined reciprocal estimate.
pub open spec fn frecip_code(code: Seq<u8>, dst: Reg, src: Reg, scratch: Reg) -> Seq<u8> {
    code.inst(misc2(0x4EA1D800, dst, src)).inst(same3(0x4E20FC00, scratch, src, dst)).inst(
        same3(0x6E20DC00, dst, dst, scratch),
    )
}

/// FRECPE with one FRECPS refinement step.
pub fn emit_frecip(code: &mut Vec<u8>, dst: Reg, src: Reg, scratch: Reg)
    ensures
        final(code)@ == frecip_code(old(code)@, dst, src, scratch),
{
    emit32(code, encode_2misc(0x4EA1D800, dst, src));
    emit32(code, encode_3same(0x4E20FC00, scratch, src, dst));
    emit32(code, encode_3same(0x6E20DC00, dst, dst, scratch));
}

/// BSL Vd.16B, Vn.16B, Vm.16B: `mask = mask ? if_true : if_false`, bitwise.
pub fn emit_bsl(code: &mut Vec<u8>, mask: Reg, if_true: Reg, if_false: Reg)
    ensures
        final(code)@ == old(code)@.inst(same3(0x6E601C00, mask, if_true, if_false)),
{
    emit32(code, encode_3same(0x6E601C00, mask, if_true, if_false));
}

/// DUP Vd.4S, Vn.S[0]: duplicate lane 0 to all lanes.
pub fn emit_dup_s0(code: &mut Vec<u8>, dst: Reg, src: Reg)
    ensures
        final(code)@ == old(code)@.inst(0x4E040400u32 | (dst.0 as u32) | ((src.0 as u32) << 5)),
{
    emit32(code, 0x4E040400u32 | (dst.0 as u32) | ((src.0 as u32) << 5));
}

/// Word of `USHR Vd.4S, Vn.4S, #shift`.
pub open spec fn ushr_word(dst: Reg, src: Reg, shift: u8) -> u32 {
    0x6F200400u32 | (dst.0 as u32) | ((src.0 as u32) << 5) | (((((64 - shift) as u32) & 0x3F)) << 16)
}

/// Word of `SHL Vd.4S, Vn.4S, #shift`.
pub open spec fn shl_word(dst: Reg, src: Reg, shift: u8) -> u32 {
    0x4F005400u32 | (dst.0 as u32) | ((src.0 as u32) << 5) | (((shift + 32) as u32) << 16)
}

/// USHR Vd.4S, Vn.4S, #shift: unsigned shift right by an immediate.
pub fn emit_ushr(code: &mut Vec<u8>, dst: Reg, src: Reg, shift: u8)
    requires
        shift <= 64,
    ensures
        final(code)@ == old(code)@.inst(ushr_word(dst, src, shift)),
{
    let left: u32 = 64 - shift as u32;
    let immhb: u32 = left & 0x3F;
    emit32(code, 0x6F200400u32 | (dst.0 as u32) | ((src.0 as u32) << 5) | (immhb << 16));
}

/// SHL Vd.4S, Vn.4S, #shift: shift left by an immediate.
pub fn emit_shl(code: &mut Vec<u8>, dst: Reg, src: Reg, shift: u8)
    ensures
        final(code)@ == old(code)@.inst(shl_word(dst, src, shift)),
{
    let immhb: u32 = (shift as u32) + 32;
    emit32(code, 0x4F005400u32 | (dst.0 as u32) | ((src.0 as u32) << 5) | (immhb << 16));
}

/// Code of a vector register copy: nothing if source and destination agree.
pub open spec fn mov_code(code: Seq<u8>, dst: Reg, src: Reg) -> Seq<u8> {
    if dst.0 == src.0 {
        code
    } else {
        code.inst(same3(0x4EA01C00, dst, src, src))
    }
}

/// MOV Vd.16B, Vn.16B: register copy.
pub fn emit_mov(code: &mut Vec<u8>, dst: Reg, src: Reg)
    ensures
        final(code)@ == mov_code(old(code)@, dst, src),
{
    if dst.0 != src.0 {
        emit_orr(code, dst, src, src);
    }
}

// ---------------------------------------------------------------------------
// Constants
// ---------------------------------------------------------------------------

/// The `f32` bits an 8-bit FMOV immediate `abcdefgh` stands for:
/// `a NOT(b) bbbbb cdefgh` followed by 19 zero bits.
pub open spec fn expand_imm8(imm8: u8) -> u32 {
    let i = imm8 as u32;
    ((i & 0x80) << 24) | (((i & 0x40) ^ 0x40) << 24) | (if i & 0x40 == 0x40 {
        0x3E00_0000u32
    } else {
        0u32
    }) | ((i & 0x3F) << 19)
}

/// The FMOV immediate standing for `bits`, if there is one.
pub open spec fn imm8_of(bits: u32) -> Option<u8> {
    if exists|i: u8| expand_imm8(i) == bits {
        Some(choose|i: u8| expand_imm8(i) == bits)
    } else {
        None
    }
}

proof fn lemma_imm8_injective(i: u8, j: u8)
    requires
        expand_imm8(i) == expand_imm8(j),
    ensures
        i == j,
{
    assert(expand_imm8(i) == expand_imm8(j) ==> i == j) by (bit_vector);
}

/// Every 8-bit immediate survives the trip through the value it stands for.
pub proof fn imm8_round_trip(i: u8)
    ensures
        imm8_of(expand_imm8(i)) == Some(i),
{
    let j = choose|j: u8| expand_imm8(j) == expand_imm8(i);
    assert(expand_imm8(j) == expand_imm8(i));
    lemma_imm8_injective(i, j);
}

/// The FMOV immediate for the `f32` with the given bits, if it is encodable.
pub fn try_encode_fmov_imm8(bits: u32) -> (r: Option<u8>)
    ensures
        r == imm8_of(bits),
        match r {
            Some(i) => expand_imm8(i) == bits,
            None => forall|i: u8| #[trigger] expand_imm8(i) != bits,
        },
{
    let not_b: u32 = (bits >> 30) & 1;
    let b: u32 = not_b ^ 1;
    let rep5: u32 = if b == 1 {
        0x1F
    } else {
        0x00
    };
    let actual: u32 = (bits >> 25) & 0x1F;
    if bits & 0x7_FFFF != 0 || bits & 0x7FFF_FFFF == 0 || actual != rep5 {
        assert forall|i: u8| #[trigger] expand_imm8(i) != bits by {
            assert(expand_imm8(i) == bits ==> bits & 0x7_FFFFu32 == 0 && bits & 0x7FFF_FFFFu32 != 0
                && ((bits >> 25u32) & 0x1Fu32 == if ((bits >> 30u32) & 1u32) ^ 1u32 == 1u32 {
                0x1Fu32
            } else {
                0u32
            })) by (bit_vector);
        }
        return None;
    }
    let imm: u32 = ((bits >> 24) & 0x80) | (b << 6) | ((bits >> 19) & 0x3F);
    let r: u8 = imm as u8;
    proof {
        assert(bits & 0x7_FFFFu32 == 0 && b == ((bits >> 30u32) & 1u32) ^ 1u32 && ((bits >> 25u32)
            & 0x1Fu32 == if b == 1u32 {
            0x1Fu32
        } else {
            0u32
        }) && imm == ((bits >> 24u32) & 0x80u32) | (b << 6u32) | ((bits >> 19u32) & 0x3Fu32) && r
            == imm as u8 ==> expand_imm8(r) == bits) by (bit_vector);
        imm8_round_trip(r);
    }
    Some(r)
}

/// Word of `FMOV Vd.4S, #imm8`.
pub open spec fn fmov_word(dst: Reg, imm8: u8) -> u32 {
    0x4F00F400u32 | ((((imm8 as u32) >> 5) & 0x7) << 16) | (((imm8 as u32) & 0x1F) << 5) | (
    dst.0 as u32)
}

/// Code loading `bits` into every lane of `dst` through W16.
pub open spec fn gp_const_code(code: Seq<u8>, dst: Reg, bits: u32) -> Seq<u8> {
    code.inst(0x52800010u32 | ((bits & 0xFFFF) << 5)).inst(
        0x72A00010u32 | ((bits >> 16) << 5),
    ).inst(0x4E040C00u32 | (dst.0 as u32) | (16u32 << 5))
}

/// Code loading the `f32` with the given bits: MOVI for zero, FMOV where the
/// value is encodable, else MOVZ + MOVK + DUP.
pub open spec fn fmov_imm_code(code: Seq<u8>, dst: Reg, bits: u32) -> Seq<u8> {
    if bits == 0 {
        code.inst(0x4F000400u32 | (dst.0 as u32))
    } else {
        match imm8_of(bits) {
            Some(imm8) => code.inst(fmov_word(dst, imm8)),
            None => gp_const_code(code, dst, bits),
        }
    }
}

/// Load a floating-point constant, given by its bits, into a vector register.
pub fn emit_fmov_imm(code: &mut Vec<u8>, dst: Reg, bits: u32, _scratch: [Reg; 4])
    ensures
        final(code)@ == fmov_imm_code(old(code)@, dst, bits),
{
    if bits == 0 {
        emit32(code, 0x4F000400u32 | (dst.0 as u32));
        return;
    }
    match try_encode_fmov_imm8(bits) {
        Some(imm8) => {
            let abc: u32 = ((imm8 as u32) >> 5) & 0x7;
            let defgh: u32 = (imm8 as u32) & 0x1F;
            emit32(code, 0x4F00F400u32 | (abc << 16) | (defgh << 5) | (dst.0 as u32));
        },
        None => {
            emit_gp_const(code, dst, bits);
        },
    }
}

/// MOVZ W16 + MOVK W16 + DUP Vd.4S, W16.
fn emit_gp_const(code: &mut Vec<u8>, dst: Reg, bits: u32)
    ensures
        final(code)@ == gp_const_code(old(code)@, dst, bits),
{
    let lo16: u32 = bits & 0xFFFF;
    let hi16: u32 = bits >> 16;
    emit32(code, 0x52800010u32 | (lo16 << 5));
    emit32(code, 0x72A00010u32 | (hi16 << 5));
    emit32(code, 0x4E040C00u32 | (dst.0 as u32) | (16u32 << 5));
}

/// Code loading raw bits into every lane of `dst`.
pub open spec fn u32_const_code(code: Seq<u8>, dst: Reg, bits: u32) -> Seq<u8> {
    if bits == 0 {
        code.inst(0x4F000400u32 | (dst.0 as u32))
    } else {
        gp_const_code(code, dst, bits)
    }
}

/// Load a 32-bit pattern into all four lanes, using W16 as scratch.
pub(crate) fn emit_u32_const(code: &mut Vec<u8>, dst: Reg, bits: u32)
    ensures
        final(code)@ == u32_const_code(old(code)@, dst, bits),
{
    if bits == 0 {
        emit32(code, 0x4F000400u32 | (dst.0 as u32));
    } else {
        emit_gp_const(code, dst, bits);
    }
}

/// Whether a constant needs a pool entry: not zero, not FMOV-encodable.
pub fn needs_const_pool(bits: u32) -> (b: bool)
    ensures
        b == (bits != 0 && imm8_of(bits) is None),
{
    bits != 0 && try_encode_fmov_imm8(bits).is_none()
}

/// `ADR X17, #0`, to be patched. Returns its position.
pub fn emit_adr_x17_placeholder(code: &mut Vec<u8>) -> (pos: usize)
    ensures
        pos == old(code)@.len(),
        final(code)@ == old(code)@.inst(0x10000011),
{
    let pos: usize = code.len();
    emit32(code, 0x10000011);
    pos
}

/// How an address anchor is encoded.
#[derive(Clone, Copy, PartialEq, Eq, Structural, Debug)]
pub enum AdrMode {
    /// One instruction, within a megabyte.
    Adr,
    /// A page address plus an offset within the page, two instructions.
    Adrp,
}

impl From<bool> for AdrMode {
    fn from(b: bool) -> (m: AdrMode) {
        if b {
            AdrMode::Adrp
        } else {
            AdrMode::Adr
        }
    }
}

impl vstd::std_specs::convert::FromSpecImpl<bool> for AdrMode {
    open spec fn obeys_from_spec() -> bool {
        true
    }

    open spec fn from_spec(b: bool) -> AdrMode {
        if b {
            AdrMode::Adrp
        } else {
            AdrMode::Adr
        }
    }
}

/// The 21-bit two's complement field of `v`.
pub open spec fn field21(v: int) -> u32 {
    (v % 0x20_0000) as u32
}

/// Word of ADR or ADRP into X17: `base` with a 21-bit immediate.
pub open spec fn adr_word(base: u32, imm: u32) -> u32 {
    base | ((imm & 0x3) << 29) | (((imm >> 2) & 0x7FFFF) << 5)
}

/// Distance in pages from the page of `pos` to the page of `target`.
pub open spec fn page_distance(pos: int, target: int) -> int {
    target / 4096 - pos / 4096
}

/// Code with the anchor at `pos` pointing to `target`.
pub open spec fn adr_patched(code: Seq<u8>, pos: int, target: int, mode: AdrMode) -> Seq<u8> {
    match mode {
        AdrMode::Adr => with_word(code, pos, adr_word(0x10000011, field21(target - pos))),
        AdrMode::Adrp => with_word(
            with_word(code, pos, adr_word(0x90000011, field21(page_distance(pos, target)))),
            pos + 4,
            0x91000231u32 | (((target % 4096) as u32) << 10),
        ),
    }
}

/// The anchor at `pos` can be made to point to `target`.
pub open spec fn adr_reaches(len: int, pos: int, target: int, mode: AdrMode) -> bool {
    match mode {
        AdrMode::Adr => pos + 4 <= len && -0x10_0000 <= target - pos < 0x10_0000,
        AdrMode::Adrp => pos + 8 <= len && -0x10_0000 <= page_distance(pos, target) < 0x10_0000,
    }
}

/// The 21-bit field of `to - from`.
fn distance21(from: usize, to: usize) -> (imm: u32)
    requires
        -0x10_0000 <= to - from < 0x10_0000,
    ensures
        imm == field21(to - from),
{
    if to >= from {
        (to - from) as u32
    } else {
        0x20_0000u32 - (from - to) as u32
    }
}

/// Points a previously emitted anchor at `adr_pos` to `target_pos`. In `Adrp`
/// mode eight bytes are reserved, for ADRP and ADD.
pub fn patch_adr_or_adrp(code: &mut [u8], adr_pos: usize, target_pos: usize, mode: AdrMode)
    requires
        adr_reaches(old(code)@.len() as int, adr_pos as int, target_pos as int, mode),
    ensures
        final(code)@ == adr_patched(old(code)@, adr_pos as int, target_pos as int, mode),
{
    match mode {
        AdrMode::Adrp => {
            let len: usize = code.len();
            assert(adr_pos + 8 <= len);
            let imm: u32 = distance21(adr_pos / 4096, target_pos / 4096);
            let immlo: u32 = imm & 0x3;
            let immhi: u32 = (imm >> 2) & 0x7FFFF;
            write32(code, adr_pos, 0x90000011u32 | (immlo << 29) | (immhi << 5));
            let inner: u32 = (target_pos % 4096) as u32;
            write32(code, adr_pos + 4, 0x91000231u32 | (inner << 10));
        },
        AdrMode::Adr => {
            let imm: u32 = distance21(adr_pos, target_pos);
            let immlo: u32 = imm & 0x3;
            let immhi: u32 = (imm >> 2) & 0x7FFFF;
            write32(code, adr_pos, 0x10000011u32 | (immlo << 29) | (immhi << 5));
        },
    }
}

/// LDR Qt, [X17, #byte_offset]: load from the constant pool.
pub fn emit_ldr_q_x17(code: &mut Vec<u8>, dst: Reg, byte_offset: u16)
    requires
        byte_offset % 16 == 0,
    ensures
        final(code)@ == old(code)@.inst(
            imm12_word(0x3DC00000, (byte_offset / 16) as u32, 17, dst),
        ),
{
    let imm12: u32 = (byte_offset / 16) as u32;
    emit32(code, encode_imm12(0x3DC00000, imm12, 17, dst));
}

/// A constant pool entry: the value in each of four lanes.
pub open spec fn pool_entry(code: Seq<u8>, bits: u32) -> Seq<u8> {
    code.inst(bits).inst(bits).inst(bits).inst(bits)
}

/// Appends a constant pool entry: 16 bytes.
pub fn emit_pool_entry(code: &mut Vec<u8>, val_bits: u32)
    ensures
        final(code)@ == pool_entry(old(code)@, val_bits),
{
    emit32(code, val_bits);
    emit32(code, val_bits);
    emit32(code, val_bits);
    emit32(code, val_bits);
}

} // verus!
