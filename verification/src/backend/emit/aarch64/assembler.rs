//! An assembler that owns its code buffer.

use crate::backend::emit::aarch64::branch::{
    cond_patched, epilogue_code, jump_patched, reach19, reach26,
};
use crate::backend::emit::aarch64::disassembly::{disassemble_code, listing};
use crate::backend::emit::aarch64::ops::{binary_code, ternary_code};
use crate::backend::emit::aarch64::scanline::{
    gp_restored, gp_saved, inputs_kept, inputs_placed, loop_closed, loop_opened, loop_reaches,
    neon_restored, neon_saved,
};
use crate::backend::emit::aarch64::{
    adr_patched, adr_reaches, chunked, fmov_imm_code, frecip_code, frsqrt_code, imm12_word, misc2,
    mov_code, pool_entry, same3, sp_access, AdrMode, HoistedScanlinePrologue, ScanlinePrologue,
};
use crate::backend::emit::aarch64::{
    emit32, emit_add_sp, emit_adr_x17_placeholder, emit_b, emit_binary, emit_bsl, emit_cbnz_w16,
    emit_cbz_w16, emit_dup_s0, emit_epilogue, emit_fabs, emit_fadd, emit_fcmeq, emit_fcmge,
    emit_fcmgt, emit_fdiv, emit_fmax, emit_fmin, emit_fmla, emit_fmov_imm, emit_fmov_to_gp,
    emit_fmul, emit_fneg, emit_frecip, emit_frinta, emit_frintm, emit_frintp, emit_frsqrt,
    emit_fsqrt, emit_fsub, emit_ldr_q_x17, emit_ldr_sp, emit_ldr_voff, emit_mov, emit_not,
    emit_pool_entry, emit_prologue, emit_scanline_epilogue, emit_scanline_epilogue_hoisted,
    emit_scanline_loop_hoisted, emit_scanline_prologue, emit_scanline_prologue_hoisted, emit_str_sp, emit_str_voff,
    emit_sub_sp, emit_ternary, emit_umaxv, emit_uminv, patch_adr_or_adrp, patch_b, patch_cbz_cbnz,
};
use crate::backend::emit::bytes::CodeBytes;
use crate::backend::emit::Reg;
use crate::kind::OpKind;
use vstd::prelude::*;

verus! {

/// A code buffer with one method per instruction. Every method appends what the
/// free function of the same instruction appends. Its view is the code.
pub struct Aarch64Asm {
    code: Vec<u8>,
}

impl View for Aarch64Asm {
    type V = Seq<u8>;

    closed spec fn view(&self) -> Seq<u8> {
        self.code@
    }
}

impl Default for Aarch64Asm {
    fn default() -> (r: Aarch64Asm)
        ensures
            r@ == Seq::<u8>::empty(),
    {
        Aarch64Asm::new()
    }
}

impl Aarch64Asm {
    /// An assembler with an empty buffer.
    #[must_use]
    pub fn new() -> (r: Aarch64Asm)
        ensures
            r@ == Seq::<u8>::empty(),
    {
        Aarch64Asm { code: Vec::new() }
    }

    /// An assembler with room for `n` bytes.
    #[must_use]
    pub fn with_capacity(n: usize) -> (r: Aarch64Asm)
        ensures
            r@ == Seq::<u8>::empty(),
    {
        Aarch64Asm { code: Vec::with_capacity(n) }
    }

    /// Current position in bytes.
    #[inline]
    #[must_use]
    pub fn offset(&self) -> (n: usize)
        ensures
            n == self@.len(),
    {
        self.code.len()
    }

    /// The code so far.
    #[inline]
    #[must_use]
    pub fn code(&self) -> (r: &[u8])
        ensures
            r@ == self@,
    {
        self.code.as_slice()
    }

    /// The code buffer, for patching.
    #[inline]
    pub fn code_mut(&mut self) -> (r: &mut Vec<u8>)
        ensures
            r@ == old(self)@,
            final(self)@ == final(r)@,
    {
        &mut self.code
    }

    /// The code buffer.
    #[inline]
    #[must_use]
    pub fn into_code(self) -> (r: Vec<u8>)
        ensures
            r@ == self@,
    {
        self.code
    }

    /// FADD Vd.4S, Vn.4S, Vm.4S
    #[inline]
    pub fn fadd(&mut self, dst: Reg, a: Reg, b: Reg)
        ensures
            final(self)@ == old(self)@.inst(same3(0x4E20D400, dst, a, b)),
    {
        emit_fadd(&mut self.code, dst, a, b);
    }

    /// FSUB Vd.4S, Vn.4S, Vm.4S
    #[inline]
    pub fn fsub(&mut self, dst: Reg, a: Reg, b: Reg)
        ensures
            final(self)@ == old(self)@.inst(same3(0x4EA0D400, dst, a, b)),
    {
        emit_fsub(&mut self.code, dst, a, b);
    }

    /// FMUL Vd.4S, Vn.4S, Vm.4S
    #[inline]
    pub fn fmul(&mut self, dst: Reg, a: Reg, b: Reg)
        ensures
            final(self)@ == old(self)@.inst(same3(0x6E20DC00, dst, a, b)),
    {
        emit_fmul(&mut self.code, dst, a, b);
    }

    /// FDIV Vd.4S, Vn.4S, Vm.4S
    #[inline]
    pub fn fdiv(&mut self, dst: Reg, a: Reg, b: Reg)
        ensures
            final(self)@ == old(self)@.inst(same3(0x6E20FC00, dst, a, b)),
    {
        emit_fdiv(&mut self.code, dst, a, b);
    }

    /// FMLA Vd.4S, Vn.4S, Vm.4S
    #[inline]
    pub fn fmla(&mut self, dst: Reg, a: Reg, b: Reg)
        ensures
            final(self)@ == old(self)@.inst(same3(0x4E20CC00, dst, a, b)),
    {
        emit_fmla(&mut self.code, dst, a, b);
    }

    /// FMIN Vd.4S, Vn.4S, Vm.4S
    #[inline]
    pub fn fmin(&mut self, dst: Reg, a: Reg, b: Reg)
        ensures
            final(self)@ == old(self)@.inst(same3(0x4EA0F400, dst, a, b)),
    {
        emit_fmin(&mut self.code, dst, a, b);
    }

    /// FMAX Vd.4S, Vn.4S, Vm.4S
    #[inline]
    pub fn fmax(&mut self, dst: Reg, a: Reg, b: Reg)
        ensures
            final(self)@ == old(self)@.inst(same3(0x4E20F400, dst, a, b)),
    {
        emit_fmax(&mut self.code, dst, a, b);
    }

    /// FCMGT Vd.4S, Vn.4S, Vm.4S
    #[inline]
    pub fn fcmgt(&mut self, dst: Reg, a: Reg, b: Reg)
        ensures
            final(self)@ == old(self)@.inst(same3(0x6EA0E400, dst, a, b)),
    {
        emit_fcmgt(&mut self.code, dst, a, b);
    }

    /// FCMGE Vd.4S, Vn.4S, Vm.4S
    #[inline]
    pub fn fcmge(&mut self, dst: Reg, a: Reg, b: Reg)
        ensures
            final(self)@ == old(self)@.inst(same3(0x6E20E400, dst, a, b)),
    {
        emit_fcmge(&mut self.code, dst, a, b);
    }

    /// FCMEQ Vd.4S, Vn.4S, Vm.4S
    #[inline]
    pub fn fcmeq(&mut self, dst: Reg, a: Reg, b: Reg)
        ensures
            final(self)@ == old(self)@.inst(same3(0x4E20E400, dst, a, b)),
    {
        emit_fcmeq(&mut self.code, dst, a, b);
    }

    /// FSQRT Vd, Vn
    #[inline]
    pub fn fsqrt(&mut self, dst: Reg, src: Reg)
        ensures
            final(self)@ == old(self)@.inst(misc2(0x6EA1F800, dst, src)),
    {
        emit_fsqrt(&mut self.code, dst, src);
    }

    /// FABS Vd, Vn
    #[inline]
    pub fn fabs(&mut self, dst: Reg, src: Reg)
        ensures
            final(self)@ == old(self)@.inst(misc2(0x4EA0F800, dst, src)),
    {
        emit_fabs(&mut self.code, dst, src);
    }

    /// FNEG Vd, Vn
    #[inline]
    pub fn fneg(&mut self, dst: Reg, src: Reg)
        ensures
            final(self)@ == old(self)@.inst(misc2(0x6EA0F800, dst, src)),
    {
        emit_fneg(&mut self.code, dst, src);
    }

    /// NOT Vd, Vn
    #[inline]
    pub fn not(&mut self, dst: Reg, src: Reg)
        ensures
            final(self)@ == old(self)@.inst(misc2(0x6E205800, dst, src)),
    {
        emit_not(&mut self.code, dst, src);
    }

    /// FRINTM Vd, Vn
    #[inline]
    pub fn frintm(&mut self, dst: Reg, src: Reg)
        ensures
            final(self)@ == old(self)@.inst(misc2(0x4E219800, dst, src)),
    {
        emit_frintm(&mut self.code, dst, src);
    }

    /// FRINTP Vd, Vn
    #[inline]
    pub fn frintp(&mut self, dst: Reg, src: Reg)
        ensures
            final(self)@ == old(self)@.inst(misc2(0x4EA18800, dst, src)),
    {
        emit_frintp(&mut self.code, dst, src);
    }

    /// FRINTA Vd, Vn
    #[inline]
    pub fn frinta(&mut self, dst: Reg, src: Reg)
        ensures
            final(self)@ == old(self)@.inst(misc2(0x6E218800, dst, src)),
    {
        emit_frinta(&mut self.code, dst, src);
    }

    /// Refined reciprocal square root estimate
    #[inline]
    pub fn frsqrt(&mut self, dst: Reg, src: Reg, scratch: Reg)
        ensures
            final(self)@ == frsqrt_code(old(self)@, dst, src, scratch),
    {
        emit_frsqrt(&mut self.code, dst, src, scratch);
    }

    /// Refined reciprocal estimate
    #[inline]
    pub fn frecip(&mut self, dst: Reg, src: Reg, scratch: Reg)
        ensures
            final(self)@ == frecip_code(old(self)@, dst, src, scratch),
    {
        emit_frecip(&mut self.code, dst, src, scratch);
    }

    /// MOV Vd.16B, Vn.16B
    #[inline]
    pub fn mov_vec(&mut self, dst: Reg, src: Reg)
        ensures
            final(self)@ == mov_code(old(self)@, dst, src),
    {
        emit_mov(&mut self.code, dst, src);
    }

    /// DUP Vd.4S, Vn.S[0]
    #[inline]
    pub fn dup_s0(&mut self, dst: Reg, src: Reg)
        ensures
            final(self)@ == old(self)@.inst(0x4E040400u32 | (dst.0 as u32) | ((src.0 as u32) << 5)),
    {
        emit_dup_s0(&mut self.code, dst, src);
    }

    /// BSL Vd.16B, Vn.16B, Vm.16B
    #[inline]
    pub fn bsl(&mut self, mask: Reg, if_true: Reg, if_false: Reg)
        ensures
            final(self)@ == old(self)@.inst(same3(0x6E601C00, mask, if_true, if_false)),
    {
        emit_bsl(&mut self.code, mask, if_true, if_false);
    }

    /// LDR Vd, [X0, #offset]
    #[inline]
    pub fn ldr_voff(&mut self, dst: Reg, offset: u16)
        ensures
            final(self)@ == old(self)@.inst(imm12_word(0x3DC00000, (offset / 16) as u32, 0, dst)),
    {
        emit_ldr_voff(&mut self.code, dst, offset);
    }

    /// STR Vt, [X0, #offset]
    #[inline]
    pub fn str_voff(&mut self, src: Reg, offset: u16)
        ensures
            final(self)@ == old(self)@.inst(imm12_word(0x3D800000, (offset / 16) as u32, 0, src)),
    {
        emit_str_voff(&mut self.code, src, offset);
    }

    /// LDR Vd, [SP, #offset]
    #[inline]
    pub fn ldr_sp(&mut self, dst: Reg, offset: u32)
        requires
            offset % 16 == 0,
        ensures
            final(self)@ == sp_access(old(self)@, 0x3DC00000, dst, offset),
    {
        emit_ldr_sp(&mut self.code, dst, offset);
    }

    /// STR Vt, [SP, #offset]
    #[inline]
    pub fn str_sp(&mut self, src: Reg, offset: u32)
        requires
            offset % 16 == 0,
        ensures
            final(self)@ == sp_access(old(self)@, 0x3D800000, src, offset),
    {
        emit_str_sp(&mut self.code, src, offset);
    }

    /// LDR Qt, [X17, #byte_offset]
    #[inline]
    pub fn ldr_q_x17(&mut self, dst: Reg, byte_offset: u16)
        requires
            byte_offset % 16 == 0,
        ensures
            final(self)@ == old(self)@.inst(imm12_word(0x3DC00000, (byte_offset / 16) as u32, 17, dst)),
    {
        emit_ldr_q_x17(&mut self.code, dst, byte_offset);
    }

    /// SUB SP, SP, #size
    #[inline]
    pub fn sub_sp(&mut self, size: u32)
        ensures
            final(self)@ == chunked(old(self)@, 0xD10003FF, size),
    {
        emit_sub_sp(&mut self.code, size);
    }

    /// ADD SP, SP, #size
    #[inline]
    pub fn add_sp(&mut self, size: u32)
        ensures
            final(self)@ == chunked(old(self)@, 0x910003FF, size),
    {
        emit_add_sp(&mut self.code, size);
    }

    /// Load the `f32` constant with the given bits
    #[inline]
    pub fn load_const(&mut self, dst: Reg, bits: u32)
        ensures
            final(self)@ == fmov_imm_code(old(self)@, dst, bits),
    {
        emit_fmov_imm(&mut self.code, dst, bits, [Reg(28), Reg(29), Reg(30), Reg(31)]);
    }

    /// A constant pool entry: 16 bytes
    #[inline]
    pub fn pool_entry(&mut self, val_bits: u32)
        ensures
            final(self)@ == pool_entry(old(self)@, val_bits),
    {
        emit_pool_entry(&mut self.code, val_bits);
    }

    /// RET
    #[inline]
    pub fn ret(&mut self)
        ensures
            final(self)@ == old(self)@.inst(0xD65F03C0),
    {
        emit32(&mut self.code, 0xD65F03C0);
    }

    /// Function prologue: nothing
    #[inline]
    pub fn prologue(&mut self)
        ensures
            final(self)@ == old(self)@,
    {
        emit_prologue(&mut self.code);
    }

    /// Function epilogue: result to V0, then RET
    #[inline]
    pub fn epilogue(&mut self, result: Reg)
        ensures
            final(self)@ == epilogue_code(old(self)@, result),
    {
        emit_epilogue(&mut self.code, result);
    }

    /// CBZ W16, to be patched. Returns its position
    #[inline]
    pub fn cbz_w16(&mut self) -> (pos: usize)
        ensures
            pos == old(self)@.len(),
            final(self)@ == old(self)@.inst(0x34000010),
    {
        emit_cbz_w16(&mut self.code)
    }

    /// CBNZ W16, to be patched. Returns its position
    #[inline]
    pub fn cbnz_w16(&mut self) -> (pos: usize)
        ensures
            pos == old(self)@.len(),
            final(self)@ == old(self)@.inst(0x35000010),
    {
        emit_cbnz_w16(&mut self.code)
    }

    /// B, to be patched. Returns its position
    #[inline]
    pub fn b(&mut self) -> (pos: usize)
        ensures
            pos == old(self)@.len(),
            final(self)@ == old(self)@.inst(0x14000000),
    {
        emit_b(&mut self.code)
    }

    /// FMOV W16, Sn
    #[inline]
    pub fn fmov_to_gp(&mut self, src: Reg)
        ensures
            final(self)@ == old(self)@.inst(0x1E260000u32 | ((src.0 as u32) << 5) | 16u32),
    {
        emit_fmov_to_gp(&mut self.code, src);
    }

    /// UMINV Sd, Vn.4S
    #[inline]
    pub fn uminv(&mut self, dst: Reg, src: Reg)
        ensures
            final(self)@ == old(self)@.inst(0x6EB1A800u32 | (dst.0 as u32) | ((src.0 as u32) << 5)),
    {
        emit_uminv(&mut self.code, dst, src);
    }

    /// UMAXV Sd, Vn.4S
    #[inline]
    pub fn umaxv(&mut self, dst: Reg, src: Reg)
        ensures
            final(self)@ == old(self)@.inst(0x6EB0A800u32 | (dst.0 as u32) | ((src.0 as u32) << 5)),
    {
        emit_umaxv(&mut self.code, dst, src);
    }

    /// Make the CBZ or CBNZ at `patch_pos` lead to `target_pos`
    #[inline]
    pub fn patch_cbz_cbnz(&mut self, patch_pos: usize, target_pos: usize)
        requires
            patch_pos + 4 <= old(self)@.len(),
            reach19(patch_pos as int, target_pos as int),
        ensures
            final(self)@ == cond_patched(old(self)@, patch_pos as int, target_pos as int),
    {
        patch_cbz_cbnz(&mut self.code, patch_pos, target_pos);
    }

    /// Make the B at `patch_pos` lead to `target_pos`
    #[inline]
    pub fn patch_b(&mut self, patch_pos: usize, target_pos: usize)
        requires
            patch_pos + 4 <= old(self)@.len(),
            reach26(patch_pos as int, target_pos as int),
        ensures
            final(self)@ == jump_patched(old(self)@, patch_pos as int, target_pos as int),
    {
        patch_b(&mut self.code, patch_pos, target_pos);
    }

    /// Make the anchor at `adr_pos` point to `target_pos`
    #[inline]
    pub fn patch_adr_or_adrp(&mut self, adr_pos: usize, target_pos: usize, mode: AdrMode)
        requires
            adr_reaches(old(self)@.len() as int, adr_pos as int, target_pos as int, mode),
        ensures
            final(self)@ == adr_patched(old(self)@, adr_pos as int, target_pos as int, mode),
    {
        patch_adr_or_adrp(&mut self.code, adr_pos, target_pos, mode);
    }

    /// ADR X17, to be patched. Returns its position
    #[inline]
    pub fn adr_x17_placeholder(&mut self) -> (pos: usize)
        ensures
            pos == old(self)@.len(),
            final(self)@ == old(self)@.inst(0x10000011),
    {
        emit_adr_x17_placeholder(&mut self.code)
    }

    /// A binary operation by kind
    #[inline]
    pub fn binary(&mut self, op: OpKind, dst: Reg, src1: Reg, src2: Reg)
        requires
            binary_code(old(self)@, op, dst, src1, src2) is Some,
        ensures
            Some(final(self)@) == binary_code(old(self)@, op, dst, src1, src2),
    {
        emit_binary(&mut self.code, op, dst, src1, src2);
    }

    /// A ternary operation by kind
    #[inline]
    pub fn ternary(&mut self, op: OpKind, dst: Reg, a: Reg, b: Reg, c: Reg)
        requires
            ternary_code(old(self)@, op, dst, a, b, c) is Some,
        ensures
            Some(final(self)@) == ternary_code(old(self)@, op, dst, a, b, c),
    {
        emit_ternary(&mut self.code, op, dst, a, b, c);
    }

    /// The scanline loop prologue
    #[inline]
    pub fn scanline_prologue(&mut self) -> (p: ScanlinePrologue)
        ensures
            final(self)@ == loop_opened(inputs_kept(gp_saved(old(self)@, 48))),
            p.early_exit_patch == inputs_kept(gp_saved(old(self)@, 48)).len(),
            p.loop_header == p.early_exit_patch + 4,
    {
        emit_scanline_prologue(&mut self.code)
    }

    /// The scanline loop epilogue
    #[inline]
    pub fn scanline_epilogue(&mut self, prologue: &ScanlinePrologue, result_reg: Reg)
        requires
            loop_reaches(old(self)@.len() as int, prologue.early_exit_patch as int, prologue.loop_header as int),
        ensures
            final(self)@ == gp_restored(loop_closed(old(self)@, prologue.early_exit_patch as int, prologue.loop_header as int, result_reg), 48),
    {
        emit_scanline_epilogue(&mut self.code, prologue, result_reg);
    }

    /// The scanline prologue that saves vector registers; the setup block is next
    #[inline]
    pub fn scanline_prologue_hoisted(&mut self, num_hoisted: u8) -> (p: HoistedScanlinePrologue)
        requires
            num_hoisted <= 8,
        ensures
            ({
                let frame = 48 + 16 * num_hoisted;
                let saved = neon_saved(gp_saved(old(self)@, frame), num_hoisted as int);
                &&& final(self)@ == inputs_placed(inputs_kept(saved))
                &&& p.early_exit_patch == final(self)@.len()
                &&& p.loop_header == final(self)@.len()
                &&& p.wf()
                &&& p.num_hoisted == num_hoisted
                &&& p.callee_frame_size == frame
            }),
    {
        emit_scanline_prologue_hoisted(&mut self.code, num_hoisted)
    }

    /// The scanline loop behind the setup block
    #[inline]
    pub fn scanline_loop_hoisted(&mut self, prologue: HoistedScanlinePrologue) -> (p: HoistedScanlinePrologue)
        ensures
            final(self)@ == loop_opened(old(self)@),
            p.early_exit_patch == old(self)@.len(),
            p.loop_header == old(self)@.len() + 4,
            p.num_hoisted == prologue.num_hoisted,
            p.callee_frame_size == prologue.callee_frame_size,
    {
        emit_scanline_loop_hoisted(&mut self.code, prologue)
    }

    /// The scanline loop epilogue that restores vector registers
    #[inline]
    pub fn scanline_epilogue_hoisted(&mut self, prologue: &HoistedScanlinePrologue, result_reg: Reg)
        requires
            prologue.wf(),
            loop_reaches(old(self)@.len() as int, prologue.early_exit_patch as int, prologue.loop_header as int),
        ensures
            final(self)@ == gp_restored(neon_restored(loop_closed(old(self)@, prologue.early_exit_patch as int, prologue.loop_header as int, result_reg), prologue.num_hoisted as int), prologue.callee_frame_size as int),
    {
        emit_scanline_epilogue_hoisted(&mut self.code, prologue, result_reg);
    }

    /// A raw instruction word
    #[inline]
    pub fn emit_raw(&mut self, inst: u32)
        ensures
            final(self)@ == old(self)@.inst(inst),
    {
        emit32(&mut self.code, inst);
    }

    /// A listing of the code
    #[inline]
    pub fn disassemble(&self) -> (r: String)
        ensures
            r@ == listing(self@, self@.len() / 4),
    {
        disassemble_code(self.code.as_slice())
    }
}

} // verus!
