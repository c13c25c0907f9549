//! Branches, their patching, and the plain prologue and epilogue.

use crate::backend::emit::aarch64::{emit32, mov_v};
use crate::backend::emit::bytes::{read32, with_word, word_at, write32, CodeBytes};
use crate::backend::emit::Reg;
use vstd::prelude::*;

verus! {

/// UMINV Sd, Vn.4S: horizontal unsigned minimum. All ones if the mask is all true.
pub fn emit_uminv(code: &mut Vec<u8>, dst: Reg, src: Reg)
    ensures
        final(code)@ == old(code)@.inst(0x6EB1A800u32 | (dst.0 as u32) | ((src.0 as u32) << 5)),
{
    emit32(code, 0x6EB1A800u32 | (dst.0 as u32) | ((src.0 as u32) << 5));
}

/// UMAXV Sd, Vn.4S: horizontal unsigned maximum. Zero if the mask is all false.
pub fn emit_umaxv(code: &mut Vec<u8>, dst: Reg, src: Reg)
    ensures
        final(code)@ == old(code)@.inst(0x6EB0A800u32 | (dst.0 as u32) | ((src.0 as u32) << 5)),
{
    emit32(code, 0x6EB0A800u32 | (dst.0 as u32) | ((src.0 as u32) << 5));
}

/// FMOV W16, Sn: move lane 0 to the general-purpose scratch register.
pub fn emit_fmov_to_gp(code: &mut Vec<u8>, src: Reg)
    ensures
        final(code)@ == old(code)@.inst(0x1E260000u32 | ((src.0 as u32) << 5) | 16u32),
{
    emit32(code, 0x1E260000u32 | ((src.0 as u32) << 5) | 16u32);
}

/// CBZ W16 with its target still to be patched. Returns its position.
pub fn emit_cbz_w16(code: &mut Vec<u8>) -> (pos: usize)
    ensures
        pos == old(code)@.len(),
        final(code)@ == old(code)@.inst(0x34000010),
{
    let pos: usize = code.len();
    emit32(code, 0x34000010);
    pos
}

/// CBNZ W16 with its target still to be patched. Returns its position.
pub fn emit_cbnz_w16(code: &mut Vec<u8>) -> (pos: usize)
    ensures
        pos == old(code)@.len(),
        final(code)@ == old(code)@.inst(0x35000010),
{
    let pos: usize = code.len();
    emit32(code, 0x35000010);
    pos
}

/// B with its target still to be patched. Returns its position.
pub fn emit_b(code: &mut Vec<u8>) -> (pos: usize)
    ensures
        pos == old(code)@.len(),
        final(code)@ == old(code)@.inst(0x14000000),
{
    let pos: usize = code.len();
    emit32(code, 0x14000000);
    pos
}

/// Distance from `pos` to `target` in instructions, rounded toward zero.
pub open spec fn branch_steps(pos: int, target: int) -> int {
    if target >= pos {
        (target - pos) / 4
    } else {
        -((pos - target) / 4)
    }
}

/// The 19-bit two's complement field of `v`.
pub open spec fn field19(v: int) -> u32 {
    (v % 0x8_0000) as u32
}

/// The 26-bit two's complement field of `v`.
pub open spec fn field26(v: int) -> u32 {
    (v % 0x400_0000) as u32
}

/// A conditional branch at `pos` can reach `target`: within a megabyte.
pub open spec fn reach19(pos: int, target: int) -> bool {
    -0x4_0000 <= branch_steps(pos, target) < 0x4_0000
}

/// An unconditional branch at `pos` can reach `target`: within 128 megabytes.
pub open spec fn reach26(pos: int, target: int) -> bool {
    -0x200_0000 <= branch_steps(pos, target) < 0x200_0000
}

/// Instructions from `pos` to `target`, forward or back.
fn steps(pos: u128, target: u128) -> (r: (bool, u128))
    ensures
        branch_steps(pos as int, target as int) == if r.0 {
            r.1 as int
        } else {
            -r.1
        },
{
    if target >= pos {
        (true, (target - pos) / 4)
    } else {
        (false, (pos - target) / 4)
    }
}

/// Can a conditional branch at `pos` reach `target`?
pub(crate) fn in_reach19(pos: u128, target: u128) -> (b: bool)
    ensures
        b == reach19(pos as int, target as int),
{
    let (forward, n): (bool, u128) = steps(pos, target);
    if forward {
        n < 0x4_0000
    } else {
        n <= 0x4_0000
    }
}

/// Can an unconditional branch at `pos` reach `target`?
pub(crate) fn in_reach26(pos: u128, target: u128) -> (b: bool)
    ensures
        b == reach26(pos as int, target as int),
{
    let (forward, n): (bool, u128) = steps(pos, target);
    if forward {
        n < 0x200_0000
    } else {
        n <= 0x200_0000
    }
}

/// A conditional branch word with its 19-bit field replaced.
pub open spec fn with_imm19(w: u32, imm19: u32) -> u32 {
    (w & 0xFF00001F) | (imm19 << 5)
}

/// An unconditional branch word with its 26-bit field replaced.
pub open spec fn with_imm26(w: u32, imm26: u32) -> u32 {
    (w & 0xFC000000) | imm26
}

/// `code` with the conditional branch at `pos` leading to `target`.
pub open spec fn cond_patched(code: Seq<u8>, pos: int, target: int) -> Seq<u8> {
    with_word(code, pos, with_imm19(word_at(code, pos), field19(branch_steps(pos, target))))
}

/// `code` with the unconditional branch at `pos` leading to `target`.
pub open spec fn jump_patched(code: Seq<u8>, pos: int, target: int) -> Seq<u8> {
    with_word(code, pos, with_imm26(word_at(code, pos), field26(branch_steps(pos, target))))
}

/// Where a conditional branch word at `pos` leads.
pub open spec fn cond_target(w: u32, pos: int) -> int {
    let imm = (w >> 5) & 0x7FFFF;
    if imm < 0x4_0000 {
        pos + 4 * imm
    } else {
        pos + 4 * (imm - 0x8_0000)
    }
}

/// Where an unconditional branch word at `pos` leads.
pub open spec fn jump_target(w: u32, pos: int) -> int {
    let imm = w & 0x3FFFFFF;
    if imm < 0x200_0000 {
        pos + 4 * imm
    } else {
        pos + 4 * (imm - 0x400_0000)
    }
}

proof fn lemma_imm19(w: u32, imm: u32)
    requires
        imm < 0x8_0000,
    ensures
        (with_imm19(w, imm) >> 5) & 0x7FFFF == imm,
        with_imm19(w, imm) & 0xFF00001F == w & 0xFF00001F,
{
    assert(imm < 0x8_0000 ==> (((w & 0xFF00001F) | (imm << 5u32)) >> 5u32) & 0x7FFFF == imm && ((w
        & 0xFF00001F) | (imm << 5u32)) & 0xFF00001F == w & 0xFF00001F) by (bit_vector);
}

proof fn lemma_imm26(w: u32, imm: u32)
    requires
        imm < 0x400_0000,
    ensures
        with_imm26(w, imm) & 0x3FFFFFF == imm,
        with_imm26(w, imm) & 0xFC000000 == w & 0xFC000000,
{
    assert(imm < 0x400_0000 ==> ((w & 0xFC000000) | imm) & 0x3FFFFFF == imm && ((w & 0xFC000000)
        | imm) & 0xFC000000 == w & 0xFC000000) by (bit_vector);
}

/// A patched conditional branch leads to the target it was given, keeps its
/// opcode and register, and nothing else in the code changes.
pub proof fn patched_cond_leads_to_target(code: Seq<u8>, pos: int, target: int)
    requires
        0 <= pos,
        pos + 4 <= code.len(),
        (target - pos) % 4 == 0,
        reach19(pos, target),
    ensures
        cond_target(word_at(cond_patched(code, pos, target), pos), pos) == target,
        word_at(cond_patched(code, pos, target), pos) & 0xFF00001F == word_at(code, pos)
            & 0xFF00001F,
        cond_patched(code, pos, target).len() == code.len(),
        forall|i: int|
            0 <= i < code.len() && !(pos <= i < pos + 4) ==> #[trigger] cond_patched(
                code,
                pos,
                target,
            )[i] == code[i],
{
    let imm = field19(branch_steps(pos, target));
    lemma_imm19(word_at(code, pos), imm);
    crate::backend::emit::bytes::read_replaced_word(
        code,
        pos,
        with_imm19(word_at(code, pos), imm),
    );
}

/// A patched jump leads to the target it was given, keeps its opcode, and
/// nothing else in the code changes.
pub proof fn patched_jump_leads_to_target(code: Seq<u8>, pos: int, target: int)
    requires
        0 <= pos,
        pos + 4 <= code.len(),
        (target - pos) % 4 == 0,
        reach26(pos, target),
    ensures
        jump_target(word_at(jump_patched(code, pos, target), pos), pos) == target,
        word_at(jump_patched(code, pos, target), pos) & 0xFC000000 == word_at(code, pos)
            & 0xFC000000,
        jump_patched(code, pos, target).len() == code.len(),
        forall|i: int|
            0 <= i < code.len() && !(pos <= i < pos + 4) ==> #[trigger] jump_patched(
                code,
                pos,
                target,
            )[i] == code[i],
{
    let imm = field26(branch_steps(pos, target));
    lemma_imm26(word_at(code, pos), imm);
    crate::backend::emit::bytes::read_replaced_word(
        code,
        pos,
        with_imm26(word_at(code, pos), imm),
    );
}

/// The 19-bit field of the distance from `from` to `to`.
pub(crate) fn steps19(from: usize, to: usize) -> (imm: u32)
    requires
        reach19(from as int, to as int),
    ensures
        imm == field19(branch_steps(from as int, to as int)),
{
    if to >= from {
        ((to - from) / 4) as u32
    } else {
        let mag: u32 = ((from - to) / 4) as u32;
        if mag == 0 {
            0
        } else {
            0x8_0000u32 - mag
        }
    }
}

/// The 26-bit field of the distance from `from` to `to`.
fn steps26(from: usize, to: usize) -> (imm: u32)
    requires
        reach26(from as int, to as int),
    ensures
        imm == field26(branch_steps(from as int, to as int)),
{
    if to >= from {
        ((to - from) / 4) as u32
    } else {
        let mag: u32 = ((from - to) / 4) as u32;
        if mag == 0 {
            0
        } else {
            0x400_0000u32 - mag
        }
    }
}

/// Makes the CBZ or CBNZ at `patch_pos` lead to `target_pos`.
pub fn patch_cbz_cbnz(code: &mut [u8], patch_pos: usize, target_pos: usize)
    requires
        patch_pos + 4 <= old(code)@.len(),
        reach19(patch_pos as int, target_pos as int),
    ensures
        final(code)@ == cond_patched(old(code)@, patch_pos as int, target_pos as int),
{
    let imm19: u32 = steps19(patch_pos, target_pos);
    let existing: u32 = read32(code, patch_pos);
    write32(code, patch_pos, (existing & 0xFF00001F) | (imm19 << 5));
}

/// Makes the B at `patch_pos` lead to `target_pos`.
pub fn patch_b(code: &mut [u8], patch_pos: usize, target_pos: usize)
    requires
        patch_pos + 4 <= old(code)@.len(),
        reach26(patch_pos as int, target_pos as int),
    ensures
        final(code)@ == jump_patched(old(code)@, patch_pos as int, target_pos as int),
{
    let imm26: u32 = steps26(patch_pos, target_pos);
    let existing: u32 = read32(code, patch_pos);
    write32(code, patch_pos, (existing & 0xFC000000) | imm26);
}

/// Function prologue: a leaf kernel needs no frame, so nothing is emitted.
pub fn emit_prologue(_code: &mut Vec<u8>)
    ensures
        final(_code)@ == old(_code)@,
{
}

/// Code moving the result to V0, unless it is there, and returning.
pub open spec fn epilogue_code(code: Seq<u8>, result: Reg) -> Seq<u8> {
    if result.0 != 0 {
        code.inst(mov_v(0, result.0)).inst(0xD65F03C0)
    } else {
        code.inst(0xD65F03C0)
    }
}

/// Function epilogue: result to V0, then RET.
pub fn emit_epilogue(code: &mut Vec<u8>, result: Reg)
    ensures
        final(code)@ == epilogue_code(old(code)@, result),
{
    if result.0 != 0 {
        emit32(code, crate::backend::emit::aarch64::encode_mov_v(0, result.0));
    }
    emit32(code, 0xD65F03C0);
}

} // verus!
