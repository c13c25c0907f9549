//! The loop around a kernel that evaluates a whole scanline.
//!
//! A scanline kernel is called with the input pointer in X0, Y, Z and W in
//! V0 to V2, the output pointer in X1 and the count in X2. The body expects X,
//! Y, Z and W in V0 to V3.

use crate::backend::emit::aarch64::branch::{
    branch_steps, cond_patched, field19, in_reach19, patch_cbz_cbnz, reach19, steps19,
};
use crate::backend::emit::aarch64::{emit32, encode_mov_v, mov_v};
use crate::backend::emit::bytes::CodeBytes;
use crate::backend::emit::Reg;
use vstd::prelude::*;

verus! {

/// First callee-saved vector register.
const CALLEE_SAVED_NEON_BASE: u8 = 8;

/// How many vector registers are callee-saved: V8 to V15.
const MAX_HOISTED_NEON: u8 = 8;

/// Word of `MOV Xd, Xm`.
pub open spec fn mov_x(dst: u8, src: u8) -> u32 {
    0xAA0003E0u32 | ((src as u32) << 16) | (dst as u32)
}

/// Word of a 128-bit access that advances its pointer by 16; `base` selects
/// load or store.
pub open spec fn q_post16(base: u32, rt: u8, rn: u8) -> u32 {
    base | ((rn as u32) << 5) | (rt as u32)
}

/// An offset that a register pair instruction can encode, in units of `unit`.
pub open spec fn pair_imm_ok(bytes: int, unit: int) -> bool {
    bytes % unit == 0 && -64 * unit <= bytes < 64 * unit
}

/// The 7-bit two's complement field of an offset in units of `unit`.
pub open spec fn pair_imm(bytes: int, unit: int) -> u32 {
    ((bytes / unit) % 128) as u32
}

/// Word of a register pair access.
pub open spec fn pair_word(base: u32, rt1: u8, rt2: u8, rn: u8, bytes: int, unit: int) -> u32 {
    base | (pair_imm(bytes, unit) << 15) | ((rt2 as u32) << 10) | ((rn as u32) << 5) | (rt1 as u32)
}

/// Word of a single 128-bit access at an unsigned offset.
pub open spec fn q_offset(base: u32, rt: u8, rn: u8, bytes: u32) -> u32 {
    base | ((bytes / 16) << 10) | ((rn as u32) << 5) | (rt as u32)
}

/// Word of `B.cond` with a distance in instructions.
pub open spec fn bcond_word(imm19: u32, cond: u8) -> u32 {
    0x54000000u32 | ((imm19 & 0x7FFFF) << 5) | (cond as u32)
}

/// Encode MOV Xd, Xm.
fn encode_mov_x(dst: u8, src: u8) -> (w: u32)
    ensures
        w == mov_x(dst, src),
{
    0xAA0003E0u32 | ((src as u32) << 16) | (dst as u32)
}

/// Encode LDR Qt, [Xn], #16.
fn encode_ldr_q_post16(rt: u8, rn: u8) -> (w: u32)
    ensures
        w == q_post16(0x3CC10400, rt, rn),
{
    0x3CC10400u32 | ((rn as u32) << 5) | (rt as u32)
}

/// Encode STR Qt, [Xn], #16.
fn encode_str_q_post16(rt: u8, rn: u8) -> (w: u32)
    ensures
        w == q_post16(0x3C810400, rt, rn),
{
    0x3C810400u32 | ((rn as u32) << 5) | (rt as u32)
}

/// The 7-bit field of an offset in units of `unit`.
fn imm7(bytes: i32, unit: i32) -> (imm: u32)
    requires
        unit == 8 || unit == 16,
        pair_imm_ok(bytes as int, unit as int),
    ensures
        imm == pair_imm(bytes as int, unit as int),
{
    if bytes >= 0 {
        (bytes / unit) as u32
    } else {
        let mag: i32 = (-bytes) / unit;
        proof {
            if unit == 8 {
                assert(bytes as int / 8 == -((-bytes) / 8));
            } else {
                assert(bytes as int / 16 == -((-bytes) / 16));
            }
        }
        (128 - mag) as u32
    }
}

/// Encode STP Xt1, Xt2, [Xn, #imm]!.
fn encode_stp_pre(rt1: u8, rt2: u8, rn: u8, imm_bytes: i32) -> (w: u32)
    requires
        pair_imm_ok(imm_bytes as int, 8),
    ensures
        w == pair_word(0xA9800000, rt1, rt2, rn, imm_bytes as int, 8),
{
    let imm7: u32 = imm7(imm_bytes, 8);
    0xA9800000u32 | (imm7 << 15) | ((rt2 as u32) << 10) | ((rn as u32) << 5) | (rt1 as u32)
}

/// Encode LDP Xt1, Xt2, [Xn], #imm.
fn encode_ldp_post(rt1: u8, rt2: u8, rn: u8, imm_bytes: i32) -> (w: u32)
    requires
        pair_imm_ok(imm_bytes as int, 8),
    ensures
        w == pair_word(0xA8C00000, rt1, rt2, rn, imm_bytes as int, 8),
{
    let imm7: u32 = imm7(imm_bytes, 8);
    0xA8C00000u32 | (imm7 << 15) | ((rt2 as u32) << 10) | ((rn as u32) << 5) | (rt1 as u32)
}

/// Encode LDP Xt1, Xt2, [Xn, #imm].
fn encode_ldp_offset(rt1: u8, rt2: u8, rn: u8, imm_bytes: i32) -> (w: u32)
    requires
        pair_imm_ok(imm_bytes as int, 8),
    ensures
        w == pair_word(0xA9400000, rt1, rt2, rn, imm_bytes as int, 8),
{
    let imm7: u32 = imm7(imm_bytes, 8);
    0xA9400000u32 | (imm7 << 15) | ((rt2 as u32) << 10) | ((rn as u32) << 5) | (rt1 as u32)
}

/// Encode STP Xt1, Xt2, [Xn, #imm].
fn encode_stp_offset(rt1: u8, rt2: u8, rn: u8, imm_bytes: i32) -> (w: u32)
    requires
        pair_imm_ok(imm_bytes as int, 8),
    ensures
        w == pair_word(0xA9000000, rt1, rt2, rn, imm_bytes as int, 8),
{
    let imm7: u32 = imm7(imm_bytes, 8);
    0xA9000000u32 | (imm7 << 15) | ((rt2 as u32) << 10) | ((rn as u32) << 5) | (rt1 as u32)
}

/// Encode STP Qt1, Qt2, [Xn, #imm].
fn encode_stp_q_offset(rt1: u8, rt2: u8, rn: u8, imm_bytes: i32) -> (w: u32)
    requires
        pair_imm_ok(imm_bytes as int, 16),
    ensures
        w == pair_word(0xAD000000, rt1, rt2, rn, imm_bytes as int, 16),
{
    let imm7: u32 = imm7(imm_bytes, 16);
    0xAD000000u32 | (imm7 << 15) | ((rt2 as u32) << 10) | ((rn as u32) << 5) | (rt1 as u32)
}

/// Encode LDP Qt1, Qt2, [Xn, #imm].
fn encode_ldp_q_offset(rt1: u8, rt2: u8, rn: u8, imm_bytes: i32) -> (w: u32)
    requires
        pair_imm_ok(imm_bytes as int, 16),
    ensures
        w == pair_word(0xAD400000, rt1, rt2, rn, imm_bytes as int, 16),
{
    let imm7: u32 = imm7(imm_bytes, 16);
    0xAD400000u32 | (imm7 << 15) | ((rt2 as u32) << 10) | ((rn as u32) << 5) | (rt1 as u32)
}

/// Encode STR Qt, [Xn, #imm].
fn encode_str_q_offset(rt: u8, rn: u8, imm_bytes: u32) -> (w: u32)
    ensures
        w == q_offset(0x3D800000, rt, rn, imm_bytes),
{
    let imm12: u32 = imm_bytes / 16;
    0x3D800000u32 | (imm12 << 10) | ((rn as u32) << 5) | (rt as u32)
}

/// Encode LDR Qt, [Xn, #imm].
fn encode_ldr_q_offset(rt: u8, rn: u8, imm_bytes: u32) -> (w: u32)
    ensures
        w == q_offset(0x3DC00000, rt, rn, imm_bytes),
{
    let imm12: u32 = imm_bytes / 16;
    0x3DC00000u32 | (imm12 << 10) | ((rn as u32) << 5) | (rt as u32)
}

/// Positions in a scanline prologue that its epilogue needs.
#[derive(Clone, Copy, PartialEq, Eq, Structural, Debug)]
pub struct ScanlinePrologue {
    /// The CBZ taken when the count is zero.
    pub early_exit_patch: usize,
    /// The loop header, where the back edge leads.
    pub loop_header: usize,
}

/// Code saving X19 to X22, X29 and X30 in a frame of `frame` bytes.
pub open spec fn gp_saved(code: Seq<u8>, frame: int) -> Seq<u8> {
    code.inst(pair_word(0xA9800000, 29, 30, 31, -frame, 8)).inst(
        pair_word(0xA9000000, 19, 20, 31, 16, 8),
    ).inst(pair_word(0xA9000000, 21, 22, 31, 32, 8))
}

/// Code restoring what [`gp_saved`] saved, releasing the frame and returning.
pub open spec fn gp_restored(code: Seq<u8>, frame: int) -> Seq<u8> {
    code.inst(pair_word(0xA9400000, 21, 22, 31, 32, 8)).inst(
        pair_word(0xA9400000, 19, 20, 31, 16, 8),
    ).inst(pair_word(0xA8C00000, 29, 30, 31, frame, 8)).inst(0xD65F03C0)
}

/// Code keeping Y, Z and W in V29 to V31, and pointers and count in X19 to X21.
pub open spec fn inputs_kept(code: Seq<u8>) -> Seq<u8> {
    code.inst(mov_v(29, 0)).inst(mov_v(30, 1)).inst(mov_v(31, 2)).inst(mov_x(19, 0)).inst(
        mov_x(20, 1),
    ).inst(mov_x(21, 2))
}

/// Code putting Y, Z and W, kept by [`inputs_kept`], where the body expects them.
pub open spec fn inputs_placed(code: Seq<u8>) -> Seq<u8> {
    code.inst(mov_v(1, 29)).inst(mov_v(2, 30)).inst(mov_v(3, 31))
}

/// Code of the zero-count exit, still to be patched, and of the loop header.
pub open spec fn loop_opened(code: Seq<u8>) -> Seq<u8> {
    inputs_placed(code.inst(0xB4000015)).inst(q_post16(0x3CC10400, 0, 19))
}

/// Code of the loop tail: store the result, count down, branch back while
/// pixels are left; then the zero-count exit is made to lead here.
pub open spec fn loop_closed(code: Seq<u8>, exit_patch: int, header: int, result: Reg) -> Seq<u8> {
    let stored = code.inst(q_post16(0x3C810400, result.0, 20)).inst(
        0xF1000000u32 | (1u32 << 10) | (21u32 << 5) | 21u32,
    );
    let looped = stored.inst(
        bcond_word(field19(branch_steps(stored.len() as int, header)), 0x01),
    );
    cond_patched(looped, exit_patch, looped.len() as int)
}

/// The loop branches stay within a megabyte.
pub open spec fn loop_reaches(len: int, exit_patch: int, header: int) -> bool {
    exit_patch + 4 <= len + 12 && reach19(len + 8, header) && reach19(exit_patch, len + 12)
}

/// Can the loop branches of a scanline kernel reach?
pub(crate) fn loop_in_reach(len: usize, exit_patch: usize, header: usize) -> (b: bool)
    ensures
        b == loop_reaches(len as int, exit_patch as int, header as int),
{
    let end: u128 = len as u128 + 12;
    let exit: u128 = exit_patch as u128;
    exit + 4 <= end && in_reach19(end - 4, header as u128) && in_reach19(exit, end)
}

/// Emit the frame and argument setup shared by both prologues.
fn emit_gp_saves(code: &mut Vec<u8>, frame: u32)
    requires
        frame % 8 == 0,
        frame <= 512,
    ensures
        final(code)@ == gp_saved(old(code)@, frame as int),
{
    emit32(code, encode_stp_pre(29, 30, 31, -(frame as i32)));
    emit32(code, encode_stp_offset(19, 20, 31, 16));
    emit32(code, encode_stp_offset(21, 22, 31, 32));
}

/// Emit [`gp_restored`].
fn emit_gp_restores(code: &mut Vec<u8>, frame: u32)
    requires
        frame % 8 == 0,
        frame < 512,
    ensures
        final(code)@ == gp_restored(old(code)@, frame as int),
{
    emit32(code, encode_ldp_offset(21, 22, 31, 32));
    emit32(code, encode_ldp_offset(19, 20, 31, 16));
    emit32(code, encode_ldp_post(29, 30, 31, frame as i32));
    emit32(code, 0xD65F03C0);
}

/// Emit [`inputs_kept`].
fn emit_inputs_kept(code: &mut Vec<u8>)
    ensures
        final(code)@ == inputs_kept(old(code)@),
{
    emit32(code, encode_mov_v(29, 0));
    emit32(code, encode_mov_v(30, 1));
    emit32(code, encode_mov_v(31, 2));
    emit32(code, encode_mov_x(19, 0));
    emit32(code, encode_mov_x(20, 1));
    emit32(code, encode_mov_x(21, 2));
}

/// Emit [`inputs_placed`].
fn emit_inputs_placed(code: &mut Vec<u8>)
    ensures
        final(code)@ == inputs_placed(old(code)@),
{
    emit32(code, encode_mov_v(1, 29));
    emit32(code, encode_mov_v(2, 30));
    emit32(code, encode_mov_v(3, 31));
}

/// Emit [`loop_opened`]; returns the positions of the exit and of the loop header.
fn emit_loop_open(code: &mut Vec<u8>) -> (r: (usize, usize))
    ensures
        final(code)@ == loop_opened(old(code)@),
        r.0 == old(code)@.len(),
        r.1 == old(code)@.len() + 4,
{
    let early_exit_patch: usize = code.len();
    emit32(code, 0xB4000015);
    let loop_header: usize = code.len();
    emit_inputs_placed(code);
    emit32(code, encode_ldr_q_post16(0, 19));
    (early_exit_patch, loop_header)
}

/// Emit [`loop_closed`].
fn emit_loop_close(code: &mut Vec<u8>, exit_patch: usize, header: usize, result: Reg)
    requires
        loop_reaches(old(code)@.len() as int, exit_patch as int, header as int),
    ensures
        final(code)@ == loop_closed(old(code)@, exit_patch as int, header as int, result),
{
    emit32(code, encode_str_q_post16(result.0, 20));
    emit32(code, 0xF1000000u32 | (1u32 << 10) | (21u32 << 5) | 21u32);
    let branch_pos: usize = code.len();
    let imm19: u32 = steps19(branch_pos, header);
    let cond: u8 = 0x01;
    emit32(code, 0x54000000u32 | ((imm19 & 0x7FFFF) << 5) | (cond as u32));
    let exit_pos: usize = code.len();
    patch_cbz_cbnz(code, exit_patch, exit_pos);
}

/// Emit a scanline loop prologue.
pub fn emit_scanline_prologue(code: &mut Vec<u8>) -> (p: ScanlinePrologue)
    ensures
        final(code)@ == loop_opened(inputs_kept(gp_saved(old(code)@, 48))),
        p.early_exit_patch == inputs_kept(gp_saved(old(code)@, 48)).len(),
        p.loop_header == p.early_exit_patch + 4,
{
    emit_gp_saves(code, 48);
    emit_inputs_kept(code);
    let (early_exit_patch, loop_header) = emit_loop_open(code);
    ScanlinePrologue { early_exit_patch, loop_header }
}

/// Emit a scanline loop tail: store the result, loop, restore, return.
pub fn emit_scanline_epilogue(code: &mut Vec<u8>, prologue: &ScanlinePrologue, result_reg: Reg)
    requires
        loop_reaches(
            old(code)@.len() as int,
            prologue.early_exit_patch as int,
            prologue.loop_header as int,
        ),
    ensures
        final(code)@ == gp_restored(
            loop_closed(
                old(code)@,
                prologue.early_exit_patch as int,
                prologue.loop_header as int,
                result_reg,
            ),
            48,
        ),
{
    emit_loop_close(code, prologue.early_exit_patch, prologue.loop_header, result_reg);
    emit_gp_restores(code, 48);
}

/// What the tail of a scanline kernel with a setup block needs of its start.
#[derive(Clone, Copy, PartialEq, Eq, Structural, Debug)]
pub struct HoistedScanlinePrologue {
    /// The CBZ taken when the count is zero; before the loop is opened, the end of
    /// the prologue.
    pub early_exit_patch: usize,
    /// The loop header, where the back edge leads; before the loop is opened, the
    /// end of the prologue.
    pub loop_header: usize,
    /// How many vector registers were saved, from V8 on.
    pub num_hoisted: u8,
    /// Frame size, a multiple of 16.
    pub callee_frame_size: u32,
}

impl HoistedScanlinePrologue {
    /// What the prologue records of its frame: at most the eight callee-saved
    /// vector registers, 16 bytes each, above 48 bytes of general registers.
    pub open spec fn wf(&self) -> bool {
        self.num_hoisted <= 8 && self.callee_frame_size == 48 + 16 * self.num_hoisted
    }
}

/// Code accessing V(8+i) up to V(7+n) at `[SP, #48 + 16 * i]` and on: in pairs,
/// an odd register last. The bases select stores or loads.
pub open spec fn neon_block(code: Seq<u8>, pair_base: u32, one_base: u32, i: int, n: int) -> Seq<u8>
    decreases n - i,
{
    if i + 1 < n {
        neon_block(
            code.inst(pair_word(pair_base, (8 + i) as u8, (9 + i) as u8, 31, 48 + 16 * i, 16)),
            pair_base,
            one_base,
            i + 2,
            n,
        )
    } else if i < n {
        code.inst(q_offset(one_base, (8 + i) as u8, 31, (48 + 16 * i) as u32))
    } else {
        code
    }
}

/// Code saving V8 to V(7+n).
pub open spec fn neon_saved(code: Seq<u8>, n: int) -> Seq<u8> {
    neon_block(code, 0xAD000000, 0x3D800000, 0, n)
}

/// Code restoring V8 to V(7+n) from where [`neon_saved`] put them.
pub open spec fn neon_restored(code: Seq<u8>, n: int) -> Seq<u8> {
    neon_block(code, 0xAD400000, 0x3DC00000, 0, n)
}

/// Code of the end of a scanline kernel that saved `n` vector registers.
pub open spec fn scanline_end(
    code: Seq<u8>,
    exit_patch: int,
    header: int,
    result: Reg,
    n: int,
) -> Seq<u8> {
    gp_restored(neon_restored(loop_closed(code, exit_patch, header, result), n), 48 + 16 * n)
}

/// Emit a scanline prologue that also saves V8 to V(7+num_hoisted), where
/// loop-invariant values are kept. The setup block comes next, with Y, Z and W in
/// V1 to V3, and behind it the loop: see [`emit_scanline_loop_hoisted`].
pub fn emit_scanline_prologue_hoisted(
    code: &mut Vec<u8>,
    num_hoisted: u8,
) -> (p: HoistedScanlinePrologue)
    requires
        num_hoisted <= 8,
    ensures
        ({
            let frame = 48 + 16 * num_hoisted;
            let saved = neon_saved(gp_saved(old(code)@, frame), num_hoisted as int);
            &&& final(code)@ == inputs_placed(inputs_kept(saved))
            &&& p.early_exit_patch == final(code)@.len()
            &&& p.loop_header == final(code)@.len()
            &&& p.wf()
            &&& p.num_hoisted == num_hoisted
            &&& p.callee_frame_size == frame
        }),
{
    assert(num_hoisted <= MAX_HOISTED_NEON);
    let total_frame: u32 = 48 + (num_hoisted as u32) * 16;
    emit_gp_saves(code, total_frame);
    let ghost start = code@;
    let mut neon_offset: i32 = 48;
    let mut i: u8 = 0;
    while i + 1 < num_hoisted
        invariant
            num_hoisted <= 8,
            i <= num_hoisted,
            neon_offset == 48 + 16 * i,
            neon_block(code@, 0xAD000000, 0x3D800000, i as int, num_hoisted as int) == neon_saved(
                start,
                num_hoisted as int,
            ),
        decreases num_hoisted - i,
    {
        emit32(
            code,
            encode_stp_q_offset(
                CALLEE_SAVED_NEON_BASE + i,
                CALLEE_SAVED_NEON_BASE + i + 1,
                31,
                neon_offset,
            ),
        );
        neon_offset = neon_offset + 32;
        i = i + 2;
    }
    if i < num_hoisted {
        emit32(code, encode_str_q_offset(CALLEE_SAVED_NEON_BASE + i, 31, neon_offset as u32));
    }
    assert(code@ == neon_saved(start, num_hoisted as int));
    emit_inputs_kept(code);
    emit_inputs_placed(code);
    let end: usize = code.len();
    HoistedScanlinePrologue {
        early_exit_patch: end,
        loop_header: end,
        num_hoisted,
        callee_frame_size: total_frame,
    }
}

/// Open the loop behind the setup block: the zero-count exit and the loop header,
/// which puts Y, Z and W back in place and loads X. Returns the prologue with the
/// positions of both.
pub fn emit_scanline_loop_hoisted(
    code: &mut Vec<u8>,
    prologue: HoistedScanlinePrologue,
) -> (p: HoistedScanlinePrologue)
    ensures
        final(code)@ == loop_opened(old(code)@),
        p.early_exit_patch == old(code)@.len(),
        p.loop_header == old(code)@.len() + 4,
        p.num_hoisted == prologue.num_hoisted,
        p.callee_frame_size == prologue.callee_frame_size,
{
    let (early_exit_patch, loop_header) = emit_loop_open(code);
    HoistedScanlinePrologue {
        early_exit_patch,
        loop_header,
        num_hoisted: prologue.num_hoisted,
        callee_frame_size: prologue.callee_frame_size,
    }
}

/// Emit the tail matching [`emit_scanline_prologue_hoisted`].
pub fn emit_scanline_epilogue_hoisted(
    code: &mut Vec<u8>,
    prologue: &HoistedScanlinePrologue,
    result_reg: Reg,
)
    requires
        prologue.wf(),
        loop_reaches(
            old(code)@.len() as int,
            prologue.early_exit_patch as int,
            prologue.loop_header as int,
        ),
    ensures
        final(code)@ == scanline_end(
            old(code)@,
            prologue.early_exit_patch as int,
            prologue.loop_header as int,
            result_reg,
            prologue.num_hoisted as int,
        ),
{
    let num_hoisted: u8 = prologue.num_hoisted;
    emit_loop_close(code, prologue.early_exit_patch, prologue.loop_header, result_reg);
    let ghost start = code@;
    let mut neon_offset: i32 = 48;
    let mut i: u8 = 0;
    while i + 1 < num_hoisted
        invariant
            num_hoisted <= 8,
            i <= num_hoisted,
            neon_offset == 48 + 16 * i,
            neon_block(code@, 0xAD400000, 0x3DC00000, i as int, num_hoisted as int)
                == neon_restored(start, num_hoisted as int),
        decreases num_hoisted - i,
    {
        emit32(
            code,
            encode_ldp_q_offset(
                CALLEE_SAVED_NEON_BASE + i,
                CALLEE_SAVED_NEON_BASE + i + 1,
                31,
                neon_offset,
            ),
        );
        neon_offset = neon_offset + 32;
        i = i + 2;
    }
    if i < num_hoisted {
        emit32(code, encode_ldr_q_offset(CALLEE_SAVED_NEON_BASE + i, 31, neon_offset as u32));
    }
    assert(code@ == neon_restored(start, num_hoisted as int));
    emit_gp_restores(code, prologue.callee_frame_size);
}

} // verus!
