//! NEON kernels.
//!
//! v0 to v3 hold the inputs, v4 to v25 values, v26 and v27 serve spilled values,
//! v28 to v31 are scratch. Constants that no single instruction can build are
//! placed behind the code, where X17 points.

use crate::backend::emit::aarch64;
use crate::backend::emit::aarch64::branch::{
    cond_patched, in_reach19, in_reach26, jump_patched, reach19, reach26,
};
use crate::backend::emit::aarch64::builtins::{hypot_code, lemma_pow_grows, pow_out};
use crate::backend::emit::aarch64::ops;
use crate::backend::emit::aarch64::{
    adr_patched, chunked, lemma_chunked_grows, mov_v, page_distance, pool_entry, same3, sp_access,
    AdrMode,
};
use crate::backend::emit::bytes::{emit32, CodeBytes};
use crate::backend::emit::isa::{Branch, Emitted, IsaBackend};
use crate::backend::emit::pool::{
    const_load_code, emit_const_load, pool_of, ConstPool, Output,
};
use crate::backend::emit::regalloc::ValueId;
use crate::backend::emit::schedule::ScheduledOp;
use crate::backend::emit::Reg;
use crate::kind::OpKind;
use vstd::prelude::*;

verus! {

/// NEON machine: the constants to be placed behind the code, where the code sets
/// up X17, and the register budget.
pub struct Aarch64Backend {
    constants: ConstPool,
    adr_patch_pos: usize,
    max_regs: u8,
}

impl Aarch64Backend {
    /// A machine with a register budget.
    pub fn new(max_regs: u8) -> (b: Aarch64Backend)
        ensures
            b.valid(),
            b.budget() == max_regs,
            b.pool() == Seq::<u32>::empty(),
    {
        Aarch64Backend { constants: ConstPool::new(), adr_patch_pos: 0, max_regs }
    }

    /// Place the constants behind finished code.
    pub(crate) fn place_constants(&self, code: &mut Vec<u8>) -> (done: bool)
        requires
            self.valid(),
        ensures
            done == can_anchor(old(code)@, self.pool(), self.anchor()),
            done ==> final(code)@ == anchored(old(code)@, self.pool(), self.anchor()),
    {
        if !anchor_in_reach(code, &self.constants, self.adr_patch_pos) {
            return false;
        }
        append_constants(code, &self.constants, self.adr_patch_pos);
        true
    }
}

/// `code` with four zero bytes inserted at `pos`.
pub open spec fn widened(code: Seq<u8>, pos: int) -> Seq<u8> {
    code.take(pos) + seq![0u8, 0u8, 0u8, 0u8] + code.skip(pos)
}

/// `code` with zero bytes up to a multiple of 16.
pub open spec fn aligned(code: Seq<u8>) -> Seq<u8> {
    code + Seq::new(((16 - code.len() % 16) % 16) as nat, |i: int| 0u8)
}

/// `code` and the first `k` constants behind it.
pub open spec fn with_constants(code: Seq<u8>, pool: Seq<u32>, k: int) -> Seq<u8>
    decreases k,
{
    if k <= 0 {
        code
    } else {
        pool_entry(with_constants(code, pool, k - 1), pool[k - 1])
    }
}

/// The constants are out of reach of a single ADR.
pub open spec fn far(len: int, anchor: int) -> bool {
    len - anchor >= 0x10_0000 - 32
}

/// Code up to where the constants start.
pub open spec fn before_constants(code: Seq<u8>, anchor: int) -> Seq<u8> {
    if far(code.len() as int, anchor) {
        aligned(widened(code, anchor + 4))
    } else {
        aligned(code)
    }
}

/// Finished code: the constants behind it, and the anchor pointing to them. If
/// they are far the anchor takes two instructions.
pub open spec fn anchored(code: Seq<u8>, pool: Seq<u32>, anchor: int) -> Seq<u8> {
    if pool.len() == 0 {
        code
    } else {
        let front = before_constants(code, anchor);
        let mode = if far(code.len() as int, anchor) {
            AdrMode::Adrp
        } else {
            AdrMode::Adr
        };
        adr_patched(
            with_constants(front, pool, pool.len() as int),
            anchor,
            front.len() as int,
            mode,
        )
    }
}

/// The anchor lies in the code, and its constants within four gigabytes.
pub open spec fn can_anchor(code: Seq<u8>, pool: Seq<u32>, anchor: int) -> bool {
    pool.len() > 0 ==> {
        &&& 0 <= anchor
        &&& anchor + 4 <= code.len()
        &&& page_distance(anchor, before_constants(code, anchor).len() as int) < 0x10_0000
    }
}

proof fn lemma_constants_len(code: Seq<u8>, pool: Seq<u32>, k: int)
    requires
        0 <= k,
    ensures
        with_constants(code, pool, k).len() == code.len() + 16 * k,
    decreases k,
{
    if k > 0 {
        lemma_constants_len(code, pool, k - 1);
    }
}

/// Can the anchor be made to point to the constants?
fn anchor_in_reach(code: &Vec<u8>, pool: &ConstPool, adr_pos: usize) -> (b: bool)
    requires
        pool.wf(),
    ensures
        b == can_anchor(code@, pool@, adr_pos as int),
{
    if pool.is_empty() {
        return true;
    }
    let len: u128 = code.len() as u128;
    let pos: u128 = adr_pos as u128;
    if pos + 4 > len {
        return false;
    }
    let wide: u128 = if len - pos >= 0x10_0000 - 32 {
        len + 4
    } else {
        len
    };
    let front: u128 = wide + (16 - wide % 16) % 16;
    assert(front == before_constants(code@, adr_pos as int).len());
    front / 4096 < pos / 4096 + 0x10_0000
}

/// Place the constants behind the code and point the anchor to them.
pub(crate) fn append_constants(code: &mut Vec<u8>, pool: &ConstPool, adr_pos: usize)
    requires
        pool.wf(),
        can_anchor(old(code)@, pool@, adr_pos as int),
    ensures
        final(code)@ == anchored(old(code)@, pool@, adr_pos as int),
{
    if pool.is_empty() {
        return;
    }
    let ghost start = code@;
    let far: bool = code.len() - adr_pos >= 0x10_0000 - 32;
    if far {
        let at: usize = adr_pos + 4;
        code.insert(at, 0);
        code.insert(at, 0);
        code.insert(at, 0);
        code.insert(at, 0);
        assert(code@ =~= widened(start, at as int));
    }
    let ghost mid = code@;
    let ghost pad = Seq::new(((16 - mid.len() % 16) % 16) as nat, |i: int| 0u8);
    while code.len() % 16 != 0
        invariant
            mid.len() <= code@.len() <= mid.len() + pad.len(),
            pad.len() == (16 - mid.len() % 16) % 16,
            pad == Seq::new(((16 - mid.len() % 16) % 16) as nat, |i: int| 0u8),
            code@ =~= mid + pad.take(code@.len() - mid.len()),
        decreases mid.len() + pad.len() - code@.len(),
    {
        code.push(0);
    }
    assert(code@ =~= mid + pad);
    let ghost front = code@;
    assert(front == before_constants(start, adr_pos as int));
    let pool_start: usize = code.len();
    let mut k: usize = 0;
    while k < pool.len()
        invariant
            k <= pool@.len(),
            code@ == with_constants(front, pool@, k as int),
        decreases pool@.len() - k,
    {
        aarch64::emit_pool_entry(code, pool.entry(k));
        k += 1;
    }
    proof {
        lemma_constants_len(front, pool@, k as int);
        assert(code@.len() >= front.len() >= start.len());
        if far {
            assert(adr_pos + 8 <= code@.len());
            assert(front.len() <= start.len() + 4 + 15);
        } else {
            assert(front.len() <= start.len() + 15);
        }
    }
    let mode: AdrMode = if far {
        AdrMode::Adrp
    } else {
        AdrMode::Adr
    };
    aarch64::patch_adr_or_adrp(code, adr_pos, pool_start, mode);
}

/// The error of a schedule with too many constants.
pub open spec fn too_many_constants() -> &'static str {
    "expression too large: constant pool would exceed 12-bit LDR offset limit"
}

/// The constants of a schedule, if they leave room for those of builtins.
pub open spec fn seeded(sched: Seq<(ValueId, ScheduledOp)>) -> Result<Seq<u32>, &'static str> {
    match pool_of(sched, sched.len() as int) {
        Err(e) => Err(e),
        Ok(pool) => if pool.len() + 128 > 4095 {
            Err(too_many_constants())
        } else {
            Ok(pool)
        },
    }
}

/// Collect the constants of a schedule, leaving room for those of builtins.
pub(crate) fn seed_pool(schedule: &[(ValueId, ScheduledOp)]) -> (r: Result<
    ConstPool,
    &'static str,
>)
    ensures
        match seeded(schedule@) {
            Ok(pool) => r matches Ok(p) && p.wf() && p@ == pool,
            Err(e) => r matches Err(f) && f == e,
        },
{
    let pool: ConstPool = match ConstPool::from_schedule(schedule) {
        Ok(p) => p,
        Err(e) => return Err(e),
    };
    let builtin_headroom: usize = 128;
    proof {
        pool.lemma_wf();
    }
    if pool.len() + builtin_headroom > 4095 {
        return Err("expression too large: constant pool would exceed 12-bit LDR offset limit");
    }
    Ok(pool)
}

/// Registers scratched by builtins and wide constants.
pub open spec fn neon_scratch() -> [Reg; 4] {
    [Reg(28), Reg(29), Reg(30), Reg(31)]
}

/// Code of a register copy, unless it is the same register.
pub open spec fn copy_code(code: Seq<u8>, dst: Reg, src: Reg) -> Seq<u8> {
    if dst.0 != src.0 {
        code.inst(mov_v(dst.0, src.0))
    } else {
        code
    }
}

impl IsaBackend for Aarch64Backend {
    closed spec fn pool(&self) -> Seq<u32> {
        self.constants@
    }

    closed spec fn anchor(&self) -> int {
        self.adr_patch_pos as int
    }

    closed spec fn budget(&self) -> u8 {
        self.max_regs
    }

    closed spec fn valid(&self) -> bool {
        self.constants.wf()
    }

    open spec fn reload_pair() -> [Reg; 2] {
        [Reg(26), Reg(27)]
    }

    open spec fn const_code(code: Seq<u8>, pool: Seq<u32>, dst: Reg, bits: u32) -> Seq<u8> {
        const_load_code(code, dst, bits, pool)
    }

    open spec fn slot_ok(offset: u32) -> bool {
        true
    }

    open spec fn slot_error() -> &'static str {
        ""
    }

    open spec fn load_code(code: Seq<u8>, dst: Reg, offset: u32) -> Seq<u8> {
        sp_access(code, 0x3DC00000, dst, offset)
    }

    open spec fn store_code(code: Seq<u8>, src: Reg, offset: u32) -> Seq<u8> {
        sp_access(code, 0x3D800000, src, offset)
    }

    open spec fn mov_code(code: Seq<u8>, dst: Reg, src: Reg) -> Seq<u8> {
        copy_code(code, dst, src)
    }

    open spec fn unary_ok(op: OpKind) -> bool {
        true
    }

    open spec fn unary_code(code: Seq<u8>, op: OpKind, dst: Reg, src: Reg) -> Result<
        Seq<u8>,
        &'static str,
    > {
        match ops::unary_code(code, op, dst, src, neon_scratch()) {
            Some(c) => Ok(c),
            None => Err("unary emit not implemented for this op (lowering not run?)"),
        }
    }

    open spec fn shift_ok(op: OpKind, amount: u8) -> bool {
        op is Shr ==> amount <= 64
    }

    open spec fn shift_code(code: Seq<u8>, op: OpKind, dst: Reg, src: Reg, amount: u8) -> Result<
        Seq<u8>,
        &'static str,
    > {
        match ops::shift_code(code, op, dst, src, amount) {
            Some(c) => Ok(c),
            None => Err("aarch64 emit_shift_imm: not a shift op"),
        }
    }

    open spec fn binary_ok(op: OpKind) -> bool {
        match op {
            OpKind::Add | OpKind::Sub | OpKind::Mul | OpKind::Div | OpKind::Min
            | OpKind::Max => true,
            OpKind::Eq | OpKind::Ne | OpKind::Lt | OpKind::Le | OpKind::Gt | OpKind::Ge => true,
            OpKind::IAdd | OpKind::BitAnd | OpKind::BitOr => true,
            OpKind::Pow | OpKind::Hypot | OpKind::Atan2 => true,
            _ => false,
        }
    }

    open spec fn binary_code(
        code: Seq<u8>,
        pool: Seq<u32>,
        op: OpKind,
        dst: Reg,
        left: Reg,
        right: Reg,
    ) -> Result<Emitted, &'static str> {
        match op {
            OpKind::Pow => {
                let out = pow_out(
                    (Output { code, pool, ok: true }),
                    dst,
                    left,
                    right,
                    neon_scratch(),
                );
                match out.status() {
                    Ok(_) => Ok((out.code, out.pool)),
                    Err(e) => Err(e),
                }
            },
            OpKind::Hypot => Ok((hypot_code(code, dst, left, right), pool)),
            OpKind::Atan2 => Err("binary transcendental emit not implemented for this op"),
            _ => Ok((ops::binary_code(code, op, dst, left, right)->0, pool)),
        }
    }

    open spec fn arith_code(code: Seq<u8>, op: OpKind, dst: Reg, left: Reg, right: Reg) -> Seq<u8> {
        ops::binary_code(code, op, dst, left, right)->0
    }

    open spec fn fma_code(code: Seq<u8>, dst: Reg, a: Reg, b: Reg) -> Seq<u8> {
        code.inst(same3(0x4E20CC00, dst, a, b))
    }

    open spec fn select_code(code: Seq<u8>, dst: Reg, if_true: Reg, if_false: Reg) -> Seq<u8> {
        code.inst(same3(0x6E601C00, dst, if_true, if_false))
    }

    open spec fn skip_if_false(code: Seq<u8>, mask: Reg) -> (Seq<u8>, Branch) {
        let code = code.inst(0x6EB0A800u32 | (28u8 as u32) | ((mask.0 as u32) << 5)).inst(
            0x1E260000u32 | ((28u8 as u32) << 5) | 16u32,
        );
        (code.inst(0x34000010), Branch::Cond(code.len() as usize))
    }

    open spec fn skip_if_true(code: Seq<u8>, mask: Reg) -> (Seq<u8>, Branch) {
        let code = code.inst(0x6EB1A800u32 | (28u8 as u32) | ((mask.0 as u32) << 5)).inst(
            0x1E260000u32 | ((28u8 as u32) << 5) | 16u32,
        ).inst(0x2A3003F0);
        (code.inst(0x34000010), Branch::Cond(code.len() as usize))
    }

    open spec fn jump_code(code: Seq<u8>) -> (Seq<u8>, Branch) {
        (code.inst(0x14000000), Branch::Jump(code.len() as usize))
    }

    open spec fn patched(code: Seq<u8>, branch: Branch, target: int) -> Seq<u8> {
        match branch {
            Branch::Cond(p) => cond_patched(code, p as int, target),
            Branch::Jump(p) => jump_patched(code, p as int, target),
        }
    }

    open spec fn reaches(branch: Branch, target: int) -> bool {
        match branch {
            Branch::Cond(p) => reach19(p as int, target),
            Branch::Jump(p) => reach26(p as int, target),
        }
    }

    open spec fn begun(sched: Seq<(ValueId, ScheduledOp)>) -> Result<Seq<u32>, &'static str> {
        seeded(sched)
    }

    open spec fn entered(code: Seq<u8>, frame: u32) -> (Seq<u8>, int) {
        let code = chunked(code, 0xD10003FF, frame);
        (code.inst(0x10000011), code.len() as int)
    }

    open spec fn finished(
        code: Seq<u8>,
        pool: Seq<u32>,
        anchor: int,
        result: Reg,
        frame: u32,
    ) -> Seq<u8> {
        let code = chunked(copy_code(code, Reg(0), result), 0x910003FF, frame).inst(0xD65F03C0);
        anchored(code, pool, anchor)
    }

    open spec fn can_finish(
        code: Seq<u8>,
        pool: Seq<u32>,
        anchor: int,
        result: Reg,
        frame: u32,
    ) -> bool {
        let code = chunked(copy_code(code, Reg(0), result), 0x910003FF, frame).inst(0xD65F03C0);
        can_anchor(code, pool, anchor)
    }

    proof fn branch_laws(code: Seq<u8>, mask: Reg, branch: Branch, target: int) {
    }

    proof fn growth_laws(
        code: Seq<u8>,
        pool: Seq<u32>,
        op: OpKind,
        d: Reg,
        a: Reg,
        b: Reg,
        w: u32,
    ) {
        let first = if w < 4080 {
            w
        } else {
            4080u32
        };
        lemma_chunked_grows(
            code.inst(aarch64::imm12_word(0x91000000, first, 31, Reg(16))),
            0x91000000u32 | (16u32 << 5) | 16u32,
            (w - first) as u32,
        );
        lemma_pow_grows((Output { code, pool, ok: true }), d, a, b, neon_scratch());
    }

    fn num_regs(&self) -> (n: u8) {
        self.max_regs
    }

    fn reload_regs() -> (r: [Reg; 2]) {
        [Reg(26), Reg(27)]
    }

    fn begin(&mut self, schedule: &[(ValueId, ScheduledOp)]) -> (r: Result<(), &'static str>) {
        match seed_pool(schedule) {
            Ok(p) => {
                self.constants = p;
                Ok(())
            },
            Err(e) => Err(e),
        }
    }

    fn prologue(&mut self, code: &mut Vec<u8>, frame_size: u32) {
        aarch64::emit_sub_sp(code, frame_size);
        self.adr_patch_pos = aarch64::emit_adr_x17_placeholder(code);
    }

    fn emit_const(&self, code: &mut Vec<u8>, dst: Reg, bits: u32) {
        emit_const_load(code, dst, bits, &self.constants);
    }

    fn emit_load(&self, code: &mut Vec<u8>, dst: Reg, offset: u32) -> (r: Result<
        (),
        &'static str,
    >) {
        aarch64::emit_ldr_sp(code, dst, offset);
        Ok(())
    }

    fn emit_store(&self, code: &mut Vec<u8>, src: Reg, offset: u32) -> (r: Result<
        (),
        &'static str,
    >) {
        aarch64::emit_str_sp(code, src, offset);
        Ok(())
    }

    fn emit_mov(&self, code: &mut Vec<u8>, dst: Reg, src: Reg) {
        if dst.0 != src.0 {
            emit32(code, aarch64::encode_mov_v(dst.0, src.0));
        }
    }

    fn emit_unary(&mut self, code: &mut Vec<u8>, op: OpKind, dst: Reg, src: Reg) -> (r: Result<
        (),
        &'static str,
    >) {
        ops::emit_unary(
            code,
            &mut self.constants,
            op,
            dst,
            src,
            [Reg(28), Reg(29), Reg(30), Reg(31)],
        )
    }

    fn emit_shift(
        &self,
        code: &mut Vec<u8>,
        op: OpKind,
        dst: Reg,
        src: Reg,
        amount: u8,
    ) -> (r: Result<(), &'static str>) {
        ops::emit_shift_imm(code, op, dst, src, amount)
    }

    fn emit_binary(
        &mut self,
        code: &mut Vec<u8>,
        op: OpKind,
        dst: Reg,
        left: Reg,
        right: Reg,
    ) -> (r: Result<(), &'static str>) {
        match op {
            OpKind::Pow | OpKind::Hypot | OpKind::Atan2 => ops::emit_binary_transcendental(
                code,
                &mut self.constants,
                op,
                dst,
                left,
                right,
                [Reg(28), Reg(29), Reg(30), Reg(31)],
            ),
            _ => {
                ops::emit_binary(code, op, dst, left, right);
                Ok(())
            },
        }
    }

    fn emit_arith(&self, code: &mut Vec<u8>, op: OpKind, dst: Reg, left: Reg, right: Reg) {
        ops::emit_binary(code, op, dst, left, right);
    }

    fn emit_fma(&self, code: &mut Vec<u8>, dst: Reg, a: Reg, b: Reg) {
        aarch64::emit_fmla(code, dst, a, b);
    }

    fn emit_select(&self, code: &mut Vec<u8>, dst: Reg, if_true: Reg, if_false: Reg) {
        aarch64::emit_bsl(code, dst, if_true, if_false);
    }

    fn emit_skip_if_all_false(&self, code: &mut Vec<u8>, mask_reg: Reg) -> (b: Branch) {
        aarch64::emit_umaxv(code, Reg(28), mask_reg);
        aarch64::emit_fmov_to_gp(code, Reg(28));
        Branch::Cond(aarch64::emit_cbz_w16(code))
    }

    fn emit_skip_if_all_true(&self, code: &mut Vec<u8>, mask_reg: Reg) -> (b: Branch) {
        aarch64::emit_uminv(code, Reg(28), mask_reg);
        aarch64::emit_fmov_to_gp(code, Reg(28));
        emit32(code, 0x2A3003F0);
        Branch::Cond(aarch64::emit_cbz_w16(code))
    }

    fn emit_jump(&self, code: &mut Vec<u8>) -> (b: Branch) {
        Branch::Jump(aarch64::emit_b(code))
    }

    fn patch_branch(&self, code: &mut Vec<u8>, branch: Branch, target: usize) {
        match branch {
            Branch::Cond(p) => aarch64::patch_cbz_cbnz(code, p, target),
            Branch::Jump(p) => aarch64::patch_b(code, p, target),
        }
    }

    fn epilogue(&mut self, code: &mut Vec<u8>, result_reg: Reg, frame_size: u32) -> (done: bool) {
        if result_reg.0 != 0 {
            emit32(code, aarch64::encode_mov_v(0, result_reg.0));
        }
        aarch64::emit_add_sp(code, frame_size);
        emit32(code, 0xD65F03C0);
        self.place_constants(code)
    }

    fn can_unary(_op: OpKind) -> (b: bool) {
        true
    }

    fn can_shift(op: OpKind, amount: u8) -> (b: bool) {
        match op {
            OpKind::Shr => amount <= 64,
            _ => true,
        }
    }

    fn can_binary(op: OpKind) -> (b: bool) {
        match op {
            OpKind::Add | OpKind::Sub | OpKind::Mul | OpKind::Div | OpKind::Min
            | OpKind::Max => true,
            OpKind::Eq | OpKind::Ne | OpKind::Lt | OpKind::Le | OpKind::Gt | OpKind::Ge => true,
            OpKind::IAdd | OpKind::BitAnd | OpKind::BitOr => true,
            OpKind::Pow | OpKind::Hypot | OpKind::Atan2 => true,
            _ => false,
        }
    }

    fn can_address(_offset: u32) -> (b: bool) {
        true
    }

    fn can_reach(branch: Branch, target: usize) -> (b: bool) {
        match branch {
            Branch::Cond(p) => in_reach19(p as u128, target as u128),
            Branch::Jump(p) => in_reach26(p as u128, target as u128),
        }
    }
}

} // verus!
