//! Kernels for x86-64: SSE or AVX-512, one batch at a time; and SSE scanlines.

use crate::arena::model::ArenaModel;
use crate::arena::{ExprArena, ExprId};
use crate::backend::emit::bytes::{emit32, word_at, CodeBytes};
use crate::backend::emit::driver::{
    delivers, kernel_of, kernel_safe, try_compile_dag, CompileResult, Kernel,
};
use crate::backend::emit::isa::{Avx512Backend, X86Backend};
use crate::backend::emit::kernels::neon::{delivers_scanline, ScanlineCompileResult};
use crate::backend::emit::kernels::tree::{emit_arena, encoded_all, tree_of};
use crate::backend::emit::lowering::{
    lowered_owned, lowers, try_expand_transcendentals_owned, Pass,
};
use crate::backend::emit::outcome::{outcome_of, Outcome};
use crate::backend::emit::plan::EmitCtx;
use crate::backend::emit::schedule::{
    arena_to_uses, schedulable, schedule_of, schedules_are_dense, try_schedule,
};
use crate::backend::emit::x86_64::{
    emit_movaps, emit_movaps_load, patch_rel32, patched_rel32_leads_to_target, rel32_patched,
    rel32_target, X86Code,
};
use crate::backend::emit::Reg;
use vstd::prelude::*;

verus! {

/// Numbers of the registers kept free for spilled values.
pub const RELOAD_REGS: [u8; 2] = [11, 12];

/// Number of the register an operand is loaded into.
pub const RELOAD_REG: u8 = 12;

/// Most values that can be kept across a loop: none.
pub const MAX_PERSISTENT_SLOTS: usize = 0;

/// Deepest expression that is compiled as a tree.
pub const MAX_DEPTH: usize = 64;

/// The expression after its transcendentals are expanded.
pub open spec fn expanded(m: ArenaModel, root: ExprId) -> (ArenaModel, ExprId) {
    lowered_owned(Pass::Transcendentals, m, root)
}

/// The expansion of the expression fits an arena.
pub open spec fn expands(m: ArenaModel, root: ExprId) -> bool {
    &&& m.wf()
    &&& m.has(root)
    &&& lowers(Pass::Transcendentals, m, root)
}

/// The expression can be compiled for SSE: its expansion fits an arena, every
/// node of it can be scheduled, and the kernel can be emitted.
pub open spec fn sse_ok(m: ArenaModel, root: ExprId) -> bool {
    let e = expanded(m, root);
    let sched = schedule_of(e.0, e.1, true);
    &&& expands(m, root)
    &&& schedulable(e.0, (e.1).0 as int, true)
    &&& sched.len() <= u32::MAX
    &&& kernel_safe::<X86Backend>(sched, 6)
}

/// The SSE kernel of an expression.
pub open spec fn sse_kernel(m: ArenaModel, root: ExprId) -> Result<Kernel, &'static str> {
    let e = expanded(m, root);
    kernel_of::<X86Backend>(schedule_of(e.0, e.1, true), 6)
}

/// Compile an expression for SSE, if it can be compiled: see
/// [`compile_arena_dag_with_ctx`].
pub fn try_compile_arena_dag(arena: &ExprArena, root: ExprId) -> (r: Outcome<CompileResult>)
    requires
        arena@.wf(),
        arena@.has(root),
    ensures
        delivers(r, outcome_of(sse_ok(arena@, root), sse_kernel(arena@, root)), 6),
{
    let (arena, root) = match try_expand_transcendentals_owned(arena, root) {
        Some(x) => x,
        None => return Outcome::Refused,
    };
    proof {
        schedules_are_dense(arena@, root, true);
    }
    let schedule = match try_schedule(&arena, root, true) {
        Some(s) => s,
        None => return Outcome::Refused,
    };
    let uses = arena_to_uses(schedule.as_slice());
    let mut backend = X86Backend;
    try_compile_dag(schedule, uses, &mut backend)
}

/// Compile an expression for SSE. Transcendentals are expanded first. The
/// register budget of the context is not used: there are six registers.
pub fn compile_arena_dag_with_ctx(arena: &ExprArena, root: ExprId, _ctx: EmitCtx) -> (r: Result<
    CompileResult,
    &'static str,
>)
    requires
        sse_ok(arena@, root),
    ensures
        match sse_kernel(arena@, root) {
            Ok(k) => r matches Ok(c) && c@ == k && c.max_regs == 6,
            Err(e) => r matches Err(f) && f == e,
        },
{
    try_compile_arena_dag(arena, root).into_result()
}

/// Compile an expression for SSE.
pub fn compile_arena_dag(arena: &ExprArena, root: ExprId) -> (r: Result<
    CompileResult,
    &'static str,
>)
    requires
        sse_ok(arena@, root),
    ensures
        match sse_kernel(arena@, root) {
            Ok(k) => r matches Ok(c) && c@ == k && c.max_regs == 6,
            Err(e) => r matches Err(f) && f == e,
        },
{
    compile_arena_dag_with_ctx(arena, root, EmitCtx::default())
}

/// Compile an expression to SSE machine code.
pub fn compile_arena(arena: &ExprArena, root: ExprId) -> (r: Result<Vec<u8>, &'static str>)
    requires
        sse_ok(arena@, root),
    ensures
        match sse_kernel(arena@, root) {
            Ok(k) => r matches Ok(c) && c@ == k.code,
            Err(e) => r matches Err(f) && f == e,
        },
{
    match compile_arena_dag(arena, root) {
        Ok(c) => Ok(c.code),
        Err(e) => Err(e),
    }
}

/// The expression can be compiled for AVX-512: every node of it can be scheduled,
/// and the kernel can be emitted.
pub open spec fn avx512_ok(m: ArenaModel, root: ExprId) -> bool {
    let sched = schedule_of(m, root, true);
    &&& m.wf()
    &&& m.has(root)
    &&& schedulable(m, root.0 as int, true)
    &&& sched.len() <= u32::MAX
    &&& kernel_safe::<Avx512Backend>(sched, 6)
}

/// The AVX-512 kernel of an expression.
pub open spec fn avx512_kernel(m: ArenaModel, root: ExprId) -> Result<Kernel, &'static str> {
    kernel_of::<Avx512Backend>(schedule_of(m, root, true), 6)
}

/// Compile an expression for AVX-512, if it can be compiled: see
/// [`compile_arena_dag_avx512`].
pub fn try_compile_arena_dag_avx512(arena: &ExprArena, root: ExprId) -> (r: Outcome<CompileResult>)
    requires
        arena@.wf(),
        arena@.has(root),
    ensures
        delivers(r, outcome_of(avx512_ok(arena@, root), avx512_kernel(arena@, root)), 6),
{
    proof {
        schedules_are_dense(arena@, root, true);
    }
    let schedule = match try_schedule(arena, root, true) {
        Some(s) => s,
        None => return Outcome::Refused,
    };
    let uses = arena_to_uses(schedule.as_slice());
    let mut backend = Avx512Backend;
    try_compile_dag(schedule, uses, &mut backend)
}

/// Compile an expression for AVX-512, sixteen pixels a call. Transcendentals are
/// not expanded.
pub fn compile_arena_dag_avx512(arena: &ExprArena, root: ExprId) -> (r: Result<
    CompileResult,
    &'static str,
>)
    requires
        avx512_ok(arena@, root),
    ensures
        match avx512_kernel(arena@, root) {
            Ok(k) => r matches Ok(c) && c@ == k && c.max_regs == 6,
            Err(e) => r matches Err(f) && f == e,
        },
{
    try_compile_arena_dag_avx512(arena, root).into_result()
}

/// The expression can be compiled for AVX-512 after its transcendentals are expanded.
pub open spec fn wide_ok(m: ArenaModel, root: ExprId) -> bool {
    expands(m, root) && avx512_ok(expanded(m, root).0, expanded(m, root).1)
}

/// The AVX-512 kernel of an expression after its transcendentals are expanded.
pub open spec fn wide_kernel(m: ArenaModel, root: ExprId) -> Result<Kernel, &'static str> {
    avx512_kernel(expanded(m, root).0, expanded(m, root).1)
}

/// Compile an expression for a machine on which kernels are 512 bits wide, if it can
/// be compiled. Transcendentals are expanded first.
pub fn try_compile_arena_dag_wide(arena: &ExprArena, root: ExprId) -> (r: Outcome<CompileResult>)
    requires
        arena@.wf(),
        arena@.has(root),
    ensures
        delivers(r, outcome_of(wide_ok(arena@, root), wide_kernel(arena@, root)), 6),
{
    match try_expand_transcendentals_owned(arena, root) {
        Some((arena, root)) => try_compile_arena_dag_avx512(&arena, root),
        None => Outcome::Refused,
    }
}

/// Scanline code up to the loop: Y, Z and W moved up to their input registers,
/// and the pixel index set to zero.
pub open spec fn scan_entry() -> Seq<u8> {
    Seq::<u8>::empty().sse(0x28, Reg(3), Reg(2)).sse(0x28, Reg(2), Reg(1)).sse(
        0x28,
        Reg(1),
        Reg(0),
    ).byte(0x31).byte(0xC0)
}

/// Scanline code up to the entries: the loop test with its exit still open, and
/// X loaded.
pub open spec fn scan_test(code: Seq<u8>) -> Seq<u8> {
    code.byte(0x48).byte(0x39).byte(0xD0).byte(0x0F).byte(0x83).inst(0).at_rdi(0x28, Reg(0), 0)
}

/// Scanline code behind the entries: the result stored, pointers and index
/// advanced, and the jump back still open.
pub open spec fn scan_step(code: Seq<u8>, result: Reg) -> Seq<u8> {
    code.rex_if(result, Reg(0)).byte(0x0F).byte(0x29).byte(0x06u8 | ((result.0 & 7) << 3)).byte(
        0x48,
    ).byte(0x83).byte(0xC7).byte(0x10).byte(0x48).byte(0x83).byte(0xC6).byte(0x10).byte(0x48).byte(
        0xFF,
    ).byte(0xC0).byte(0xE9).inst(0)
}

/// A scanline kernel around a body: the exit leads behind the loop, the jump
/// back to its test.
pub open spec fn scanline_code(body: spec_fn(Seq<u8>) -> Seq<u8>, result: Reg) -> Seq<u8> {
    let top = scan_entry();
    let looped = scan_step(body(scan_test(top)), result);
    let code = looped.byte(0xC3);
    let code = rel32_patched(code, top.len() as int + 5, looped.len() as int);
    rel32_patched(code, looped.len() - 4, top.len() as int)
}

/// The jumps of a scanline kernel around a body that is appended: the exit, taken once
/// the pixel index reaches the count, leads to the return behind the loop, and the jump
/// before the return leads back to the test.
pub proof fn scanline_jumps_close_the_loop(body: spec_fn(Seq<u8>) -> Seq<u8>, result: Reg)
    requires
        scan_test(scan_entry()).is_prefix_of(body(scan_test(scan_entry()))),
        scanline_code(body, result).len() < 0x8000_0000,
    ensures
        ({
            let top = scan_entry().len() as int;
            let out = scanline_code(body, result);
            &&& out[top + 3] == 0x0F && out[top + 4] == 0x83
            &&& rel32_target(out, top + 5) == out.len() - 1
            &&& out[out.len() - 6] == 0xE9
            &&& rel32_target(out, out.len() - 5) == top
            &&& out[out.len() - 1] == 0xC3
        }),
{
    let start = scan_entry();
    let top = start.len() as int;
    let tested = scan_test(start);
    let inner = body(tested);
    let looped = scan_step(inner, result);
    let code = looped.byte(0xC3);
    let once = rel32_patched(code, top + 5, looped.len() as int);
    let out = rel32_patched(once, looped.len() - 4, top);
    let open = start.byte(0x48).byte(0x39).byte(0xD0).byte(0x0F).byte(0x83).inst(0);
    assert(open.len() == top + 9 && open[top + 3] == 0x0F && open[top + 4] == 0x83);
    assert(open.is_prefix_of(tested));
    let back = looped.take(looped.len() - 4);
    assert(looped == back.inst(0) && back.last() == 0xE9);
    assert(inner.len() + 15 <= back.len() && inner.is_prefix_of(looped));
    patched_rel32_leads_to_target(code, top + 5, looped.len() as int);
    patched_rel32_leads_to_target(once, looped.len() - 4, top);
    assert(out == scanline_code(body, result));
    assert(word_at(out, top + 5) == word_at(once, top + 5));
    assert(out[top + 3] == once[top + 3] && once[top + 3] == code[top + 3]);
    assert(out[top + 4] == once[top + 4] && once[top + 4] == code[top + 4]);
    assert(inner[top + 3] == tested[top + 3] && tested[top + 3] == open[top + 3]);
    assert(inner[top + 4] == tested[top + 4] && tested[top + 4] == open[top + 4]);
    assert(out[out.len() - 6] == once[out.len() - 6]);
    assert(once[out.len() - 6] == code[out.len() - 6]);
    assert(code[out.len() - 6] == back.last());
    assert(out[out.len() - 1] == once[out.len() - 1]);
    assert(once[out.len() - 1] == code[out.len() - 1]);
}

/// The SSE scanline kernel of an expression.
pub open spec fn sse_scanline(m: ArenaModel, root: ExprId) -> Result<Kernel, &'static str> {
    let e = expanded(m, root);
    let t = e.0.term((e.1).0 as int);
    if t.depth() > MAX_DEPTH {
        Err("expression too deep")
    } else {
        match tree_of(t, 0) {
            Outcome::Done((insts, result)) => Ok(
                Kernel {
                    code: scanline_code(|code: Seq<u8>| encoded_all(code, insts), result),
                    spill_count: 0,
                    spill_bytes: 0,
                },
            ),
            Outcome::Fail(e) => Err(e),
            Outcome::Refused => arbitrary(),
        }
    }
}

/// The expression can be compiled to a scanline kernel: its expansion fits an arena,
/// and is too deep, or every operation of it that is reached can be emitted.
pub open spec fn sse_scanline_ok(m: ArenaModel, root: ExprId) -> bool {
    let e = expanded(m, root);
    let t = e.0.term((e.1).0 as int);
    &&& expands(m, root)
    &&& t.depth() <= MAX_DEPTH ==> !(tree_of(t, 0) is Refused)
}

/// Emit the loop test and the load of X.
fn emit_scan_test(code: &mut Vec<u8>)
    ensures
        final(code)@ == scan_test(old(code)@),
        final(code)@.len() == old(code)@.len() + 12,
{
    code.push(0x48);
    code.push(0x39);
    code.push(0xD0);
    code.push(0x0F);
    code.push(0x83);
    emit32(code, 0);
    emit_movaps_load(code, Reg(0), 0);
}

/// Emit the store of the result and the loop step.
fn emit_scan_step(code: &mut Vec<u8>, result: Reg)
    ensures
        final(code)@ == scan_step(old(code)@, result),
        final(code)@.len() >= old(code)@.len() + 4,
{
    if result.0 >= 8 {
        code.push(0x44);
    }
    code.push(0x0F);
    code.push(0x29);
    code.push(0x06u8 | ((result.0 & 7) << 3));
    code.push(0x48);
    code.push(0x83);
    code.push(0xC7);
    code.push(0x10);
    code.push(0x48);
    code.push(0x83);
    code.push(0xC6);
    code.push(0x10);
    code.push(0x48);
    code.push(0xFF);
    code.push(0xC0);
    code.push(0xE9);
    emit32(code, 0);
}

/// Compile an expression into an SSE scanline kernel, if it can be compiled: see
/// [`compile_arena_dag_scanline`].
pub fn try_compile_arena_dag_scanline(arena: &ExprArena, root: ExprId) -> (r: Outcome<
    ScanlineCompileResult,
>)
    requires
        arena@.wf(),
        arena@.has(root),
    ensures
        delivers_scanline(
            r,
            outcome_of(sse_scanline_ok(arena@, root), sse_scanline(arena@, root)),
            22,
        ),
{
    let (arena, root) = match try_expand_transcendentals_owned(arena, root) {
        Some(x) => x,
        None => return Outcome::Refused,
    };
    if arena.depth(root) > MAX_DEPTH {
        return Outcome::Fail("expression too deep");
    }
    let mut code: Vec<u8> = Vec::new();
    emit_movaps(&mut code, Reg(3), Reg(2));
    emit_movaps(&mut code, Reg(2), Reg(1));
    emit_movaps(&mut code, Reg(1), Reg(0));
    code.push(0x31);
    code.push(0xC0);
    let loop_top: usize = code.len();
    assert(code@ == scan_entry());
    emit_scan_test(&mut code);
    let exit_at: usize = loop_top + 5;
    let ghost before = code@;
    let result: Reg = match emit_arena(&arena, root, 0, &mut code) {
        Outcome::Done(reg) => reg,
        Outcome::Fail(e) => return Outcome::Fail(e),
        Outcome::Refused => return Outcome::Refused,
    };
    emit_scan_step(&mut code, result);
    let loop_end: usize = code.len();
    code.push(0xC3);
    let ghost looped = scan_step(
        encoded_all(before, tree_of(arena@.term(root.0 as int), 0)->Done_0.0),
        result,
    );
    assert(code@ == looped.byte(0xC3));
    patch_rel32(&mut code, exit_at, loop_end);
    patch_rel32(&mut code, loop_end - 4, loop_top);
    Outcome::Done(
        ScanlineCompileResult {
            code,
            spill_count: 0,
            spill_bytes: 0,
            max_regs: EmitCtx::default().max_regs,
        },
    )
}

/// Compile an expression into an SSE scanline kernel. Transcendentals are expanded
/// first. Y, Z and W stay in their registers for the whole scanline; X is loaded for
/// each pixel batch.
pub fn compile_arena_dag_scanline(arena: &ExprArena, root: ExprId) -> (r: Result<
    ScanlineCompileResult,
    &'static str,
>)
    requires
        sse_scanline_ok(arena@, root),
    ensures
        match sse_scanline(arena@, root) {
            Ok(k) => r matches Ok(c) && c@ == k && c.max_regs == 22,
            Err(e) => r matches Err(f) && f == e,
        },
{
    try_compile_arena_dag_scanline(arena, root).into_result()
}

/// Compile a scanline kernel; the register budget of the context is not used.
pub fn compile_arena_dag_scanline_with_ctx(arena: &ExprArena, root: ExprId, _ctx: EmitCtx) -> (r:
    Result<ScanlineCompileResult, &'static str>)
    requires
        sse_scanline_ok(arena@, root),
    ensures
        match sse_scanline(arena@, root) {
            Ok(k) => r matches Ok(c) && c@ == k && c.max_regs == 22,
            Err(e) => r matches Err(f) && f == e,
        },
{
    compile_arena_dag_scanline(arena, root)
}

/// Compile a scanline kernel; nothing is hoisted, since no value can be kept
/// across the loop.
pub fn compile_arena_dag_scanline_hoisted(arena: &ExprArena, root: ExprId) -> (r: Result<
    ScanlineCompileResult,
    &'static str,
>)
    requires
        sse_scanline_ok(arena@, root),
    ensures
        match sse_scanline(arena@, root) {
            Ok(k) => r matches Ok(c) && c@ == k && c.max_regs == 22,
            Err(e) => r matches Err(f) && f == e,
        },
{
    compile_arena_dag_scanline(arena, root)
}

} // verus!
