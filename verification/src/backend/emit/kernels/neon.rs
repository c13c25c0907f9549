//! Kernels for NEON: one batch at a time, or a whole scanline in a loop.

use crate::arena::model::ArenaModel;
use crate::arena::{ExprArena, ExprId};
use crate::backend::emit::aarch64::scanline::{
    emit_scanline_epilogue, emit_scanline_prologue, gp_restored, gp_saved, inputs_kept,
    loop_closed, loop_in_reach, loop_opened, loop_reaches, ScanlinePrologue,
};
use crate::backend::emit::aarch64::disassembly::listing;
use crate::backend::emit::aarch64::{chunked, disassemble_code, emit_add_sp};
use crate::backend::emit::driver::{
    concluded, delivers, emit_entries, input_places, inputs_ok, job_of, kernel_of,
    kernel_safe, lemma_job_ok, place_inputs, place_values, registers_suffice, regs_ok, safe_walk,
    spills_of, start, try_compile_dag, walk, CompileResult, Kernel,
};
use crate::backend::emit::executable::{whole_pages, CodeBuffer};
use crate::backend::emit::isa::neon::{anchored, can_anchor, seeded, Aarch64Backend};
use crate::backend::emit::isa::{fetchable, IsaBackend};
use crate::backend::emit::kernels::hoisted::{
    compile_scanline_hoisted, hoisted_scanline, hoisted_scanline_ok,
};
use crate::backend::emit::lowering::{
    lowered_owned, lowers, try_expand_transcendentals_owned, Pass,
};
use crate::backend::emit::outcome::{outcome_of, Outcome};
use crate::backend::emit::plan::{lemma_slot_count, slots_of, EmitCtx, MAX_SLOTS};
use crate::backend::emit::regalloc::ValueId;
use crate::backend::emit::schedule::guards::{analyze_select_guards, SelectGuard};
use crate::backend::emit::schedule::hoisting::{
    arena_to_hoisted_schedule, chosen_by, count, crossers, default_choices,
    default_hoist_predicate, hoists, lemma_same_choice, lemma_two_phase_has_root, setup_nodes,
    two_phase,
};
use crate::backend::emit::schedule::{
    arena_to_schedule, arena_to_uses, dense, entry_ok, is_schedulable, schedulable, schedule_of,
    schedules_are_dense, try_schedule, ScheduledOp,
};
use crate::backend::emit::Reg;
use std::collections::BTreeMap;
use vstd::prelude::*;

verus! {

broadcast use vstd::std_specs::btree::group_btree_axioms;

/// Numbers of the registers kept free for spilled values.
pub const RELOAD_REGS: [u8; 2] = [26, 27];

/// Number of the register an operand is loaded into.
pub const RELOAD_REG: u8 = 27;

/// Most values that can be kept across the loop: the callee-saved vector
/// registers.
pub const MAX_PERSISTENT_SLOTS: usize = 8;

/// Compile result for a scanline kernel.
#[derive(Debug)]
pub struct ScanlineCompileResult {
    /// The machine code.
    pub code: Vec<u8>,
    /// Number of values kept on the stack.
    pub spill_count: u32,
    /// Stack bytes used for them.
    pub spill_bytes: u32,
    /// Register budget.
    pub max_regs: u8,
}

impl View for ScanlineCompileResult {
    type V = Kernel;

    open spec fn view(&self) -> Kernel {
        Kernel {
            code: self.code@,
            spill_count: self.spill_count as nat,
            spill_bytes: self.spill_bytes as nat,
        }
    }
}

/// The expression after its transcendentals are expanded.
pub open spec fn expanded(m: ArenaModel, root: ExprId) -> (ArenaModel, ExprId) {
    lowered_owned(Pass::Transcendentals, m, root)
}

/// The expression can be compiled: its expansion fits an arena, every node of it
/// can be scheduled and emitted, and the kernel's branches and constants are in
/// reach.
pub open spec fn expression_ok(m: ArenaModel, root: ExprId, regs: u8) -> bool {
    let e = expanded(m, root);
    let sched = schedule_of(e.0, e.1, true);
    &&& m.wf()
    &&& m.has(root)
    &&& lowers(Pass::Transcendentals, m, root)
    &&& schedulable(e.0, (e.1).0 as int, true)
    &&& sched.len() <= u32::MAX
    &&& kernel_safe::<Aarch64Backend>(sched, regs)
}

/// The kernel of an expression.
pub open spec fn kernel_at(m: ArenaModel, root: ExprId, regs: u8) -> Result<Kernel, &'static str> {
    let e = expanded(m, root);
    kernel_of::<Aarch64Backend>(schedule_of(e.0, e.1, true), regs)
}

/// Compile an expression with a register budget, if it can be compiled: see
/// [`compile_arena_dag_with_ctx`].
pub fn try_compile_arena_dag_with_ctx(arena: &ExprArena, root: ExprId, ctx: EmitCtx) -> (r: Outcome<
    CompileResult,
>)
    requires
        arena@.wf(),
        arena@.has(root),
    ensures
        delivers(
            r,
            outcome_of(
                expression_ok(arena@, root, ctx.max_regs),
                kernel_at(arena@, root, ctx.max_regs),
            ),
            ctx.max_regs,
        ),
{
    let (arena, root) = match try_expand_transcendentals_owned(arena, root) {
        Some(x) => x,
        None => return Outcome::Refused,
    };
    try_compile_plain(&arena, root, ctx, true)
}

/// Compile an expression as it is.
fn try_compile_plain(arena: &ExprArena, root: ExprId, ctx: EmitCtx, shifts: bool) -> (r: Outcome<
    CompileResult,
>)
    requires
        arena@.wf(),
        arena@.has(root),
    ensures
        ({
            let sched = schedule_of(arena@, root, shifts);
            delivers(
                r,
                outcome_of(
                    schedulable(arena@, root.0 as int, shifts) && sched.len() <= u32::MAX
                        && kernel_safe::<Aarch64Backend>(sched, ctx.max_regs),
                    kernel_of::<Aarch64Backend>(sched, ctx.max_regs),
                ),
                ctx.max_regs,
            )
        }),
{
    proof {
        schedules_are_dense(arena@, root, shifts);
    }
    let schedule = match try_schedule(arena, root, shifts) {
        Some(s) => s,
        None => return Outcome::Refused,
    };
    let uses_map = arena_to_uses(schedule.as_slice());
    let mut backend = Aarch64Backend::new(ctx.max_regs);
    try_compile_dag(schedule, uses_map, &mut backend)
}

/// Compile an expression with a register budget. Transcendentals are expanded
/// first.
pub fn compile_arena_dag_with_ctx(arena: &ExprArena, root: ExprId, ctx: EmitCtx) -> (r: Result<
    CompileResult,
    &'static str,
>)
    requires
        expression_ok(arena@, root, ctx.max_regs),
    ensures
        match kernel_at(arena@, root, ctx.max_regs) {
            Ok(k) => r matches Ok(c) && c@ == k && c.max_regs == ctx.max_regs,
            Err(e) => r matches Err(f) && f == e,
        },
{
    try_compile_arena_dag_with_ctx(arena, root, ctx).into_result()
}

/// Compile an expression with the default register budget.
pub fn compile_arena_dag(arena: &ExprArena, root: ExprId) -> (r: Result<
    CompileResult,
    &'static str,
>)
    requires
        expression_ok(arena@, root, 22),
    ensures
        match kernel_at(arena@, root, 22) {
            Ok(k) => r matches Ok(c) && c@ == k && c.max_regs == 22,
            Err(e) => r matches Err(f) && f == e,
        },
{
    compile_arena_dag_with_ctx(arena, root, EmitCtx::default())
}

/// Compile an expression to machine code.
pub fn compile_arena(arena: &ExprArena, root: ExprId) -> (r: Result<Vec<u8>, &'static str>)
    requires
        expression_ok(arena@, root, 22),
    ensures
        match kernel_at(arena@, root, 22) {
            Ok(k) => r matches Ok(c) && c@ == k.code,
            Err(e) => r matches Err(f) && f == e,
        },
{
    match compile_arena_dag(arena, root) {
        Ok(c) => Ok(c.code),
        Err(e) => Err(e),
    }
}

/// Compile an expression and list its instructions.
pub fn dump_jit_asm(arena: &ExprArena, root: ExprId) -> (r: Result<String, &'static str>)
    requires
        expression_ok(arena@, root, 22),
    ensures
        match kernel_at(arena@, root, 22) {
            Ok(k) => r matches Ok(s) && s@ == listing(k.code, k.code.len() / 4),
            Err(e) => r matches Err(f) && f == e,
        },
{
    match compile_arena_dag(arena, root) {
        Ok(c) => Ok(disassemble_code(c.code.as_slice())),
        Err(e) => Err(e),
    }
}

/// Scanline code up to its entries: registers saved, inputs kept, the zero-count
/// exit and the loop header.
#[verifier::opaque]
pub open spec fn scan_open() -> Seq<u8> {
    loop_opened(inputs_kept(gp_saved(Seq::empty(), 48)))
}

/// Where its zero-count exit is.
#[verifier::opaque]
pub open spec fn scan_exit() -> int {
    inputs_kept(gp_saved(Seq::empty(), 48)).len() as int
}

/// Scanline code behind the entries: the frame released, the result stored, the
/// loop closed and registers restored.
#[verifier::opaque]
pub open spec fn scan_tail(code: Seq<u8>, frame: u32, result: Reg) -> Seq<u8> {
    let code = chunked(code, 0x910003FF, frame);
    gp_restored(loop_closed(code, scan_exit(), scan_exit() + 4, result), 48)
}

/// The scanline kernel of a schedule: a loop that loads X, computes the entries
/// and stores the result.
pub open spec fn scanline_of(sched: Seq<(ValueId, ScheduledOp)>, regs: u8) -> Result<
    Kernel,
    &'static str,
> {
    let job = job_of(sched, input_places(sched), regs, 0);
    let spills = spills_of(sched, input_places(sched), regs);
    let frame = (16 * spills.len()) as u32;
    if spills.len() > MAX_SLOTS {
        Err("spill frame overflow: exceeds 2MB stack limit")
    } else {
        match seeded(sched) {
            Err(e) => Err(e),
            Ok(pool) => {
                let (code, anchor) = Aarch64Backend::entered(scan_open(), frame);
                match walk::<Aarch64Backend>(job, start(job, code, pool), 0, sched.len() as int) {
                    Err(e) => Err(e),
                    Ok(w) => {
                        let (code, result) = concluded::<Aarch64Backend>(job, w);
                        Ok(
                            Kernel {
                                code: anchored(scan_tail(code, frame, result), w.pool, anchor),
                                spill_count: slots_of(spills).len(),
                                spill_bytes: 16 * spills.len(),
                            },
                        )
                    },
                }
            },
        }
    }
}

/// The scanline kernel can be emitted: there are registers, the machine knows
/// the operations, and all branches and constants are in reach.
pub open spec fn scanline_safe(sched: Seq<(ValueId, ScheduledOp)>, regs: u8) -> bool {
    let job = job_of(sched, input_places(sched), regs, 0);
    let spills = spills_of(sched, input_places(sched), regs);
    let frame = (16 * spills.len()) as u32;
    &&& regs_ok(sched, input_places(sched), regs)
    &&& spills.len() <= MAX_SLOTS ==> (seeded(sched) matches Ok(pool) ==> {
        let (code, anchor) = Aarch64Backend::entered(scan_open(), frame);
        let w0 = start(job, code, pool);
        &&& safe_walk::<Aarch64Backend>(job, w0, 0, sched.len() as int)
        &&& walk::<Aarch64Backend>(job, w0, 0, sched.len() as int) matches Ok(w) ==> {
            let (code, result) = concluded::<Aarch64Backend>(job, w);
            &&& loop_reaches(
                chunked(code, 0x910003FF, frame).len() as int,
                scan_exit(),
                scan_exit() + 4,
            )
            &&& can_anchor(scan_tail(code, frame, result), w.pool, anchor)
        }
    })
}

/// Emit the opening of a scanline kernel.
fn emit_scan_open(code: &mut Vec<u8>) -> (p: ScanlinePrologue)
    requires
        old(code)@.len() == 0,
    ensures
        final(code)@ == scan_open(),
        p.early_exit_patch == scan_exit(),
        p.loop_header == scan_exit() + 4,
{
    proof {
        reveal(scan_open);
        reveal(scan_exit);
        assert(code@ =~= Seq::<u8>::empty());
    }
    emit_scanline_prologue(code)
}

/// Emit the end of a scanline kernel.
fn emit_scan_tail(
    code: &mut Vec<u8>,
    frame_size: u32,
    result_reg: Reg,
    prologue: &ScanlinePrologue,
) -> (done: bool)
    requires
        prologue.early_exit_patch == scan_exit(),
        prologue.loop_header == scan_exit() + 4,
    ensures
        done == loop_reaches(
            chunked(old(code)@, 0x910003FF, frame_size).len() as int,
            scan_exit(),
            scan_exit() + 4,
        ),
        done ==> final(code)@ == scan_tail(old(code)@, frame_size, result_reg),
{
    proof {
        reveal(scan_tail);
    }
    emit_add_sp(code, frame_size);
    if !loop_in_reach(code.len(), prologue.early_exit_patch, prologue.loop_header) {
        return false;
    }
    emit_scanline_epilogue(code, prologue, result_reg);
    true
}

/// The scanline kernel of a schedule computed in full for every pixel batch.
pub open spec fn flat_scanline(sched: Seq<(ValueId, ScheduledOp)>, regs: u8) -> Result<
    Kernel,
    &'static str,
> {
    if inputs_ok(sched) {
        scanline_of(sched, regs)
    } else {
        Err("variable index out of range")
    }
}

/// It can be compiled.
pub open spec fn flat_scanline_ok(sched: Seq<(ValueId, ScheduledOp)>, regs: u8) -> bool {
    &&& sched.len() <= u32::MAX
    &&& inputs_ok(sched) ==> scanline_safe(sched, regs)
}

/// The outcome is the kernel or error `k`, compiled with `regs` registers.
pub open spec fn delivers_scanline(
    r: Outcome<ScanlineCompileResult>,
    k: Outcome<Kernel>,
    regs: u8,
) -> bool {
    match k {
        Outcome::Done(k) => r matches Outcome::Done(c) && c@ == k && c.max_regs == regs,
        Outcome::Fail(e) => r matches Outcome::Fail(f) && f == e,
        Outcome::Refused => r is Refused,
    }
}

/// Compile a schedule to a scanline kernel.
fn compile_scanline_from_schedule(
    schedule: Vec<(ValueId, ScheduledOp)>,
    uses_map: Vec<Vec<ValueId>>,
    ctx: EmitCtx,
) -> (r: Outcome<ScanlineCompileResult>)
    requires
        dense(schedule@),
        0 < schedule@.len(),
    ensures
        delivers_scanline(
            r,
            outcome_of(
                flat_scanline_ok(schedule@, ctx.max_regs),
                flat_scanline(schedule@, ctx.max_regs),
            ),
            ctx.max_regs,
        ),
{
    if schedule.len() > u32::MAX as usize {
        return Outcome::Refused;
    }
    let precolored: BTreeMap<u32, Reg> = match place_inputs(&schedule) {
        Ok(m) => m,
        Err(e) => return Outcome::Fail(e),
    };
    let regs: u8 = ctx.max_regs;
    let ghost sched = schedule@;
    if !registers_suffice(&schedule, &precolored, regs) {
        return Outcome::Refused;
    }
    let (homes, frame_size) = match place_values(&schedule, &uses_map, &precolored, regs) {
        Ok(x) => x,
        Err(e) => return Outcome::Fail(e),
    };
    let guards: Vec<SelectGuard> = analyze_select_guards(schedule.as_slice());
    let ghost job = job_of(sched, precolored@, regs, 0);
    let ghost spills = spills_of(sched, precolored@, regs);
    let n: usize = schedule.len();
    proof {
        lemma_job_ok(sched, precolored@, regs, 0);
        lemma_slot_count(spills);
    }
    let mut backend = Aarch64Backend::new(regs);
    if let Err(e) = backend.begin(schedule.as_slice()) {
        return Outcome::Fail(e);
    }
    let mut code: Vec<u8> = Vec::new();
    let prologue = emit_scan_open(&mut code);
    backend.prologue(&mut code, frame_size);
    match emit_entries(
        &mut backend,
        &mut code,
        &schedule,
        &guards,
        &homes,
        0,
        0,
        n,
        Ghost(job),
    ) {
        Outcome::Done(()) => {},
        Outcome::Fail(e) => return Outcome::Fail(e),
        Outcome::Refused => return Outcome::Refused,
    }
    let root: ValueId = schedule[n - 1].0;
    proof {
        assert(entry_ok(sched[n - 1], n - 1));
        assert(fetchable::<Aarch64Backend>(job.at, root));
    }
    let tmp: Reg = Aarch64Backend::reload_regs()[1];
    let result_reg: Reg = homes.fetch(&backend, &mut code, root, tmp, Ghost(sched.len() as int));
    if !emit_scan_tail(&mut code, frame_size, result_reg, &prologue) {
        return Outcome::Refused;
    }
    if !backend.place_constants(&mut code) {
        return Outcome::Refused;
    }
    let spill_count: usize = homes.spill_count();
    Outcome::Done(
        ScanlineCompileResult {
            code,
            spill_count: spill_count as u32,
            spill_bytes: frame_size,
            max_regs: regs,
        },
    )
}

/// The schedule of an expression after its transcendentals are expanded.
pub open spec fn expanded_schedule(m: ArenaModel, root: ExprId) -> Seq<(ValueId, ScheduledOp)> {
    let e = expanded(m, root);
    schedule_of(e.0, e.1, true)
}

/// The expression can be compiled to a scanline kernel that computes it in full
/// for every pixel batch.
pub open spec fn flat_ok(m: ArenaModel, root: ExprId, regs: u8) -> bool {
    let e = expanded(m, root);
    &&& m.wf()
    &&& m.has(root)
    &&& lowers(Pass::Transcendentals, m, root)
    &&& schedulable(e.0, (e.1).0 as int, true)
    &&& flat_scanline_ok(expanded_schedule(m, root), regs)
}

/// Compile a scanline kernel with a register budget, if it can be compiled: see
/// [`compile_arena_dag_scanline_with_ctx`].
pub fn try_compile_arena_dag_scanline_with_ctx(
    arena: &ExprArena,
    root: ExprId,
    ctx: EmitCtx,
) -> (r: Outcome<ScanlineCompileResult>)
    requires
        arena@.wf(),
        arena@.has(root),
    ensures
        delivers_scanline(
            r,
            outcome_of(
                flat_ok(arena@, root, ctx.max_regs),
                flat_scanline(expanded_schedule(arena@, root), ctx.max_regs),
            ),
            ctx.max_regs,
        ),
{
    let (arena, root) = match try_expand_transcendentals_owned(arena, root) {
        Some(x) => x,
        None => return Outcome::Refused,
    };
    proof {
        schedules_are_dense(arena@, root, true);
    }
    if !is_schedulable(&arena, root, true) {
        return Outcome::Refused;
    }
    let schedule = arena_to_schedule(&arena, root);
    let uses_map = arena_to_uses(schedule.as_slice());
    compile_scanline_from_schedule(schedule, uses_map, ctx)
}

/// Compile a scanline kernel with a register budget, everything computed in full
/// for every pixel batch. Transcendentals are expanded first.
pub fn compile_arena_dag_scanline_with_ctx(arena: &ExprArena, root: ExprId, ctx: EmitCtx) -> (r:
    Result<ScanlineCompileResult, &'static str>)
    requires
        flat_ok(arena@, root, ctx.max_regs),
    ensures
        match flat_scanline(expanded_schedule(arena@, root), ctx.max_regs) {
            Ok(k) => r matches Ok(c) && c@ == k && c.max_regs == ctx.max_regs,
            Err(e) => r matches Err(f) && f == e,
        },
{
    try_compile_arena_dag_scanline_with_ctx(arena, root, ctx).into_result()
}

/// The two-phase schedule of an expression under the default predicate.
pub open spec fn default_two_phase(m: ArenaModel, root: ExprId) -> Seq<(ValueId, ScheduledOp)> {
    two_phase(m, root, default_choices(m))
}

/// Where its loop phase starts.
pub open spec fn default_split(m: ArenaModel, root: ExprId) -> int {
    count(setup_nodes(m, root.0 as int, default_choices(m)), m.nodes.len() as int) as int
}

/// The scanline kernel of an expression.
pub open spec fn scanline_at(m: ArenaModel, root: ExprId) -> Result<Kernel, &'static str> {
    let e = expanded(m, root);
    plain_scanline(e.0, e.1)
}

/// The expression can be compiled to a scanline kernel: its expansion fits an arena
/// and can be compiled.
pub open spec fn scanline_ok(m: ArenaModel, root: ExprId) -> bool {
    let e = expanded(m, root);
    &&& m.wf()
    &&& m.has(root)
    &&& lowers(Pass::Transcendentals, m, root)
    &&& plain_scanline_ok(e.0, e.1)
}

/// How the scanline kernel of an expression as it is is compiled: hoisted if the loop
/// reads something of the setup phase and that fits the callee-saved registers, else
/// flat.
pub open spec fn plain_scanline(m: ArenaModel, root: ExprId) -> Result<Kernel, &'static str> {
    let sched = default_two_phase(m, root);
    let split = default_split(m, root);
    let n = crossers(sched, split, split);
    if split == 0 || n == 0 {
        flat_scanline(sched, 22)
    } else if n > MAX_PERSISTENT_SLOTS {
        flat_scanline(schedule_of(m, root, true), 22)
    } else {
        hoisted_scanline(sched, split)
    }
}

/// It can be compiled.
pub open spec fn plain_scanline_ok(m: ArenaModel, root: ExprId) -> bool {
    let sched = default_two_phase(m, root);
    let split = default_split(m, root);
    let n = crossers(sched, split, split);
    &&& schedulable(m, root.0 as int, false)
    &&& if split == 0 || n == 0 {
        flat_scanline_ok(sched, 22)
    } else if n > MAX_PERSISTENT_SLOTS {
        schedulable(m, root.0 as int, true) && flat_scanline_ok(schedule_of(m, root, true), 22)
    } else {
        hoisted_scanline_ok(sched, split)
    }
}

/// Compile a scanline kernel, if it can be compiled: see
/// [`compile_arena_dag_scanline_hoisted`].
pub fn try_compile_arena_dag_scanline_hoisted(arena: &ExprArena, root: ExprId) -> (r: Outcome<
    ScanlineCompileResult,
>)
    requires
        arena@.wf(),
        arena@.has(root),
    ensures
        delivers_scanline(r, outcome_of(scanline_ok(arena@, root), scanline_at(arena@, root)), 22),
{
    let (arena, root) = match try_expand_transcendentals_owned(arena, root) {
        Some(x) => x,
        None => return Outcome::Refused,
    };
    let ghost m = arena@;
    if !is_schedulable(&arena, root, false) {
        return Outcome::Refused;
    }
    let hoisted = arena_to_hoisted_schedule(&arena, root, default_hoist_predicate);
    proof {
        let choice = choose|choice: Seq<bool>| #[trigger]
            hoists(m, root, choice, hoisted) && chosen_by(
                m,
                root,
                default_hoist_predicate,
                choice,
            );
        lemma_same_choice(m, root, choice, default_choices(m));
        assert(hoisted.schedule@ == default_two_phase(m, root));
        assert(hoisted.split == default_split(m, root));
        schedules_are_dense(m, root, true);
        lemma_two_phase_has_root(m, root, default_choices(m));
    }
    if hoisted.split == 0 || hoisted.num_hoisted == 0 {
        let uses_map = arena_to_uses(hoisted.schedule.as_slice());
        return compile_scanline_from_schedule(hoisted.schedule, uses_map, EmitCtx::default());
    }
    if hoisted.num_hoisted > MAX_PERSISTENT_SLOTS {
        if !is_schedulable(&arena, root, true) {
            return Outcome::Refused;
        }
        let flat_schedule = arena_to_schedule(&arena, root);
        let uses_map = arena_to_uses(flat_schedule.as_slice());
        return compile_scanline_from_schedule(flat_schedule, uses_map, EmitCtx::default());
    }
    compile_scanline_hoisted(hoisted)
}

/// Compile a scanline kernel, with what does not depend on X in a setup phase of
/// its own where callee-saved registers can hold what the loop reads of it.
/// Transcendentals are expanded first.
pub fn compile_arena_dag_scanline_hoisted(arena: &ExprArena, root: ExprId) -> (r: Result<
    ScanlineCompileResult,
    &'static str,
>)
    requires
        scanline_ok(arena@, root),
    ensures
        match scanline_at(arena@, root) {
            Ok(k) => r matches Ok(c) && c@ == k && c.max_regs == 22,
            Err(e) => r matches Err(f) && f == e,
        },
{
    try_compile_arena_dag_scanline_hoisted(arena, root).into_result()
}

/// Compile a scanline kernel: one call processes a whole row of pixels.
pub fn compile_arena_dag_scanline(arena: &ExprArena, root: ExprId) -> (r: Result<
    ScanlineCompileResult,
    &'static str,
>)
    requires
        scanline_ok(arena@, root),
    ensures
        match scanline_at(arena@, root) {
            Ok(k) => r matches Ok(c) && c@ == k && c.max_regs == 22,
            Err(e) => r matches Err(f) && f == e,
        },
{
    compile_arena_dag_scanline_hoisted(arena, root)
}

/// The expression can be compiled as it is, without expansion.
pub open spec fn plain_ok(m: ArenaModel, root: ExprId, regs: u8) -> bool {
    let sched = schedule_of(m, root, false);
    &&& m.wf()
    &&& m.has(root)
    &&& schedulable(m, root.0 as int, false)
    &&& sched.len() <= u32::MAX
    &&& kernel_safe::<Aarch64Backend>(sched, regs)
}

/// Workspace for repeated compilation: a reusable code buffer and a register
/// budget.
#[derive(Debug)]
pub struct CompileWorkspace {
    code_buf: CodeBuffer,
    ctx: EmitCtx,
}

impl CompileWorkspace {
    /// The code of the last kernel.
    pub closed spec fn bytes(&self) -> Seq<u8> {
        self.code_buf.bytes()
    }

    /// How much code the buffer can hold.
    pub closed spec fn room(&self) -> int {
        self.code_buf.room()
    }

    /// The register budget.
    pub closed spec fn budget(&self) -> u8 {
        self.ctx.max_regs
    }

    /// The buffer holds no more than it can.
    pub open spec fn wf(&self) -> bool {
        self.bytes().len() <= self.room()
    }

    /// A workspace with a code buffer of at least `code_capacity` bytes, in whole
    /// pages.
    pub fn new(code_capacity: usize, page_size: usize) -> (r: Result<
        CompileWorkspace,
        &'static str,
    >)
        requires
            0 < page_size,
            code_capacity + page_size - 1 <= usize::MAX,
        ensures
            match r {
                Ok(w) => {
                    &&& code_capacity > 0
                    &&& w.wf()
                    &&& w.bytes() == Seq::<u8>::empty()
                    &&& w.room() == whole_pages(code_capacity as int, page_size as int)
                    &&& w.budget() == 22
                },
                Err(e) => code_capacity == 0 && e == "CodeBuffer capacity must be > 0",
            },
    {
        match CodeBuffer::new(code_capacity, page_size) {
            Ok(code_buf) => Ok(CompileWorkspace { code_buf, ctx: EmitCtx::default() }),
            Err(e) => Err(e),
        }
    }

    /// Set the register budget of the compilations to come.
    pub fn set_max_regs(&mut self, max_regs: u8)
        ensures
            final(self).budget() == max_regs,
            final(self).bytes() == old(self).bytes(),
            final(self).room() == old(self).room(),
    {
        self.ctx.max_regs = max_regs;
    }

    /// What compiling an expression into the buffer leaves.
    pub open spec fn compiled(
        before: CompileWorkspace,
        after: CompileWorkspace,
        m: ArenaModel,
        root: ExprId,
        r: Result<(), &'static str>,
    ) -> bool {
        match kernel_of::<Aarch64Backend>(schedule_of(m, root, false), before.budget()) {
            Ok(k) => if k.code.len() == 0 {
                r == Err::<(), &'static str>("CodeBuffer: empty code") && after.bytes()
                    == before.bytes()
            } else if k.code.len() > before.room() {
                r == Err::<(), &'static str>("CodeBuffer: code exceeds buffer capacity")
                    && after.bytes() == before.bytes()
            } else {
                r is Ok && after.bytes() == k.code
            },
            Err(e) => r == Err::<(), &'static str>(e) && after.bytes() == before.bytes(),
        }
    }

    /// Compile an expression into the buffer, if it can be compiled: see
    /// [`CompileWorkspace::compile_arena`]. Else the buffer is left as it is.
    pub fn try_compile_arena(&mut self, arena: &ExprArena, root: ExprId) -> (r: Outcome<()>)
        requires
            old(self).wf(),
            arena@.wf(),
            arena@.has(root),
        ensures
            final(self).wf(),
            final(self).room() == old(self).room(),
            final(self).budget() == old(self).budget(),
            r is Refused <==> !plain_ok(arena@, root, old(self).budget()),
            match r {
                Outcome::Done(x) => CompileWorkspace::compiled(
                    *old(self),
                    *final(self),
                    arena@,
                    root,
                    Ok(x),
                ),
                Outcome::Fail(e) => CompileWorkspace::compiled(
                    *old(self),
                    *final(self),
                    arena@,
                    root,
                    Err(e),
                ),
                Outcome::Refused => final(self).bytes() == old(self).bytes(),
            },
    {
        let ctx = EmitCtx::with_max_regs(self.ctx.max_regs);
        match try_compile_plain(arena, root, ctx, false) {
            Outcome::Done(c) => match self.code_buf.write_code(c.code.as_slice()) {
                Ok(()) => Outcome::Done(()),
                Err(e) => Outcome::Fail(e),
            },
            Outcome::Fail(e) => Outcome::Fail(e),
            Outcome::Refused => Outcome::Refused,
        }
    }

    /// Compile an expression into the buffer. What was in it is overwritten.
    pub fn compile_arena(&mut self, arena: &ExprArena, root: ExprId) -> (r: Result<
        (),
        &'static str,
    >)
        requires
            old(self).wf(),
            plain_ok(arena@, root, old(self).budget()),
        ensures
            final(self).wf(),
            final(self).room() == old(self).room(),
            final(self).budget() == old(self).budget(),
            CompileWorkspace::compiled(*old(self), *final(self), arena@, root, r),
    {
        self.try_compile_arena(arena, root).into_result()
    }

    /// The code of the last kernel.
    pub fn code(&self) -> (b: &[u8])
        ensures
            b@ == self.bytes(),
    {
        self.code_buf.as_bytes()
    }
}

} // verus!
