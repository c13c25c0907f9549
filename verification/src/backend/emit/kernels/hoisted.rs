//! Scanline kernels with a setup block: what does not depend on X is computed
//! once, before the pixel loop, and kept in callee-saved vector registers.

use crate::backend::emit::aarch64::scanline::{
    emit_scanline_epilogue_hoisted, emit_scanline_loop_hoisted, emit_scanline_prologue_hoisted,
    gp_saved, inputs_kept, inputs_placed, loop_in_reach, loop_opened, loop_reaches, neon_saved,
    scanline_end, HoistedScanlinePrologue,
};
use crate::backend::emit::aarch64::{chunked, emit_add_sp, emit_sub_sp};
use crate::backend::emit::driver::{
    arm_of, arms_end_before, compilable, concluded, emit_entries, guard_fits, input_places,
    inputs_ok, job_of, job_ok, lemma_guards_fit, lemma_job_ok, place_inputs, place_values,
    places_of, rotated, safe_walk, spills_of, start, walk, Job, Kernel, Walk,
};
use crate::backend::emit::isa::neon::{anchored, can_anchor, seeded, Aarch64Backend};
use crate::backend::emit::isa::{fetchable, IsaBackend};
use crate::backend::emit::kernels::neon::{
    delivers_scanline, ScanlineCompileResult, MAX_PERSISTENT_SLOTS,
};
use crate::backend::emit::outcome::{outcome_of, Outcome};
use crate::backend::emit::plan::{lemma_slot_count, slots_of, EmitCtx, Places, MAX_SLOTS};
use crate::backend::emit::regalloc::ValueId;
use crate::backend::emit::schedule::guards::{analyze_select_guards, guards_of, SelectGuard};
use crate::backend::emit::schedule::hoisting::{
    crosses, crossers, crossing_table, HoistedSchedule,
};
use crate::backend::emit::schedule::{arena_to_uses, dense, entry_ok, ScheduledOp};
use crate::backend::emit::Reg;
use std::collections::BTreeMap;
use vstd::prelude::*;

verus! {

broadcast use vstd::std_specs::btree::group_btree_axioms;

/// Number of the first callee-saved vector register.
pub const PERSISTENT_BASE: u8 = 8;

/// Number of the first vector register behind those that values are put in.
pub const SCRATCH_END: u8 = 26;

/// The loop reads value `v` of the setup phase from a register of its own.
/// Variables have their input registers, which the loop header fills again.
pub open spec fn persists(sched: Seq<(ValueId, ScheduledOp)>, split: int, v: int) -> bool {
    0 <= v < split && crosses(sched, split, v) && !(sched[v].1 is Var)
}

/// Where the values of a two-phase schedule are placed in advance: variables in
/// their input registers, other values of the setup phase that the loop reads in
/// the last of the registers from V4 to V25.
pub open spec fn hoisted_places(sched: Seq<(ValueId, ScheduledOp)>, split: int) -> Map<u32, Reg> {
    Map::new(
        |v: u32| input_places(sched).contains_key(v) || persists(sched, split, v as int),
        |v: u32|
            if persists(sched, split, v as int) {
                Reg(
                    (SCRATCH_END - crossers(sched, split, split) + crossers(
                        sched,
                        split,
                        v as int,
                    )) as u8,
                )
            } else {
                input_places(sched)[v]
            },
    )
}

/// The registers values are put in: of the 22 from V4 on, those that are not kept
/// for the loop.
pub open spec fn spare_regs(sched: Seq<(ValueId, ScheduledOp)>, split: int) -> u8 {
    (22 - crossers(sched, split, split)) as u8
}

/// Where the values of a two-phase schedule live. The registers kept for the loop
/// are not given out, not even behind the last read: the next pixel reads them
/// again. They become those from V8 on, which a kernel saves for its caller.
pub open spec fn hoisted_homes(sched: Seq<(ValueId, ScheduledOp)>, split: int) -> Places {
    rotated(
        places_of(sched, hoisted_places(sched, split), spare_regs(sched, split)),
        PERSISTENT_BASE,
        crossers(sched, split, split) as u8,
        SCRATCH_END,
        sched.len() as int,
    )
}

/// What an arm of a `Select` at entry `select` skips: nothing of the setup block if
/// the `Select` is in the loop.
pub open spec fn arm_in_phase(r: (usize, usize), select: int, split: int) -> (usize, usize) {
    if select >= split && r.0 < split {
        (0, 0)
    } else {
        r
    }
}

/// A guard of a two-phase schedule.
pub open spec fn phase_guard(g: SelectGuard, split: int) -> SelectGuard {
    SelectGuard {
        select_idx: g.select_idx,
        mask_vid: g.mask_vid,
        true_range: arm_in_phase(g.true_range, g.select_idx as int, split),
        false_range: arm_in_phase(g.false_range, g.select_idx as int, split),
    }
}

/// The guards of a two-phase schedule. The setup block is computed in full whatever
/// the masks of the loop are.
pub open spec fn phase_guards(sched: Seq<(ValueId, ScheduledOp)>, split: int) -> Seq<SelectGuard> {
    Seq::new(guards_of(sched).len(), |g: int| phase_guard(guards_of(sched)[g], split))
}

/// What is to be emitted for a two-phase schedule.
pub open spec fn hoisted_job(sched: Seq<(ValueId, ScheduledOp)>, split: int) -> Job {
    Job {
        sched,
        guards: phase_guards(sched, split),
        at: hoisted_homes(sched, split),
        short_from: split,
    }
}

/// Code up to the setup block: registers saved, of the vector registers V8 to
/// V(7+n), inputs kept, and Y, Z and W in place.
#[verifier::opaque]
pub open spec fn setup_open(n: int) -> Seq<u8> {
    inputs_placed(inputs_kept(neon_saved(gp_saved(Seq::empty(), 48 + 16 * n), n)))
}

/// Where the zero-count exit is, behind a setup block that ends with `code`.
pub open spec fn exit_behind(code: Seq<u8>, frame: u32) -> int {
    chunked(code, 0x910003FF, frame).len() as int
}

/// Code between the setup block and the loop body: the frame released, the
/// zero-count exit, the loop header and the frame of the body.
#[verifier::opaque]
pub open spec fn loop_entered(code: Seq<u8>, frame: u32) -> Seq<u8> {
    chunked(loop_opened(chunked(code, 0x910003FF, frame)), 0xD10003FF, frame)
}

/// Code behind the loop body: the frame released, the result stored, the loop
/// closed and registers restored.
#[verifier::opaque]
pub open spec fn hoisted_tail(
    code: Seq<u8>,
    exit: int,
    frame: u32,
    result: Reg,
    n: int,
) -> Seq<u8> {
    let code = chunked(code, 0x910003FF, frame);
    scanline_end(code, exit, exit + 4, result, n)
}

/// The two phases of a kernel: the state after the setup block, and after the body
/// of the loop behind it.
pub open spec fn both_phases(job: Job, split: int, frame: u32, w0: Walk) -> Result<
    (Walk, Walk),
    &'static str,
> {
    match walk::<Aarch64Backend>(job, w0, 0, split) {
        Err(e) => Err(e),
        Ok(setup) => match walk::<Aarch64Backend>(
            job,
            start(job, loop_entered(setup.code, frame), setup.pool),
            split,
            job.sched.len() as int,
        ) {
            Err(e) => Err(e),
            Ok(body) => Ok((setup, body)),
        },
    }
}

/// The entries of both phases can be emitted.
pub open spec fn safe_phases(job: Job, split: int, frame: u32, w0: Walk) -> bool {
    &&& safe_walk::<Aarch64Backend>(job, w0, 0, split)
    &&& walk::<Aarch64Backend>(job, w0, 0, split) matches Ok(setup) ==> safe_walk::<Aarch64Backend>(
        job,
        start(job, loop_entered(setup.code, frame), setup.pool),
        split,
        job.sched.len() as int,
    )
}

/// The scanline kernel of a two-phase schedule: prologue, setup block, zero-count
/// exit, loop header, loop body, epilogue, constants.
pub open spec fn hoisted_scanline(sched: Seq<(ValueId, ScheduledOp)>, split: int) -> Result<
    Kernel,
    &'static str,
> {
    let n = crossers(sched, split, split) as int;
    let job = hoisted_job(sched, split);
    let spills = spills_of(sched, hoisted_places(sched, split), spare_regs(sched, split));
    let frame = (16 * spills.len()) as u32;
    if !inputs_ok(sched) {
        Err("variable index out of range")
    } else if spills.len() > MAX_SLOTS {
        Err("spill frame overflow: exceeds 2MB stack limit")
    } else {
        match seeded(sched) {
            Err(e) => Err(e),
            Ok(pool) => {
                let (code, anchor) = Aarch64Backend::entered(setup_open(n), frame);
                match both_phases(job, split, frame, start(job, code, pool)) {
                    Err(e) => Err(e),
                    Ok((setup, body)) => {
                        let (code, result) = concluded::<Aarch64Backend>(job, body);
                        let exit = exit_behind(setup.code, frame);
                        Ok(
                            Kernel {
                                code: anchored(
                                    hoisted_tail(code, exit, frame, result, n),
                                    body.pool,
                                    anchor,
                                ),
                                spill_count: slots_of(spills).len(),
                                spill_bytes: 16 * spills.len(),
                            },
                        )
                    },
                }
            },
        }
    }
}

/// It can be compiled: the machine knows the operations, and all branches and
/// constants are in reach.
pub open spec fn hoisted_scanline_ok(sched: Seq<(ValueId, ScheduledOp)>, split: int) -> bool {
    let n = crossers(sched, split, split) as int;
    let job = hoisted_job(sched, split);
    let spills = spills_of(sched, hoisted_places(sched, split), spare_regs(sched, split));
    let frame = (16 * spills.len()) as u32;
    &&& sched.len() <= u32::MAX
    &&& inputs_ok(sched) && spills.len() <= MAX_SLOTS ==> (seeded(sched) matches Ok(pool) ==> {
        let (code, anchor) = Aarch64Backend::entered(setup_open(n), frame);
        let w0 = start(job, code, pool);
        &&& safe_phases(job, split, frame, w0)
        &&& both_phases(job, split, frame, w0) matches Ok((setup, body)) ==> {
            let (code, result) = concluded::<Aarch64Backend>(job, body);
            let exit = exit_behind(setup.code, frame);
            &&& loop_reaches(chunked(code, 0x910003FF, frame).len() as int, exit, exit + 4)
            &&& can_anchor(hoisted_tail(code, exit, frame, result, n), body.pool, anchor)
        }
    })
}

pub(crate) proof fn lemma_crossers_grow(
    sched: Seq<(ValueId, ScheduledOp)>,
    split: int,
    i: int,
    j: int,
)
    requires
        0 <= i <= j,
    ensures
        crossers(sched, split, i) <= crossers(sched, split, j),
        i < j && crosses(sched, split, i) ==> crossers(sched, split, i) < crossers(
            sched,
            split,
            j,
        ),
    decreases j,
{
    if i < j {
        lemma_crossers_grow(sched, split, i, j - 1);
    }
}

/// The guards of both phases fit the schedule, and no branch leads from the setup
/// block into the loop.
proof fn lemma_phase_guards(sched: Seq<(ValueId, ScheduledOp)>, split: int)
    requires
        compilable(sched),
        sched.len() <= usize::MAX,
        0 <= split <= sched.len(),
    ensures
        forall|g: int|
            0 <= g < phase_guards(sched, split).len() ==> guard_fits(
                sched.len() as int,
                #[trigger] phase_guards(sched, split)[g],
            ),
        arms_end_before(phase_guards(sched, split), split),
        arms_end_before(phase_guards(sched, split), sched.len() as int),
{
    let guards = phase_guards(sched, split);
    lemma_guards_fit(sched);
    assert forall|g: int| 0 <= g < guards.len() implies guard_fits(
        sched.len() as int,
        #[trigger] guards[g],
    ) by {
        assert(guard_fits(sched.len() as int, guards_of(sched)[g]));
    }
    assert forall|p: int| 0 <= p < 2 * guards.len() implies {
        let r = #[trigger] arm_of(guards[p / 2], p % 2);
        r.0 < split && r.0 != r.1 ==> r.1 < split
    } by {
        assert(guard_fits(sched.len() as int, guards[p / 2]));
        assert(guards[p / 2] == phase_guard(guards_of(sched)[p / 2], split));
    }
    assert forall|p: int| 0 <= p < 2 * guards.len() implies {
        let r = #[trigger] arm_of(guards[p / 2], p % 2);
        r.0 < sched.len() && r.0 != r.1 ==> r.1 < sched.len()
    } by {
        assert(guard_fits(sched.len() as int, guards[p / 2]));
    }
}

/// What is to be emitted for a two-phase schedule is put together right.
proof fn lemma_hoisted_job(sched: Seq<(ValueId, ScheduledOp)>, split: int)
    requires
        compilable(sched),
        sched.len() <= usize::MAX,
        0 <= split <= sched.len(),
        crossers(sched, split, split) <= 8,
        spills_of(sched, hoisted_places(sched, split), spare_regs(sched, split)).len()
            <= MAX_SLOTS,
    ensures
        job_ok(hoisted_job(sched, split)),
{
    let pre = hoisted_places(sched, split);
    let regs = spare_regs(sched, split);
    let job = hoisted_job(sched, split);
    lemma_job_ok(sched, pre, regs, split);
    lemma_phase_guards(sched, split);
    let flat = job_of(sched, pre, regs, split);
    assert forall|v: ValueId| v.0 < job.sched.len() implies #[trigger] job.at.holds(v) by {
        assert(flat.at.holds(v));
    }
    assert(job.at.slots == flat.at.slots);
}

/// The guards of a two-phase schedule.
fn split_guards(schedule: &Vec<(ValueId, ScheduledOp)>, split: usize) -> (r: Vec<SelectGuard>)
    requires
        dense(schedule@),
        schedule@.len() <= u32::MAX,
    ensures
        r@ == phase_guards(schedule@, split as int),
{
    let guards: Vec<SelectGuard> = analyze_select_guards(schedule.as_slice());
    let mut r: Vec<SelectGuard> = Vec::new();
    let mut g: usize = 0;
    while g < guards.len()
        invariant
            g <= guards@.len(),
            guards@ == guards_of(schedule@),
            r@.len() == g,
            forall|k: int| 0 <= k < g ==> #[trigger] r@[k] == phase_guard(guards@[k], split as int),
        decreases guards@.len() - g,
    {
        let guard: SelectGuard = guards[g];
        let looped: bool = guard.select_idx >= split;
        let true_range: (usize, usize) = if looped && guard.true_range.0 < split {
            (0, 0)
        } else {
            guard.true_range
        };
        let false_range: (usize, usize) = if looped && guard.false_range.0 < split {
            (0, 0)
        } else {
            guard.false_range
        };
        r.push(
            SelectGuard {
                select_idx: guard.select_idx,
                mask_vid: guard.mask_vid,
                true_range,
                false_range,
            },
        );
        g += 1;
    }
    assert(r@ =~= phase_guards(schedule@, split as int));
    r
}

/// Place the variables, and the values of the setup phase that the loop reads.
fn place_crossers(schedule: &Vec<(ValueId, ScheduledOp)>, split: usize, num_hoisted: u8) -> (r:
    Result<BTreeMap<u32, Reg>, &'static str>)
    requires
        dense(schedule@),
        split <= schedule@.len() <= u32::MAX,
        crossers(schedule@, split as int, split as int) == num_hoisted <= 8,
    ensures
        match r {
            Ok(m) => inputs_ok(schedule@) && m@ == hoisted_places(schedule@, split as int),
            Err(e) => !inputs_ok(schedule@) && e == "variable index out of range",
        },
{
    let ghost sched = schedule@;
    let mut precolored: BTreeMap<u32, Reg> = match place_inputs(schedule) {
        Ok(m) => m,
        Err(e) => return Err(e),
    };
    let crossing: Vec<bool> = crossing_table(schedule, split);
    let first: u8 = SCRATCH_END - num_hoisted;
    let mut slot: u8 = 0;
    let mut v: usize = 0;
    while v < split
        invariant
            v <= split <= sched.len() <= u32::MAX,
            sched == schedule@,
            crossing@.len() == split,
            forall|k: int|
                0 <= k < split ==> (#[trigger] crossing@[k] <==> crosses(sched, split as int, k)),
            crossers(sched, split as int, split as int) <= 8,
            slot == crossers(sched, split as int, v as int),
            first == SCRATCH_END - crossers(sched, split as int, split as int),
            forall|k: u32| #[trigger]
                precolored@.contains_key(k) <==> (input_places(sched).contains_key(k) || (k < v
                    && persists(sched, split as int, k as int))),
            forall|k: u32| #[trigger]
                precolored@.contains_key(k) ==> precolored@[k] == if k < v && persists(
                    sched,
                    split as int,
                    k as int,
                ) {
                    Reg(
                        (SCRATCH_END - crossers(sched, split as int, split as int) + crossers(
                            sched,
                            split as int,
                            k as int,
                        )) as u8,
                    )
                } else {
                    input_places(sched)[k]
                },
        decreases split - v,
    {
        proof {
            lemma_crossers_grow(sched, split as int, v as int, split as int);
            assert(crossing@[v as int] <==> crosses(sched, split as int, v as int));
        }
        if crossing[v] {
            let is_input: bool = matches!(schedule[v].1, ScheduledOp::Var(_));
            if !is_input {
                precolored.insert(v as u32, Reg(first + slot));
            }
            slot = slot + 1;
        }
        v += 1;
    }
    assert(precolored@ =~= hoisted_places(sched, split as int));
    Ok(precolored)
}

/// Emit the opening of a kernel with a setup block.
fn emit_setup_open(code: &mut Vec<u8>, num_hoisted: u8) -> (p: HoistedScanlinePrologue)
    requires
        num_hoisted <= 8,
        old(code)@.len() == 0,
    ensures
        final(code)@ == setup_open(num_hoisted as int),
        p.wf(),
        p.num_hoisted == num_hoisted,
{
    proof {
        reveal(setup_open);
        assert(code@ =~= Seq::<u8>::empty());
    }
    emit_scanline_prologue_hoisted(code, num_hoisted)
}

/// Emit what lies between the setup block and the loop body.
fn emit_loop_entry(
    code: &mut Vec<u8>,
    frame_size: u32,
    prologue: HoistedScanlinePrologue,
) -> (p: HoistedScanlinePrologue)
    requires
        prologue.wf(),
    ensures
        final(code)@ == loop_entered(old(code)@, frame_size),
        p.wf(),
        p.num_hoisted == prologue.num_hoisted,
        p.early_exit_patch == exit_behind(old(code)@, frame_size),
        p.loop_header == p.early_exit_patch + 4,
{
    proof {
        reveal(loop_entered);
    }
    emit_add_sp(code, frame_size);
    let p = emit_scanline_loop_hoisted(code, prologue);
    emit_sub_sp(code, frame_size);
    p
}

/// Emit the end of a kernel with a setup block.
fn emit_hoisted_tail(
    code: &mut Vec<u8>,
    frame_size: u32,
    result_reg: Reg,
    prologue: &HoistedScanlinePrologue,
) -> (done: bool)
    requires
        prologue.wf(),
        prologue.loop_header == prologue.early_exit_patch + 4,
    ensures
        done == loop_reaches(
            chunked(old(code)@, 0x910003FF, frame_size).len() as int,
            prologue.early_exit_patch as int,
            prologue.early_exit_patch + 4,
        ),
        done ==> final(code)@ == hoisted_tail(
            old(code)@,
            prologue.early_exit_patch as int,
            frame_size,
            result_reg,
            prologue.num_hoisted as int,
        ),
{
    proof {
        reveal(hoisted_tail);
    }
    emit_add_sp(code, frame_size);
    if !loop_in_reach(code.len(), prologue.early_exit_patch, prologue.loop_header) {
        return false;
    }
    emit_scanline_epilogue_hoisted(code, prologue, result_reg);
    true
}

/// Compile a two-phase schedule: the setup entries once, before the loop, with the
/// values that the loop reads kept in callee-saved registers.
pub(crate) fn compile_scanline_hoisted(hoisted: HoistedSchedule) -> (r: Outcome<
    ScanlineCompileResult,
>)
    requires
        hoisted.split <= hoisted.schedule@.len(),
        hoisted.num_hoisted == crossers(
            hoisted.schedule@,
            hoisted.split as int,
            hoisted.split as int,
        ),
        hoisted.num_hoisted <= MAX_PERSISTENT_SLOTS,
        dense(hoisted.schedule@),
        0 < hoisted.schedule@.len(),
    ensures
        delivers_scanline(
            r,
            outcome_of(
                hoisted_scanline_ok(hoisted.schedule@, hoisted.split as int),
                hoisted_scanline(hoisted.schedule@, hoisted.split as int),
            ),
            22,
        ),
{
    let schedule: Vec<(ValueId, ScheduledOp)> = hoisted.schedule;
    if schedule.len() > u32::MAX as usize {
        return Outcome::Refused;
    }
    let split: usize = hoisted.split;
    let num_hoisted: u8 = hoisted.num_hoisted as u8;
    let ghost sched = schedule@;
    let precolored: BTreeMap<u32, Reg> = match place_crossers(&schedule, split, num_hoisted) {
        Ok(m) => m,
        Err(e) => return Outcome::Fail(e),
    };
    let ctx = EmitCtx::default();
    let regs: u8 = ctx.max_regs - num_hoisted;
    assert(regs == spare_regs(sched, split as int));
    let uses_map = arena_to_uses(schedule.as_slice());
    let (mut homes, frame_size) = match place_values(&schedule, &uses_map, &precolored, regs) {
        Ok(x) => x,
        Err(e) => return Outcome::Fail(e),
    };
    let n: usize = schedule.len();
    homes.rotate(PERSISTENT_BASE, num_hoisted, SCRATCH_END, n as u32);
    let guards: Vec<SelectGuard> = split_guards(&schedule, split);
    let ghost job = hoisted_job(sched, split as int);
    let ghost spills = spills_of(sched, precolored@, regs);
    proof {
        lemma_hoisted_job(sched, split as int);
        lemma_phase_guards(sched, split as int);
        lemma_slot_count(spills);
        assert(homes.places() == job.at);
    }
    let mut backend = Aarch64Backend::new(regs);
    if let Err(e) = backend.begin(schedule.as_slice()) {
        return Outcome::Fail(e);
    }
    let mut code: Vec<u8> = Vec::new();
    let prologue = emit_setup_open(&mut code, num_hoisted);
    backend.prologue(&mut code, frame_size);
    let ghost w0 = start(job, code@, backend.pool());
    match emit_entries(
        &mut backend,
        &mut code,
        &schedule,
        &guards,
        &homes,
        split,
        0,
        split,
        Ghost(job),
    ) {
        Outcome::Done(()) => {},
        Outcome::Fail(e) => {
            assert(both_phases(job, split as int, frame_size, w0) == Err::<
                (Walk, Walk),
                &'static str,
            >(e));
            return Outcome::Fail(e);
        },
        Outcome::Refused => return Outcome::Refused,
    }
    let prologue = emit_loop_entry(&mut code, frame_size, prologue);
    match emit_entries(
        &mut backend,
        &mut code,
        &schedule,
        &guards,
        &homes,
        split,
        split,
        n,
        Ghost(job),
    ) {
        Outcome::Done(()) => {},
        Outcome::Fail(e) => return Outcome::Fail(e),
        Outcome::Refused => return Outcome::Refused,
    }
    let root: ValueId = schedule[n - 1].0;
    proof {
        assert(entry_ok(sched[n - 1], n - 1));
        assert(fetchable::<Aarch64Backend>(job.at, root));
    }
    let tmp: Reg = Aarch64Backend::reload_regs()[1];
    let result_reg: Reg = homes.fetch(&backend, &mut code, root, tmp, Ghost(n as int));
    if !emit_hoisted_tail(&mut code, frame_size, result_reg, &prologue) {
        return Outcome::Refused;
    }
    if !backend.place_constants(&mut code) {
        return Outcome::Refused;
    }
    let spill_count: usize = homes.spill_count();
    Outcome::Done(
        ScanlineCompileResult {
            code,
            spill_count: spill_count as u32,
            spill_bytes: frame_size,
            max_regs: ctx.max_regs,
        },
    )
}

} // verus!
