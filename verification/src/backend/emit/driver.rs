//! From a schedule to machine code, whatever the machine.
//!
//! Values are placed by linear scan; each entry becomes a plan, and each plan
//! code. A `Select` whose mask is the same in every lane takes one arm only:
//! branches skip the entries that the other arm alone needs, and the `Select`
//! itself is replaced by a copy.

use crate::backend::emit::isa::{
    emit_plan, emit_resolve, encodes, fetch_code, fetchable, lemma_fetch_growth, lemma_plan_code,
    is_supported, listed, lists, plan_code, plan_slots, slot, supports, Branch, IsaBackend,
};
use crate::backend::emit::outcome::{outcome_of, Outcome};
use crate::backend::emit::plan::{
    dst_reg, lemma_slot_bound, lemma_slot_count, plan_of, resolve_dst_loc_dense, resolve_operands, slots_of,
    FrameLayout, InstructionPlan, Loc, Places, Plan, MAX_SLOTS,
};
use crate::backend::emit::regalloc::linear::{
    linear_scan, placed_once, scan, scan_places_each_value_once,
};
use crate::backend::emit::regalloc::ValueId;
use crate::backend::emit::schedule::guards::{
    analyze_select_guards, guarded_values_are_private, guards_of, SelectGuard,
};
use crate::backend::emit::schedule::{
    dense, dense_schedules_are_single_assignment, entry_ok, ScheduledOp,
};
use crate::backend::emit::{Reg, INPUT_REGS, SCRATCH_BASE};
use crate::kind::OpKind;
use std::collections::BTreeMap;
use vstd::prelude::*;

pub mod guarded;
pub mod meaning;

verus! {

broadcast use vstd::std_specs::btree::group_btree_axioms;

/// What is to be emitted: a schedule, what its `Select`s can skip, and where its
/// values live. From entry `short_from` on, a guarded `Select` takes one arm
/// only when it can.
pub struct Job {
    /// The schedule.
    pub sched: Seq<(ValueId, ScheduledOp)>,
    /// The guards of its `Select`s.
    pub guards: Seq<SelectGuard>,
    /// Where values live.
    pub at: Places,
    /// First entry whose `Select` is short-circuited.
    pub short_from: int,
}

/// State of the emission.
#[verifier::ext_equal]
pub struct Walk {
    /// Code so far.
    pub code: Seq<u8>,
    /// Constants so far.
    pub pool: Seq<u32>,
    /// Branches still to be patched: two for each guard, one for each arm.
    pub pending: Seq<Option<Branch>>,
}

/// What an arm of a guard skips; arm 0 is the true one.
pub open spec fn arm_of(g: SelectGuard, arm: int) -> (usize, usize) {
    if arm == 0 {
        g.true_range
    } else {
        g.false_range
    }
}

/// The `p`-th branch, of guard `p / 2` and arm `p % 2`, starts at entry `i`.
pub open spec fn starts_at(guards: Seq<SelectGuard>, p: int, i: int) -> bool {
    let r = arm_of(guards[p / 2], p % 2);
    r.0 != r.1 && r.0 == i
}

/// The arm of the `p`-th branch ends at entry `i`.
pub open spec fn ends_at(guards: Seq<SelectGuard>, p: int, i: int) -> bool {
    let r = arm_of(guards[p / 2], p % 2);
    r.0 != r.1 && r.1 == i
}

/// The guard skips something.
pub open spec fn skips_some(g: SelectGuard) -> bool {
    g.true_range.0 != g.true_range.1 || g.false_range.0 != g.false_range.1
}

/// Entry `i` is a `Select` that skips something.
pub open spec fn guarded(guards: Seq<SelectGuard>, i: int) -> bool {
    exists|g: int|
        0 <= g < guards.len() && (#[trigger] guards[g]).select_idx == i && skips_some(guards[g])
}

/// The first `k` branches that start at entry `i`.
pub open spec fn open_guards<B: IsaBackend>(job: Job, w: Walk, i: int, k: int) -> Walk
    decreases k,
{
    if k <= 0 {
        w
    } else {
        let w = open_guards::<B>(job, w, i, k - 1);
        if starts_at(job.guards, k - 1, i) {
            let mask = job.guards[(k - 1) / 2].mask_vid;
            let tmp = B::reload_pair()[1];
            let code = fetch_code::<B>(w.code, w.pool, job.at, mask, tmp);
            let reg = job.at.source(mask, tmp);
            let (code, branch) = if (k - 1) % 2 == 0 {
                B::skip_if_false(code, reg)
            } else {
                B::skip_if_true(code, reg)
            };
            Walk { code, pending: w.pending.update(k - 1, Some(branch)), ..w }
        } else {
            w
        }
    }
}

/// Branch `p`, if it is pending, led here.
pub open spec fn close_branch<B: IsaBackend>(w: Walk, p: int) -> Walk {
    match w.pending[p] {
        Some(branch) => Walk {
            code: B::patched(w.code, branch, w.code.len() as int),
            pending: w.pending.update(p, None),
            ..w
        },
        None => w,
    }
}

/// The first `k` branches, led here if their arm ends at entry `i`.
pub open spec fn close_guards<B: IsaBackend>(job: Job, w: Walk, i: int, k: int) -> Walk
    decreases k,
{
    if k <= 0 {
        w
    } else {
        let w = close_guards::<B>(job, w, i, k - 1);
        if ends_at(job.guards, k - 1, i) {
            close_branch::<B>(w, k - 1)
        } else {
            w
        }
    }
}

/// The branches around entry `i`.
pub open spec fn turn<B: IsaBackend>(job: Job, w: Walk, i: int) -> Walk {
    let w = open_guards::<B>(job, w, i, 2 * job.guards.len() as int);
    close_guards::<B>(job, w, i, 2 * job.guards.len() as int)
}

/// Code that copies or loads an arm into the destination.
pub open spec fn arm_code<B: IsaBackend>(
    code: Seq<u8>,
    pool: Seq<u32>,
    at: Places,
    v: ValueId,
    dst: Reg,
) -> Seq<u8> {
    if at.regs.contains_key(v.0) {
        B::mov_code(code, dst, at.regs[v.0])
    } else {
        fetch_code::<B>(code, pool, at, v, dst)
    }
}

/// The pieces of a short-circuited `Select`.
pub struct Shortcut {
    /// Code before patching.
    pub code: Seq<u8>,
    /// Constants.
    pub pool: Seq<u32>,
    /// Branch for a mask that is false everywhere, and its target.
    pub all_false: (Branch, int),
    /// Branch for a mask that is true everywhere, and its target.
    pub all_true: (Branch, int),
    /// Jumps to the end.
    pub out: (Branch, Branch),
}

/// A short-circuited `Select`: two tests, the `Select` proper, and a copy of
/// each arm.
pub open spec fn shortcut<B: IsaBackend>(
    job: Job,
    w: Walk,
    plan: Plan,
    ops: (ValueId, ValueId, ValueId),
    dst: Reg,
) -> Result<Shortcut, &'static str> {
    let tmp = B::reload_pair()[1];
    let code = fetch_code::<B>(w.code, w.pool, job.at, ops.0, tmp);
    let reg = job.at.source(ops.0, tmp);
    let (code, to_false) = B::skip_if_false(code, reg);
    let (code, to_true) = B::skip_if_true(code, reg);
    match plan_code::<B>(code, w.pool, plan) {
        Err(e) => Err(e),
        Ok((code, pool)) => {
            let (mixed, out1) = B::jump_code(code);
            let (no, out2) = B::jump_code(arm_code::<B>(mixed, pool, job.at, ops.2, dst));
            let yes = arm_code::<B>(no, pool, job.at, ops.1, dst);
            Ok(
                Shortcut {
                    code: yes,
                    pool,
                    all_false: (to_false, mixed.len() as int),
                    all_true: (to_true, no.len() as int),
                    out: (out1, out2),
                },
            )
        },
    }
}

/// The branches of a short-circuited `Select` led where they belong.
pub open spec fn joined<B: IsaBackend>(s: Shortcut) -> Seq<u8> {
    let end = s.code.len() as int;
    let c = B::patched(s.code, s.all_false.0, s.all_false.1);
    let c = B::patched(c, s.all_true.0, s.all_true.1);
    let c = B::patched(c, s.out.0, end);
    B::patched(c, s.out.1, end)
}

/// Those branches can be led there.
pub open spec fn joinable<B: IsaBackend>(s: Shortcut) -> bool {
    let end = s.code.len() as int;
    &&& B::reaches(s.all_false.0, s.all_false.1)
    &&& B::reaches(s.all_true.0, s.all_true.1)
    &&& B::reaches(s.out.0, end)
    &&& B::reaches(s.out.1, end)
}

/// The plan of entry `i`.
pub open spec fn plan_at<B: IsaBackend>(job: Job, i: int) -> Result<Plan, &'static str> {
    plan_of(job.sched[i].1, loc_at::<B>(job, i), job.at, B::reload_pair())
}

/// Where the result of entry `i` goes.
pub open spec fn loc_at<B: IsaBackend>(job: Job, i: int) -> Loc {
    job.at.destination(job.sched[i].0, B::reload_pair()[0])
}

/// The operands of entry `i` if it is a `Select` to short-circuit.
pub open spec fn short_ops(job: Job, i: int) -> Option<(ValueId, ValueId, ValueId)> {
    match job.sched[i].1 {
        ScheduledOp::Ternary(OpKind::Select, mask, t, f) => if i >= job.short_from && guarded(
            job.guards,
            i,
        ) {
            Some((mask, t, f))
        } else {
            None
        },
        _ => None,
    }
}

/// Entry `i` itself, its branches done.
pub open spec fn place<B: IsaBackend>(job: Job, w: Walk, i: int) -> Result<Walk, &'static str> {
    match plan_at::<B>(job, i) {
        Err(e) => Err(e),
        Ok(plan) => match short_ops(job, i) {
            None => match plan_code::<B>(w.code, w.pool, plan) {
                Err(e) => Err(e),
                Ok((code, pool)) => Ok(Walk { code, pool, ..w }),
            },
            Some(ops) => {
                let loc = loc_at::<B>(job, i);
                let dst = dst_reg(loc, B::reload_pair()[0]);
                match shortcut::<B>(job, w, plan, ops, dst) {
                    Err(e) => Err(e),
                    Ok(s) => match loc {
                        Loc::Reg(_) => Ok(Walk { code: joined::<B>(s), pool: s.pool, ..w }),
                        Loc::Spill(offset) => if B::slot_ok(offset) {
                            Ok(
                                Walk {
                                    code: B::store_code(joined::<B>(s), dst, offset),
                                    pool: s.pool,
                                    ..w
                                },
                            )
                        } else {
                            Err(B::slot_error())
                        },
                    },
                }
            },
        },
    }
}

/// The entries from `lo` up to `k`.
pub open spec fn walk<B: IsaBackend>(job: Job, w: Walk, lo: int, k: int) -> Result<
    Walk,
    &'static str,
>
    decreases k - lo,
{
    if k <= lo {
        Ok(w)
    } else {
        match walk::<B>(job, w, lo, k - 1) {
            Err(e) => Err(e),
            Ok(w) => place::<B>(job, turn::<B>(job, w, k - 1), k - 1),
        }
    }
}

/// Entry `i` itself can be emitted: the machine knows its operation, and the
/// branches of a short-circuited `Select` are in reach of their targets.
pub open spec fn entry_safe<B: IsaBackend>(job: Job, w: Walk, i: int) -> bool {
    &&& supports::<B>(job.sched[i].1)
    &&& plan_at::<B>(job, i) matches Ok(plan) ==> short_ops(job, i) matches Some(ops) ==> {
        let dst = dst_reg(loc_at::<B>(job, i), B::reload_pair()[0]);
        shortcut::<B>(job, w, plan, ops, dst) matches Ok(s) ==> joinable::<B>(s)
    }
}

/// Entry `i` and the branches around it can be emitted: the masks of the branches
/// that start there can be read, and those that end there are in reach of it.
pub open spec fn safe_step<B: IsaBackend>(job: Job, w: Walk, i: int) -> bool {
    let mid = open_guards::<B>(job, w, i, 2 * job.guards.len() as int);
    &&& forall|p: int|
        0 <= p < 2 * job.guards.len() && #[trigger] starts_at(job.guards, p, i) ==> fetchable::<B>(
            job.at,
            job.guards[p / 2].mask_vid,
        )
    &&& forall|p: int|
        0 <= p < 2 * job.guards.len() && ends_at(job.guards, p, i)
            && (#[trigger] mid.pending[p]) is Some ==> B::reaches(
            mid.pending[p]->0,
            mid.code.len() as int,
        )
    &&& entry_safe::<B>(job, turn::<B>(job, w, i), i)
}

/// Every entry from `lo` up to `hi` that is reached can be emitted.
pub open spec fn safe_walk<B: IsaBackend>(job: Job, w: Walk, lo: int, hi: int) -> bool {
    forall|i: int|
        lo <= i < hi && (#[trigger] walk::<B>(job, w, lo, i)) is Ok ==> safe_step::<B>(
            job,
            walk::<B>(job, w, lo, i)->Ok_0,
            i,
        )
}

/// The guard is of an entry, which its arms and its mask come before.
pub open spec fn guard_fits(n: int, g: SelectGuard) -> bool {
    &&& g.select_idx < n
    &&& g.true_range.0 <= g.true_range.1 <= g.select_idx
    &&& g.false_range.0 <= g.false_range.1 <= g.select_idx
    &&& g.mask_vid.0 < g.select_idx
}

/// The job is put together right: guards that fit the schedule, values that live
/// somewhere, in slots of the frame.
pub open spec fn job_ok(job: Job) -> bool {
    &&& dense(job.sched)
    &&& 0 < job.sched.len() <= u32::MAX
    &&& forall|g: int|
        0 <= g < job.guards.len() ==> guard_fits(job.sched.len() as int, #[trigger] job.guards[g])
    &&& forall|v: ValueId| v.0 < job.sched.len() ==> #[trigger] job.at.holds(v)
    &&& forall|v: u32| #[trigger] job.at.slots.contains_key(v) ==> slot(job.at.slots[v])
}

/// Branches still to be patched lie in the code; their arm starts below `top` and
/// does not end before entry `i`.
pub open spec fn pending_ok(job: Job, w: Walk, i: int, top: int) -> bool {
    &&& w.pending.len() == 2 * job.guards.len()
    &&& forall|p: int|
        0 <= p < w.pending.len() && (#[trigger] w.pending[p]) is Some ==> branch_ok(
            job,
            w.code.len() as int,
            p,
            w.pending[p]->0,
            i,
            top,
        )
}

/// See [`pending_ok`].
pub open spec fn branch_ok(job: Job, len: int, p: int, b: Branch, i: int, top: int) -> bool {
    let r = arm_of(job.guards[p / 2], p % 2);
    &&& b.at() + 4 <= len
    &&& r.0 != r.1
    &&& r.0 < top
    &&& r.1 >= i
}

/// An arm that starts before entry `hi` ends before it.
pub open spec fn arms_end_before(guards: Seq<SelectGuard>, hi: int) -> bool {
    forall|p: int|
        0 <= p < 2 * guards.len() ==> {
            let r = #[trigger] arm_of(guards[p / 2], p % 2);
            r.0 < hi && r.0 != r.1 ==> r.1 < hi
        }
}

/// Spilled values defined so far are in slots that can be addressed.
pub open spec fn stored_ok<B: IsaBackend>(job: Job, i: int) -> bool {
    forall|v: ValueId| v.0 < i ==> #[trigger] fetchable::<B>(job.at, v)
}

/// The guards of a schedule fit it.
pub(crate) proof fn lemma_guards_fit(sched: Seq<(ValueId, ScheduledOp)>)
    requires
        dense(sched),
        sched.len() <= u32::MAX,
        sched.len() <= usize::MAX,
    ensures
        forall|g: int|
            0 <= g < guards_of(sched).len() ==> guard_fits(
                sched.len() as int,
                #[trigger] guards_of(sched)[g],
            ) && skips_some(guards_of(sched)[g]),
{
    assert forall|g: int| 0 <= g < guards_of(sched).len() implies guard_fits(
        sched.len() as int,
        #[trigger] guards_of(sched)[g],
    ) && skips_some(guards_of(sched)[g]) by {
        guarded_values_are_private(sched, g);
        let i = guards_of(sched)[g].select_idx as int;
        assert(entry_ok(sched[i], i));
        match sched[i].1 {
            ScheduledOp::Ternary(_, mask, _, _) => {
                assert(sched[i].1.reads(mask));
            },
            _ => {},
        }
    }
}

proof fn lemma_walk_error<B: IsaBackend>(job: Job, w: Walk, lo: int, i: int, k: int)
    requires
        lo <= i <= k,
        walk::<B>(job, w, lo, i) is Err,
    ensures
        walk::<B>(job, w, lo, k) == walk::<B>(job, w, lo, i),
    decreases k - i,
{
    if i < k {
        lemma_walk_error::<B>(job, w, lo, i, k - 1);
    }
}

/// The plan of an entry asks only for what the machine knows, in slots of the
/// frame.
proof fn lemma_plan_ok<B: IsaBackend>(job: Job, i: int)
    requires
        job_ok(job),
        0 <= i < job.sched.len(),
    ensures
        job.at.hold_operands(job.sched[i].1),
        supports::<B>(job.sched[i].1) ==> (plan_at::<B>(job, i) matches Ok(p) ==> encodes::<B>(
            p.op,
        )),
        plan_at::<B>(job, i) matches Ok(p) ==> plan_slots(p),
        plan_at::<B>(job, i) matches Ok(p) ==> (p.store is Some <==> loc_at::<B>(job, i) is Spill)
            && (loc_at::<B>(job, i) matches Loc::Spill(offset) ==> p.store->0.offset == offset
            && slot(offset)),
{
    let op = job.sched[i].1;
    let at = job.at;
    assert(entry_ok(job.sched[i], i));
    assert forall|v: ValueId| #[trigger] op.reads(v) implies at.holds(v) by {
        assert(v.0 < i);
    }
    match op {
        ScheduledOp::Unary(_, a) => {
            assert(op.reads(a));
        },
        ScheduledOp::ShiftImm(_, a, _) => {
            assert(op.reads(a));
        },
        ScheduledOp::Binary(_, a, b) => {
            assert(op.reads(a) && op.reads(b));
        },
        ScheduledOp::Ternary(_, a, b, c) => {
            assert(op.reads(a) && op.reads(b) && op.reads(c));
        },
        _ => {},
    }
}

/// Pending branches that start below entry `i` start below the next one.
proof fn lemma_pending_rises(job: Job, w: Walk, i: int)
    requires
        pending_ok(job, w, i, i),
    ensures
        pending_ok(job, w, i, i + 1),
{
    assert forall|p: int| 0 <= p < w.pending.len() && (#[trigger] w.pending[p]) is Some implies branch_ok(
        job,
        w.code.len() as int,
        p,
        w.pending[p]->0,
        i,
        i + 1,
    ) by {
        assert(branch_ok(job, w.code.len() as int, p, w.pending[p]->0, i, i));
    }
}

/// Open the branches that start at entry `i`.
fn open_branches<B: IsaBackend>(
    backend: &B,
    code: &mut Vec<u8>,
    pending: &mut Vec<Option<Branch>>,
    guards: &Vec<SelectGuard>,
    i: usize,
    reg_for: &Vec<Option<Reg>>,
    spill_for: &Vec<Option<u32>>,
    remat_for: &Vec<Option<u32>>,
    Ghost(job): Ghost<Job>,
)
    requires
        job_ok(job),
        guards@ == job.guards,
        i < job.sched.len(),
        backend.valid(),
        lists(reg_for@, spill_for@, remat_for@, job.at),
        reg_for@.len() == job.sched.len(),
        forall|p: int|
            0 <= p < 2 * job.guards.len() && #[trigger] starts_at(job.guards, p, i as int)
                ==> fetchable::<B>(job.at, job.guards[p / 2].mask_vid),
        pending_ok(
            job,
            Walk { code: old(code)@, pool: backend.pool(), pending: old(pending)@ },
            i as int,
            i as int,
        ),
    ensures
        ({
            let w = open_guards::<B>(
                job,
                Walk { code: old(code)@, pool: backend.pool(), pending: old(pending)@ },
                i as int,
                2 * job.guards.len() as int,
            );
            &&& final(code)@ == w.code
            &&& final(pending)@ == w.pending
            &&& w.pool == backend.pool()
            &&& pending_ok(job, w, i as int, i + 1)
        }),
        final(code)@.len() >= old(code)@.len(),
{
    let ghost w0 = Walk { code: code@, pool: backend.pool(), pending: pending@ };
    proof {
        lemma_pending_rises(job, w0, i as int);
    }
    let tmp: Reg = B::reload_regs()[1];
    let mut g: usize = 0;
    while g < guards.len()
        invariant
            g <= guards@.len(),
            guards@ == job.guards,
            job_ok(job),
            i < job.sched.len(),
            backend.valid(),
            tmp == B::reload_pair()[1],
            lists(reg_for@, spill_for@, remat_for@, job.at),
            reg_for@.len() == job.sched.len(),
            forall|p: int|
                0 <= p < 2 * job.guards.len() && #[trigger] starts_at(job.guards, p, i as int)
                    ==> fetchable::<B>(job.at, job.guards[p / 2].mask_vid),
            w0.pool == backend.pool(),
            open_guards::<B>(job, w0, i as int, 2 * g) == (Walk {
                code: code@,
                pool: backend.pool(),
                pending: pending@,
            }),
            pending_ok(
                job,
                (Walk { code: code@, pool: backend.pool(), pending: pending@ }),
                i as int,
                i + 1,
            ),
            pending@.len() == 2 * guards@.len(),
            code@.len() >= old(code)@.len(),
        decreases guards@.len() - g,
    {
        let guard: SelectGuard = guards[g];
        proof {
            assert(guard_fits(job.sched.len() as int, job.guards[g as int]));
            assert((2 * g) / 2 == g && (2 * g) % 2 == 0);
            assert((2 * g + 1) / 2 == g && (2 * g + 1) % 2 == 1);
            reveal_with_fuel(open_guards, 3);
        }
        let mut arm: usize = 0;
        while arm < 2
            invariant
                arm <= 2,
                g < guards@.len(),
                guard == guards@[g as int],
                guards@ == job.guards,
                job_ok(job),
                i < job.sched.len(),
                backend.valid(),
                tmp == B::reload_pair()[1],
                lists(reg_for@, spill_for@, remat_for@, job.at),
                reg_for@.len() == job.sched.len(),
                guard.mask_vid.0 < guard.select_idx < job.sched.len(),
                guard.true_range.0 <= guard.true_range.1,
                guard.false_range.0 <= guard.false_range.1,
                (2 * g) / 2 == g && (2 * g) % 2 == 0,
                (2 * g + 1) / 2 == g && (2 * g + 1) % 2 == 1,
                forall|p: int|
                    0 <= p < 2 * job.guards.len() && #[trigger] starts_at(job.guards, p, i as int)
                        ==> fetchable::<B>(job.at, job.guards[p / 2].mask_vid),
                w0.pool == backend.pool(),
                open_guards::<B>(job, w0, i as int, 2 * g + arm) == (Walk {
                    code: code@,
                    pool: backend.pool(),
                    pending: pending@,
                }),
                pending_ok(
                    job,
                    (Walk { code: code@, pool: backend.pool(), pending: pending@ }),
                    i as int,
                    i + 1,
                ),
                pending@.len() == 2 * guards@.len(),
                code@.len() >= old(code)@.len(),
            decreases 2 - arm,
        {
            let ghost p: int = 2 * g + arm;
            let range: (usize, usize) = if arm == 0 {
                guard.true_range
            } else {
                guard.false_range
            };
            assert(range == arm_of(job.guards[p / 2], p % 2));
            if range.0 != range.1 && range.0 == i {
                assert(starts_at(job.guards, p, i as int));
                let ghost before = code@;
                let ghost was = pending@;
                let mask_reg: Reg = emit_resolve(
                    backend,
                    code,
                    guard.mask_vid,
                    tmp,
                    reg_for.as_slice(),
                    spill_for.as_slice(),
                    remat_for.as_slice(),
                    Ghost(job.at),
                );
                let ghost mid = code@;
                let branch: Branch = if arm == 0 {
                    backend.emit_skip_if_all_false(code, mask_reg)
                } else {
                    backend.emit_skip_if_all_true(code, mask_reg)
                };
                proof {
                    lemma_fetch_growth::<B>(before, backend.pool(), job.at, guard.mask_vid, tmp);
                    assert(code.len() == code@.len());
                    B::branch_laws(mid, mask_reg, branch, 0);
                }
                let slots: usize = pending.len();
                assert(2 * g + arm < slots);
                pending.set(2 * g + arm, Some(branch));
                proof {
                    let w = Walk { code: code@, pool: backend.pool(), pending: pending@ };
                    assert forall|q: int|
                        0 <= q < w.pending.len() && (#[trigger] w.pending[q]) is Some implies branch_ok(
                        job,
                        w.code.len() as int,
                        q,
                        w.pending[q]->0,
                        i as int,
                        i + 1,
                    ) by {
                        if q != p {
                            assert(w.pending[q] == was[q]);
                            assert(branch_ok(
                                job,
                                before.len() as int,
                                q,
                                was[q]->0,
                                i as int,
                                i + 1,
                            ));
                        }
                    }
                }
            }
            arm += 1;
        }
        g += 1;
    }
}

/// Does an arm of the guard end at entry `i`?
fn arm_ends(guard: &SelectGuard, of_true: bool, i: usize) -> (b: bool)
    ensures
        b == ({
            let r = arm_of(
                *guard,
                if of_true {
                    0
                } else {
                    1
                },
            );
            r.0 != r.1 && r.1 == i
        }),
{
    let range: (usize, usize) = if of_true {
        guard.true_range
    } else {
        guard.false_range
    };
    range.0 != range.1 && range.1 == i
}

/// Lead a pending branch here.
fn close_one<B: IsaBackend>(
    backend: &B,
    code: &mut Vec<u8>,
    pending: &mut Vec<Option<Branch>>,
    p: usize,
)
    requires
        p < old(pending)@.len(),
        old(pending)@[p as int] matches Some(b) ==> b.at() + 4 <= old(code)@.len() && B::reaches(
            b,
            old(code)@.len() as int,
        ),
    ensures
        ({
            let w = close_branch::<B>(
                Walk { code: old(code)@, pool: backend.pool(), pending: old(pending)@ },
                p as int,
            );
            &&& final(code)@ == w.code
            &&& final(pending)@ == w.pending
            &&& w.code.len() == old(code)@.len()
        }),
{
    if let Some(branch) = pending[p] {
        let target: usize = code.len();
        proof {
            B::branch_laws(code@, Reg(0), branch, target as int);
        }
        backend.patch_branch(code, branch, target);
        pending.set(p, None);
    }
}

/// Lead the branches of the arms that end at entry `i` here.
fn close_branches<B: IsaBackend>(
    backend: &B,
    code: &mut Vec<u8>,
    pending: &mut Vec<Option<Branch>>,
    guards: &Vec<SelectGuard>,
    i: usize,
    Ghost(job): Ghost<Job>,
)
    requires
        guards@ == job.guards,
        pending_ok(
            job,
            Walk { code: old(code)@, pool: backend.pool(), pending: old(pending)@ },
            i as int,
            i + 1,
        ),
        forall|p: int|
            0 <= p < 2 * job.guards.len() && ends_at(job.guards, p, i as int)
                && (#[trigger] old(pending)@[p]) is Some ==> B::reaches(
                old(pending)@[p]->0,
                old(code)@.len() as int,
            ),
    ensures
        ({
            let w = close_guards::<B>(
                job,
                Walk { code: old(code)@, pool: backend.pool(), pending: old(pending)@ },
                i as int,
                2 * job.guards.len() as int,
            );
            &&& final(code)@ == w.code
            &&& final(pending)@ == w.pending
            &&& w.pool == backend.pool()
            &&& pending_ok(job, w, i + 1, i + 1)
        }),
        final(code)@.len() == old(code)@.len(),
{
    let ghost w0 = Walk { code: code@, pool: backend.pool(), pending: pending@ };
    let ghost len = code@.len();
    let mut p: usize = 0;
    while p < pending.len()
        invariant
            p <= pending@.len(),
            guards@ == job.guards,
            w0.pool == backend.pool(),
            w0.pending == old(pending)@,
            len == old(code)@.len(),
            code@.len() == len,
            pending@.len() == 2 * guards@.len(),
            close_guards::<B>(job, w0, i as int, p as int) == (Walk {
                code: code@,
                pool: backend.pool(),
                pending: pending@,
            }),
            forall|q: int|
                0 <= q < pending@.len() && (#[trigger] pending@[q]) is Some ==> pending@[q]
                    == w0.pending[q] && (q < p ==> !ends_at(job.guards, q, i as int)),
            pending_ok(job, w0, i as int, i + 1),
            w0.code.len() == len,
            forall|q: int|
                0 <= q < 2 * job.guards.len() && ends_at(job.guards, q, i as int)
                    && (#[trigger] w0.pending[q]) is Some ==> B::reaches(
                    w0.pending[q]->0,
                    len as int,
                ),
        decreases pending@.len() - p,
    {
        if arm_ends(&guards[p / 2], p % 2 == 0, i) {
            let ghost was = pending@;
            proof {
                if was[p as int] is Some {
                    assert(branch_ok(
                        job,
                        len as int,
                        p as int,
                        w0.pending[p as int]->0,
                        i as int,
                        i + 1,
                    ));
                }
            }
            close_one(backend, code, pending, p);
            proof {
                assert forall|q: int|
                    0 <= q < pending@.len() && (#[trigger] pending@[q]) is Some implies pending@[q]
                    == w0.pending[q] && (q < p + 1 ==> !ends_at(job.guards, q, i as int)) by {
                    assert(q != p);
                    assert(pending@[q] == was[q]);
                }
            }
        }
        p += 1;
    }
    proof {
        let w = close_guards::<B>(job, w0, i as int, 2 * job.guards.len() as int);
        assert forall|p: int| 0 <= p < w.pending.len() && (#[trigger] w.pending[p]) is Some implies branch_ok(
            job,
            w.code.len() as int,
            p,
            w.pending[p]->0,
            i + 1,
            i + 1,
        ) by {
            assert(w0.pending[p] is Some);
            assert(branch_ok(job, len as int, p, w0.pending[p]->0, i as int, i + 1));
            assert(!ends_at(job.guards, p, i as int));
        }
    }
}

/// Copy or load an arm into the destination.
fn emit_arm<B: IsaBackend>(
    backend: &B,
    code: &mut Vec<u8>,
    v: ValueId,
    dst: Reg,
    reg_for: &Vec<Option<Reg>>,
    spill_for: &Vec<Option<u32>>,
    remat_for: &Vec<Option<u32>>,
    Ghost(at): Ghost<Places>,
)
    requires
        backend.valid(),
        lists(reg_for@, spill_for@, remat_for@, at),
        v.0 < reg_for@.len(),
        fetchable::<B>(at, v),
    ensures
        final(code)@ == arm_code::<B>(old(code)@, backend.pool(), at, v, dst),
        final(code)@.len() >= old(code)@.len(),
{
    assert(listed(reg_for@, spill_for@, remat_for@, at, v.0 as int));
    proof {
        B::growth_laws(code@, backend.pool(), OpKind::Add, dst, at.regs[v.0], dst, 0);
        lemma_fetch_growth::<B>(code@, backend.pool(), at, v, dst);
    }
    match reg_for[v.0 as usize] {
        Some(reg) => backend.emit_mov(code, dst, reg),
        None => {
            let _r = emit_resolve(
                backend,
                code,
                v,
                dst,
                reg_for.as_slice(),
                spill_for.as_slice(),
                remat_for.as_slice(),
                Ghost(at),
            );
        },
    }
}

/// Emit a `Select` that takes one arm only when its mask is the same in every
/// lane.
fn emit_shortcut<B: IsaBackend>(
    backend: &mut B,
    code: &mut Vec<u8>,
    plan: &InstructionPlan,
    ops: (ValueId, ValueId, ValueId),
    dst: Reg,
    reg_for: &Vec<Option<Reg>>,
    spill_for: &Vec<Option<u32>>,
    remat_for: &Vec<Option<u32>>,
    Ghost(job): Ghost<Job>,
    Ghost(w): Ghost<Walk>,
) -> (r: Outcome<()>)
    requires
        old(backend).valid(),
        lists(reg_for@, spill_for@, remat_for@, job.at),
        ops.0.0 < reg_for@.len(),
        ops.1.0 < reg_for@.len(),
        ops.2.0 < reg_for@.len(),
        fetchable::<B>(job.at, ops.0),
        fetchable::<B>(job.at, ops.1),
        fetchable::<B>(job.at, ops.2),
        encodes::<B>(plan.op),
        plan_slots(plan@),
        w.code == old(code)@,
        w.pool == old(backend).pool(),
    ensures
        final(backend).valid(),
        final(backend).budget() == old(backend).budget(),
        final(backend).anchor() == old(backend).anchor(),
        match shortcut::<B>(job, w, plan@, ops, dst) {
            Ok(s) => if joinable::<B>(s) {
                r is Done && final(code)@ == joined::<B>(s) && final(backend).pool() == s.pool
                    && final(code)@.len() >= old(code)@.len()
            } else {
                r is Refused
            },
            Err(e) => r == Outcome::<()>::Fail(e),
        },
{
    let tmp: Reg = B::reload_regs()[1];
    let ghost c0 = code@;
    let mask_reg: Reg = emit_resolve(
        backend,
        code,
        ops.0,
        tmp,
        reg_for.as_slice(),
        spill_for.as_slice(),
        remat_for.as_slice(),
        Ghost(job.at),
    );
    let ghost c1 = code@;
    let to_false: Branch = backend.emit_skip_if_all_false(code, mask_reg);
    let ghost c2 = code@;
    let to_true: Branch = backend.emit_skip_if_all_true(code, mask_reg);
    let ghost c3 = code@;
    proof {
        assert(code.len() == c3.len());
        lemma_fetch_growth::<B>(c0, w.pool, job.at, ops.0, tmp);
        B::branch_laws(c1, mask_reg, to_false, 0);
        B::branch_laws(c2, mask_reg, to_true, 0);
        lemma_plan_code::<B>(c3, w.pool, plan@);
    }
    if let Err(e) = emit_plan(backend, code, plan) {
        return Outcome::Fail(e);
    }
    let ghost c4 = code@;
    let out1: Branch = backend.emit_jump(code);
    let false_target: usize = code.len();
    let ghost c5 = code@;
    emit_arm(backend, code, ops.2, dst, reg_for, spill_for, remat_for, Ghost(job.at));
    let ghost c6 = code@;
    let out2: Branch = backend.emit_jump(code);
    let true_target: usize = code.len();
    let ghost c7 = code@;
    emit_arm(backend, code, ops.1, dst, reg_for, spill_for, remat_for, Ghost(job.at));
    let end: usize = code.len();
    let ghost c8 = code@;
    proof {
        assert(end == c8.len());
        B::branch_laws(c4, mask_reg, out1, 0);
        B::branch_laws(c6, mask_reg, out2, 0);
        let s = shortcut::<B>(job, w, plan@, ops, dst);
        assert(s is Ok);
        let s = s->Ok_0;
        assert(s.code == c8);
        assert(s.all_false == (to_false, false_target as int));
        assert(s.all_true == (to_true, true_target as int));
        assert(s.out == (out1, out2));
        B::branch_laws(c8, mask_reg, to_false, false_target as int);
    }
    if !(B::can_reach(to_false, false_target) && B::can_reach(to_true, true_target) && B::can_reach(
        out1,
        end,
    ) && B::can_reach(out2, end)) {
        return Outcome::Refused;
    }
    backend.patch_branch(code, to_false, false_target);
    let ghost c9 = code@;
    proof {
        B::branch_laws(c9, mask_reg, to_true, true_target as int);
    }
    backend.patch_branch(code, to_true, true_target);
    let ghost c10 = code@;
    proof {
        B::branch_laws(c10, mask_reg, out1, end as int);
    }
    backend.patch_branch(code, out1, end);
    let ghost c11 = code@;
    proof {
        B::branch_laws(c11, mask_reg, out2, end as int);
    }
    backend.patch_branch(code, out2, end);
    Outcome::Done(())
}

/// Whether an entry is a `Select` that skips something.
fn is_guarded(guards: &Vec<SelectGuard>, i: usize) -> (b: bool)
    ensures
        b == guarded(guards@, i as int),
{
    let mut g: usize = 0;
    while g < guards.len()
        invariant
            g <= guards@.len(),
            forall|h: int|
                0 <= h < g ==> !((#[trigger] guards@[h]).select_idx == i && skips_some(guards@[h])),
        decreases guards@.len() - g,
    {
        let guard: SelectGuard = guards[g];
        let skips: bool = guard.true_range.0 != guard.true_range.1 || guard.false_range.0
            != guard.false_range.1;
        if guard.select_idx == i && skips {
            assert(guards@[g as int].select_idx == i && skips_some(guards@[g as int]));
            return true;
        }
        g += 1;
    }
    false
}

/// The operands of an entry, if it is a `Select` that skips something.
fn short_operands(op: ScheduledOp, guards: &Vec<SelectGuard>, i: usize, short_from: usize) -> (r:
    Option<(ValueId, ValueId, ValueId)>)
    ensures
        r == (match op {
            ScheduledOp::Ternary(OpKind::Select, mask, t, f) => if i >= short_from && guarded(
                guards@,
                i as int,
            ) {
                Some((mask, t, f))
            } else {
                None
            },
            _ => None,
        }),
{
    match op {
        ScheduledOp::Ternary(OpKind::Select, mask, t, f) => {
            if i >= short_from && is_guarded(guards, i) {
                Some((mask, t, f))
            } else {
                None
            }
        },
        _ => None,
    }
}

/// Where the values of a schedule live, as maps and as tables.
pub(crate) struct Homes {
    /// Registers.
    assignment: BTreeMap<u32, Reg>,
    /// Stack slots.
    spill_slots: BTreeMap<u32, u32>,
    /// Constants built at each use.
    rematerialize: BTreeMap<u32, u32>,
    /// Registers, by value number.
    reg_for: Vec<Option<Reg>>,
    /// Stack slots, by value number.
    spill_for: Vec<Option<u32>>,
    /// Constants, by value number.
    remat_for: Vec<Option<u32>>,
}

impl Homes {
    /// Where values live.
    pub closed spec fn places(&self) -> Places {
        Places {
            regs: self.assignment@,
            slots: self.spill_slots@,
            consts: self.rematerialize@,
        }
    }

    /// The tables agree with the maps, for the first `n` values.
    pub closed spec fn wf(&self, n: int) -> bool {
        &&& self.reg_for@.len() == n
        &&& lists(self.reg_for@, self.spill_for@, self.remat_for@, self.places())
    }

    /// Bring a value to a register: its own, or `target` if it has to be loaded.
    pub(crate) fn fetch<B: IsaBackend>(
        &self,
        backend: &B,
        code: &mut Vec<u8>,
        v: ValueId,
        target: Reg,
        Ghost(n): Ghost<int>,
    ) -> (r: Reg)
        requires
            backend.valid(),
            self.wf(n),
            v.0 < n,
            fetchable::<B>(self.places(), v),
        ensures
            final(code)@ == fetch_code::<B>(
                old(code)@,
                backend.pool(),
                self.places(),
                v,
                target,
            ),
            r == self.places().source(v, target),
    {
        emit_resolve(
            backend,
            code,
            v,
            target,
            self.reg_for.as_slice(),
            self.spill_for.as_slice(),
            self.remat_for.as_slice(),
            Ghost(self.places()),
        )
    }

    /// Can the value be brought to a register?
    fn can_fetch<B: IsaBackend>(&self, v: ValueId, Ghost(job): Ghost<Job>) -> (b: bool)
        requires
            job_ok(job),
            self.wf(job.sched.len() as int),
            self.places() == job.at,
            v.0 < job.sched.len(),
        ensures
            b == fetchable::<B>(job.at, v),
    {
        let idx: usize = v.0 as usize;
        assert(listed(self.reg_for@, self.spill_for@, self.remat_for@, job.at, idx as int));
        assert(job.at.holds(v));
        match (self.reg_for[idx], self.remat_for[idx], self.spill_for[idx]) {
            (None, None, Some(offset)) => B::can_address(offset),
            _ => true,
        }
    }

    /// Rotate the registers of the first `count` values from `first` up to `end` up by
    /// `n`.
    pub(crate) fn rotate(&mut self, first: u8, n: u8, end: u8, count: u32)
        requires
            old(self).wf(count as int),
            first + n <= end <= 128,
        ensures
            final(self).wf(count as int),
            final(self).places() == rotated(old(self).places(), first, n, end, count as int),
    {
        let ghost was = self.places();
        let ghost now = rotated(was, first, n, end, count as int);
        let mut v: u32 = 0;
        while v < count
            invariant
                v <= count,
                self.reg_for@.len() == count,
                self.spill_for@.len() == count,
                self.remat_for@.len() == count,
                self.places().slots == was.slots,
                self.places().consts == was.consts,
                first + n <= end <= 128,
                forall|k: u32| #[trigger]
                    self.places().regs.contains_key(k) <==> was.regs.contains_key(k),
                forall|k: u32| #[trigger]
                    self.places().regs.contains_key(k) ==> self.places().regs[k] == if k < v {
                        now.regs[k]
                    } else {
                        was.regs[k]
                    },
                forall|k: int|
                    0 <= k < v ==> #[trigger] listed(
                        self.reg_for@,
                        self.spill_for@,
                        self.remat_for@,
                        now,
                        k,
                    ),
                forall|k: int|
                    v <= k < count ==> #[trigger] listed(
                        self.reg_for@,
                        self.spill_for@,
                        self.remat_for@,
                        was,
                        k,
                    ),
                now == rotated(was, first, n, end, count as int),
            decreases count - v,
        {
            let ghost regs = self.reg_for@;
            let ghost before = self.places().regs;
            assert(listed(self.reg_for@, self.spill_for@, self.remat_for@, was, v as int));
            if let Some(r) = self.reg_for[v as usize] {
                assert(was.regs.contains_key(v));
                if r.0 >= first && r.0 < end {
                    let moved: Reg = if r.0 + n < end {
                        Reg(r.0 + n)
                    } else {
                        Reg(r.0 + n - (end - first))
                    };
                    self.reg_for.set(v as usize, Some(moved));
                    self.assignment.insert(v, moved);
                    assert(self.places().regs == before.insert(v, moved));
                }
            }
            proof {
                assert forall|k: u32| #[trigger]
                    self.places().regs.contains_key(k) <==> was.regs.contains_key(k) by {
                    assert(before.contains_key(k) <==> was.regs.contains_key(k));
                }
                assert forall|k: u32| #[trigger]
                    self.places().regs.contains_key(k) implies self.places().regs[k] == if k < v
                    + 1 {
                    now.regs[k]
                } else {
                    was.regs[k]
                } by {
                    assert(before.contains_key(k));
                }
                assert forall|k: int| 0 <= k < v + 1 implies #[trigger] listed(
                    self.reg_for@,
                    self.spill_for@,
                    self.remat_for@,
                    now,
                    k,
                ) by {
                    if k < v {
                        assert(listed(regs, self.spill_for@, self.remat_for@, now, k));
                    }
                }
                assert forall|k: int| v + 1 <= k < count implies #[trigger] listed(
                    self.reg_for@,
                    self.spill_for@,
                    self.remat_for@,
                    was,
                    k,
                ) by {
                    assert(listed(regs, self.spill_for@, self.remat_for@, was, k));
                }
            }
            v += 1;
        }
        proof {
            assert(self.places().regs =~= now.regs);
            assert forall|k: int| 0 <= k < self.reg_for@.len() implies #[trigger] listed(
                self.reg_for@,
                self.spill_for@,
                self.remat_for@,
                self.places(),
                k,
            ) by {
                assert(listed(self.reg_for@, self.spill_for@, self.remat_for@, now, k));
            }
        }
    }

    /// Number of stack slots.
    pub(crate) fn spill_count(&self) -> (n: usize)
        ensures
            n == self.places().slots.len(),
    {
        self.spill_slots.len()
    }
}

/// Emit the code of an entry, its branches done.
fn emit_entry<B: IsaBackend>(
    backend: &mut B,
    code: &mut Vec<u8>,
    entry: (ValueId, ScheduledOp),
    guards: &Vec<SelectGuard>,
    homes: &Homes,
    i: usize,
    short_from: usize,
    Ghost(job): Ghost<Job>,
    Ghost(w): Ghost<Walk>,
) -> (r: Outcome<()>)
    requires
        job_ok(job),
        i < job.sched.len(),
        entry == job.sched[i as int],
        guards@ == job.guards,
        short_from == job.short_from,
        homes.wf(job.sched.len() as int),
        homes.places() == job.at,
        old(backend).valid(),
        stored_ok::<B>(job, i as int),
        w.code == old(code)@,
        w.pool == old(backend).pool(),
    ensures
        final(backend).valid(),
        final(backend).budget() == old(backend).budget(),
        final(backend).anchor() == old(backend).anchor(),
        r is Refused <==> !entry_safe::<B>(job, w, i as int),
        entry_safe::<B>(job, w, i as int) ==> match place::<B>(job, w, i as int) {
            Ok(after) => {
                &&& r is Done
                &&& final(code)@ == after.code
                &&& final(backend).pool() == after.pool
                &&& after.pending == w.pending
                &&& after.code.len() >= w.code.len()
                &&& stored_ok::<B>(job, i + 1)
            },
            Err(e) => r == Outcome::<()>::Fail(e),
        },
{
    if !is_supported::<B>(entry.1) {
        return Outcome::Refused;
    }
    let reload: [Reg; 2] = B::reload_regs();
    let ghost v = entry.0;
    proof {
        assert(entry_ok(job.sched[i as int], i as int));
        assert(listed(homes.reg_for@, homes.spill_for@, homes.remat_for@, job.at, i as int));
        lemma_plan_ok::<B>(job, i as int);
        assert(job.at.holds(v));
    }
    let loc: Loc = resolve_dst_loc_dense(
        entry.0,
        homes.reg_for.as_slice(),
        homes.spill_for.as_slice(),
        reload[0],
    );
    assert(loc == loc_at::<B>(job, i as int));
    let plan: InstructionPlan = match resolve_operands(
        &entry.1,
        loc,
        &homes.assignment,
        &homes.spill_slots,
        &homes.rematerialize,
        reload,
    ) {
        Ok(p) => p,
        Err(e) => return Outcome::Fail(e),
    };
    proof {
        assert(plan_at::<B>(job, i as int) == Ok::<Plan, &'static str>(plan@));
        assert forall|u: ValueId| u.0 < i + 1 && (loc is Spill ==> B::slot_ok(
            loc->Spill_0,
        )) implies #[trigger] fetchable::<B>(job.at, u) by {
            if u.0 == i {
                assert(u == v);
                assert(job.at.slots.contains_key(u.0) ==> slot(job.at.slots[u.0]));
            }
        }
    }
    match short_operands(entry.1, guards, i, short_from) {
        None => {
            proof {
                lemma_plan_code::<B>(code@, backend.pool(), plan@);
            }
            match emit_plan(backend, code, &plan) {
                Ok(()) => Outcome::Done(()),
                Err(e) => Outcome::Fail(e),
            }
        },
        Some(ops) => {
            let dst: Reg = match loc {
                Loc::Reg(r) => r,
                Loc::Spill(_) => reload[0],
            };
            proof {
                let op = job.sched[i as int].1;
                assert(op.reads(ops.0) && op.reads(ops.1) && op.reads(ops.2));
            }
            match emit_shortcut(
                backend,
                code,
                &plan,
                ops,
                dst,
                &homes.reg_for,
                &homes.spill_for,
                &homes.remat_for,
                Ghost(job),
                Ghost(w),
            ) {
                Outcome::Done(()) => {},
                x => return x,
            }
            match loc {
                Loc::Reg(_) => Outcome::Done(()),
                Loc::Spill(offset) => {
                    proof {
                        B::growth_laws(code@, backend.pool(), OpKind::Add, dst, dst, dst, offset);
                    }
                    match backend.emit_store(code, dst, offset) {
                        Ok(()) => Outcome::Done(()),
                        Err(e) => Outcome::Fail(e),
                    }
                },
            }
        },
    }
}

/// Can the masks of the branches that start at entry `i` be read?
fn masks_readable<B: IsaBackend>(
    guards: &Vec<SelectGuard>,
    homes: &Homes,
    i: usize,
    Ghost(job): Ghost<Job>,
) -> (b: bool)
    requires
        job_ok(job),
        guards@ == job.guards,
        homes.wf(job.sched.len() as int),
        homes.places() == job.at,
    ensures
        b == forall|p: int|
            0 <= p < 2 * job.guards.len() && #[trigger] starts_at(job.guards, p, i as int)
                ==> fetchable::<B>(job.at, job.guards[p / 2].mask_vid),
{
    let mut g: usize = 0;
    while g < guards.len()
        invariant
            g <= guards@.len(),
            job_ok(job),
            guards@ == job.guards,
            homes.wf(job.sched.len() as int),
            homes.places() == job.at,
            forall|p: int|
                0 <= p < 2 * g && #[trigger] starts_at(job.guards, p, i as int) ==> fetchable::<B>(
                    job.at,
                    job.guards[p / 2].mask_vid,
                ),
        decreases guards@.len() - g,
    {
        let guard: SelectGuard = guards[g];
        let starts: bool = (guard.true_range.0 != guard.true_range.1 && guard.true_range.0 == i) || (
        guard.false_range.0 != guard.false_range.1 && guard.false_range.0 == i);
        proof {
            assert((2 * g) / 2 == g && (2 * g + 1) / 2 == g);
            assert((2 * g) % 2 == 0 && (2 * g + 1) % 2 == 1);
            assert(starts <==> starts_at(job.guards, 2 * g, i as int) || starts_at(
                job.guards,
                2 * g + 1,
                i as int,
            ));
        }
        if starts {
            proof {
                assert(guard_fits(job.sched.len() as int, job.guards[g as int]));
            }
            if !homes.can_fetch::<B>(guard.mask_vid, Ghost(job)) {
                return false;
            }
        }
        proof {
            assert forall|p: int|
                0 <= p < 2 * (g + 1) && #[trigger] starts_at(job.guards, p, i as int) implies fetchable::<
                B,
            >(job.at, job.guards[p / 2].mask_vid) by {
                if p >= 2 * g {
                    assert(p == 2 * g || p == 2 * g + 1);
                }
            }
        }
        g += 1;
    }
    true
}

/// Are the pending branches that end at entry `i` in reach of the end of the
/// code?
fn ends_in_reach<B: IsaBackend>(
    code: &Vec<u8>,
    pending: &Vec<Option<Branch>>,
    guards: &Vec<SelectGuard>,
    i: usize,
) -> (b: bool)
    requires
        pending@.len() == 2 * guards@.len(),
    ensures
        b == forall|p: int|
            0 <= p < 2 * guards@.len() && ends_at(guards@, p, i as int)
                && (#[trigger] pending@[p]) is Some ==> B::reaches(
                pending@[p]->0,
                code@.len() as int,
            ),
{
    let target: usize = code.len();
    let mut p: usize = 0;
    while p < pending.len()
        invariant
            p <= pending@.len(),
            pending@.len() == 2 * guards@.len(),
            target == code@.len(),
            forall|q: int|
                0 <= q < p && ends_at(guards@, q, i as int) && (#[trigger] pending@[q]) is Some
                    ==> B::reaches(pending@[q]->0, code@.len() as int),
        decreases pending@.len() - p,
    {
        if arm_ends(&guards[p / 2], p % 2 == 0, i) {
            if let Some(branch) = pending[p] {
                if !B::can_reach(branch, target) {
                    assert(pending@[p as int] is Some);
                    return false;
                }
            }
        }
        p += 1;
    }
    true
}

/// Emit the code of the entries from `lo` up to `hi`, with the branches around
/// them.
pub(crate) fn emit_entries<B: IsaBackend>(
    backend: &mut B,
    code: &mut Vec<u8>,
    schedule: &Vec<(ValueId, ScheduledOp)>,
    guards: &Vec<SelectGuard>,
    homes: &Homes,
    short_from: usize,
    lo: usize,
    hi: usize,
    Ghost(job): Ghost<Job>,
) -> (r: Outcome<()>)
    requires
        job_ok(job),
        schedule@ == job.sched,
        guards@ == job.guards,
        short_from == job.short_from,
        homes.wf(job.sched.len() as int),
        homes.places() == job.at,
        old(backend).valid(),
        lo <= hi <= job.sched.len(),
        stored_ok::<B>(job, lo as int),
        arms_end_before(job.guards, hi as int),
    ensures
        final(backend).valid(),
        final(backend).budget() == old(backend).budget(),
        final(backend).anchor() == old(backend).anchor(),
        r is Refused <==> !safe_walk::<B>(
            job,
            start(job, old(code)@, old(backend).pool()),
            lo as int,
            hi as int,
        ),
        !(r is Refused) ==> match walk::<B>(
            job,
            start(job, old(code)@, old(backend).pool()),
            lo as int,
            hi as int,
        ) {
            Ok(w) => {
                &&& r is Done
                &&& final(code)@ == w.code
                &&& final(backend).pool() == w.pool
                &&& w.code.len() >= old(code)@.len()
                &&& stored_ok::<B>(job, hi as int)
                &&& all_patched(w)
            },
            Err(e) => r == Outcome::<()>::Fail(e),
        },
{
    let ghost w0 = start(job, code@, backend.pool());
    let mut pending: Vec<Option<Branch>> = Vec::new();
    let mut g: usize = 0;
    while g < guards.len()
        invariant
            g <= guards@.len(),
            pending@.len() == 2 * g,
            forall|p: int| 0 <= p < pending@.len() ==> (#[trigger] pending@[p]) is None,
        decreases guards@.len() - g,
    {
        pending.push(None);
        pending.push(None);
        g += 1;
    }
    assert(pending@ =~= w0.pending);
    let mut i: usize = lo;
    while i < hi
        invariant
            lo <= i <= hi <= job.sched.len(),
            job_ok(job),
            schedule@ == job.sched,
            guards@ == job.guards,
            short_from == job.short_from,
            homes.wf(job.sched.len() as int),
            homes.places() == job.at,
            backend.valid(),
            backend.budget() == old(backend).budget(),
            backend.anchor() == old(backend).anchor(),
            w0 == start(job, old(code)@, old(backend).pool()),
            forall|k: int|
                lo <= k < i ==> (#[trigger] walk::<B>(job, w0, lo as int, k)) is Ok && safe_step::<B>(
                    job,
                    walk::<B>(job, w0, lo as int, k)->Ok_0,
                    k,
                ),
            walk::<B>(job, w0, lo as int, i as int) == Ok::<Walk, &'static str>(
                (Walk { code: code@, pool: backend.pool(), pending: pending@ }),
            ),
            pending_ok(
                job,
                (Walk { code: code@, pool: backend.pool(), pending: pending@ }),
                i as int,
                i as int,
            ),
            stored_ok::<B>(job, i as int),
            code@.len() >= old(code)@.len(),
        decreases hi - i,
    {
        let ghost w = Walk { code: code@, pool: backend.pool(), pending: pending@ };
        assert(walk::<B>(job, w0, lo as int, i as int)->Ok_0 == w);
        if !masks_readable::<B>(guards, homes, i, Ghost(job)) {
            assert(!safe_step::<B>(job, w, i as int));
            return Outcome::Refused;
        }
        open_branches(
            backend,
            code,
            &mut pending,
            guards,
            i,
            &homes.reg_for,
            &homes.spill_for,
            &homes.remat_for,
            Ghost(job),
        );
        let ghost mid = open_guards::<B>(job, w, i as int, 2 * job.guards.len() as int);
        assert(mid == (Walk { code: code@, pool: backend.pool(), pending: pending@ }));
        if !ends_in_reach::<B>(code, &pending, guards, i) {
            assert(!safe_step::<B>(job, w, i as int));
            return Outcome::Refused;
        }
        close_branches(backend, code, &mut pending, guards, i, Ghost(job));
        let ghost at = turn::<B>(job, w, i as int);
        assert(at == (Walk { code: code@, pool: backend.pool(), pending: pending@ }));
        match emit_entry(
            backend,
            code,
            schedule[i],
            guards,
            homes,
            i,
            short_from,
            Ghost(job),
            Ghost(at),
        ) {
            Outcome::Done(()) => {},
            Outcome::Refused => {
                assert(!safe_step::<B>(job, w, i as int));
                return Outcome::Refused;
            },
            Outcome::Fail(e) => {
                proof {
                    assert(walk::<B>(job, w0, lo as int, i + 1) == Err::<Walk, &'static str>(e));
                    lemma_walk_error::<B>(job, w0, lo as int, i + 1, hi as int);
                    assert(safe_step::<B>(job, w, i as int));
                    assert forall|k: int|
                        lo <= k < hi && (#[trigger] walk::<B>(job, w0, lo as int, k)) is Ok implies safe_step::<
                        B,
                    >(job, walk::<B>(job, w0, lo as int, k)->Ok_0, k) by {
                        if k > i {
                            lemma_walk_error::<B>(job, w0, lo as int, i + 1, k);
                        }
                    }
                }
                return Outcome::Fail(e);
            },
        }
        proof {
            assert(safe_step::<B>(job, w, i as int));
            let after = Walk { code: code@, pool: backend.pool(), pending: pending@ };
            assert(walk::<B>(job, w0, lo as int, i + 1) == Ok::<Walk, &'static str>(after));
            assert forall|p: int|
                0 <= p < after.pending.len() && (#[trigger] after.pending[p]) is Some implies branch_ok(
                job,
                after.code.len() as int,
                p,
                after.pending[p]->0,
                i + 1,
                i + 1,
            ) by {
                assert(branch_ok(job, at.code.len() as int, p, at.pending[p]->0, i + 1, i + 1));
            }
        }
        i += 1;
    }
    proof {
        let w = Walk { code: code@, pool: backend.pool(), pending: pending@ };
        assert forall|p: int| 0 <= p < w.pending.len() implies (#[trigger] w.pending[p]) is None by {
            if w.pending[p] is Some {
                assert(branch_ok(
                    job,
                    w.code.len() as int,
                    p,
                    w.pending[p]->0,
                    hi as int,
                    hi as int,
                ));
                let r = arm_of(job.guards[p / 2], p % 2);
                assert(r.0 < hi && r.1 < hi);
            }
        }
    }
    Outcome::Done(())
}

/// No branch is left to be patched.
pub open spec fn all_patched(w: Walk) -> bool {
    forall|p: int| 0 <= p < w.pending.len() ==> (#[trigger] w.pending[p]) is None
}

/// The state before the first entry.
pub open spec fn start(job: Job, code: Seq<u8>, pool: Seq<u32>) -> Walk {
    Walk { code, pool, pending: Seq::new(2 * job.guards.len(), |p: int| None::<Branch>) }
}

/// Variables in their input registers.
pub open spec fn input_places(sched: Seq<(ValueId, ScheduledOp)>) -> Map<u32, Reg> {
    Map::new(
        |v: u32| (v as int) < sched.len() && sched[v as int].1 is Var,
        |v: u32| Reg(sched[v as int].1->Var_0),
    )
}

/// There is an input register for every variable.
pub open spec fn inputs_ok(sched: Seq<(ValueId, ScheduledOp)>) -> bool {
    forall|i: int| 0 <= i < sched.len() ==> ((#[trigger] sched[i]).1 matches ScheduledOp::Var(x) ==> x
        < 4)
}

/// Values kept on the stack, given those that are placed in advance.
pub open spec fn spills_of(
    sched: Seq<(ValueId, ScheduledOp)>,
    pre: Map<u32, Reg>,
    regs: u8,
) -> Seq<ValueId> {
    scan(sched, sched.len(), pre, regs as nat, SCRATCH_BASE as nat).spilled
}

/// Where values live, given those that are placed in advance.
pub open spec fn places_of(
    sched: Seq<(ValueId, ScheduledOp)>,
    pre: Map<u32, Reg>,
    regs: u8,
) -> Places {
    let st = scan(sched, sched.len(), pre, regs as nat, SCRATCH_BASE as nat);
    Places { regs: st.assigned, slots: slots_of(st.spilled), consts: st.remat }
}

/// A register, after those from `first` up to `end` are rotated up by `n`: the last
/// `n` come first, the others behind them.
pub open spec fn rotated_reg(r: Reg, first: u8, n: u8, end: u8) -> Reg {
    if !(first <= r.0 < end) {
        r
    } else if r.0 + n < end {
        Reg((r.0 + n) as u8)
    } else {
        Reg((r.0 + n - (end - first)) as u8)
    }
}

/// The registers of the first `count` values rotated.
pub open spec fn rotated(at: Places, first: u8, n: u8, end: u8, count: int) -> Places {
    Places {
        regs: Map::new(
            |v: u32| at.regs.contains_key(v),
            |v: u32|
                if v < count {
                    rotated_reg(at.regs[v], first, n, end)
                } else {
                    at.regs[v]
                },
        ),
        ..at
    }
}

/// The job of a schedule.
pub open spec fn job_of(
    sched: Seq<(ValueId, ScheduledOp)>,
    pre: Map<u32, Reg>,
    regs: u8,
    short_from: int,
) -> Job {
    Job { sched, guards: guards_of(sched), at: places_of(sched, pre, regs), short_from }
}

/// A schedule that can be compiled: numbered in order, and not empty.
pub open spec fn compilable(sched: Seq<(ValueId, ScheduledOp)>) -> bool {
    dense(sched) && 0 < sched.len() <= u32::MAX
}

/// There is a register to put values in, unless all are placed in advance.
pub open spec fn regs_ok(
    sched: Seq<(ValueId, ScheduledOp)>,
    pre: Map<u32, Reg>,
    regs: u8,
) -> bool {
    regs <= 252 && (regs > 0 || all_placed(sched, pre))
}

/// A compiled kernel.
#[verifier::ext_equal]
pub struct Kernel {
    /// Machine code.
    pub code: Seq<u8>,
    /// Number of values kept on the stack.
    pub spill_count: nat,
    /// Size of the stack frame in bytes.
    pub spill_bytes: nat,
}

/// The code of the root value and the epilogue behind the entries.
pub open spec fn concluded<B: IsaBackend>(job: Job, w: Walk) -> (Seq<u8>, Reg) {
    let root = job.sched.last().0;
    let tmp = B::reload_pair()[1];
    (fetch_code::<B>(w.code, w.pool, job.at, root, tmp), job.at.source(root, tmp))
}

/// The kernel of a schedule: prologue, entries, epilogue.
pub open spec fn kernel_of<B: IsaBackend>(sched: Seq<(ValueId, ScheduledOp)>, regs: u8) -> Result<
    Kernel,
    &'static str,
> {
    let job = job_of(sched, input_places(sched), regs, 0);
    let spills = spills_of(sched, input_places(sched), regs);
    let frame = (16 * spills.len()) as u32;
    if !inputs_ok(sched) {
        Err("variable index out of range")
    } else if spills.len() > MAX_SLOTS {
        Err("spill frame overflow: exceeds 2MB stack limit")
    } else {
        match B::begun(sched) {
            Err(e) => Err(e),
            Ok(pool) => {
                let (code, anchor) = B::entered(Seq::empty(), frame);
                match walk::<B>(job, start(job, code, pool), 0, sched.len() as int) {
                    Err(e) => Err(e),
                    Ok(w) => {
                        let (code, result) = concluded::<B>(job, w);
                        Ok(
                            Kernel {
                                code: B::finished(code, w.pool, anchor, result, frame),
                                spill_count: slots_of(spills).len(),
                                spill_bytes: 16 * spills.len(),
                            },
                        )
                    },
                }
            },
        }
    }
}

/// The kernel can be emitted: there are registers, the machine knows the
/// operations, and all branches and constants are in reach.
pub open spec fn kernel_safe<B: IsaBackend>(
    sched: Seq<(ValueId, ScheduledOp)>,
    regs: u8,
) -> bool {
    let job = job_of(sched, input_places(sched), regs, 0);
    let spills = spills_of(sched, input_places(sched), regs);
    let frame = (16 * spills.len()) as u32;
    inputs_ok(sched) ==> {
        &&& regs_ok(sched, input_places(sched), regs)
        &&& spills.len() <= MAX_SLOTS ==> (B::begun(sched) matches Ok(pool) ==> {
            let (code, anchor) = B::entered(Seq::empty(), frame);
            let w0 = start(job, code, pool);
            &&& safe_walk::<B>(job, w0, 0, sched.len() as int)
            &&& walk::<B>(job, w0, 0, sched.len() as int) matches Ok(w) ==> {
                let (code, result) = concluded::<B>(job, w);
                B::can_finish(code, w.pool, anchor, result, frame)
            }
        })
    }
}

/// Compile result with metadata.
#[derive(Debug)]
pub struct CompileResult {
    /// The machine code.
    pub code: Vec<u8>,
    /// Number of values kept on the stack.
    pub spill_count: u32,
    /// Stack bytes used for them.
    pub spill_bytes: u32,
    /// Register budget that was used.
    pub max_regs: u8,
}

impl View for CompileResult {
    type V = Kernel;

    open spec fn view(&self) -> Kernel {
        Kernel {
            code: self.code@,
            spill_count: self.spill_count as nat,
            spill_bytes: self.spill_bytes as nat,
        }
    }
}

/// Put the variables of a schedule in their input registers.
pub(crate) fn place_inputs(schedule: &Vec<(ValueId, ScheduledOp)>) -> (r: Result<
    BTreeMap<u32, Reg>,
    &'static str,
>)
    requires
        dense(schedule@),
        schedule@.len() <= u32::MAX,
    ensures
        match r {
            Ok(m) => inputs_ok(schedule@) && m@ == input_places(schedule@),
            Err(e) => !inputs_ok(schedule@) && e == "variable index out of range",
        },
{
    let ghost sched = schedule@;
    let mut m: BTreeMap<u32, Reg> = BTreeMap::new();
    let mut i: usize = 0;
    while i < schedule.len()
        invariant
            i <= schedule@.len(),
            sched == schedule@,
            sched.len() <= u32::MAX,
            dense(sched),
            forall|k: int|
                0 <= k < i ==> ((#[trigger] sched[k]).1 matches ScheduledOp::Var(x) ==> x < 4),
            forall|v: u32| #[trigger]
                m@.contains_key(v) <==> ((v as int) < i && sched[v as int].1 is Var),
            forall|v: u32| #[trigger]
                m@.contains_key(v) ==> m@[v] == Reg(sched[v as int].1->Var_0),
        decreases schedule@.len() - i,
    {
        let entry: (ValueId, ScheduledOp) = schedule[i];
        assert(entry_ok(sched[i as int], i as int));
        if let ScheduledOp::Var(x) = entry.1 {
            if x as usize >= INPUT_REGS.len() {
                assert(sched[i as int].1 == ScheduledOp::Var(x));
                return Err("variable index out of range");
            }
            m.insert((entry.0).0, Reg(INPUT_REGS[x as usize]));
        }
        i += 1;
    }
    assert(m@ =~= input_places(sched));
    Ok(m)
}

/// Every value is placed in advance.
pub open spec fn all_placed(sched: Seq<(ValueId, ScheduledOp)>, pre: Map<u32, Reg>) -> bool {
    forall|i: int| 0 <= i < sched.len() ==> pre.contains_key((#[trigger] sched[i]).0.0)
}

/// Place the values of a schedule and lay out the frame. Returns where they
/// live and the size of the frame.
pub(crate) fn place_values(
    schedule: &Vec<(ValueId, ScheduledOp)>,
    uses_map: &Vec<Vec<ValueId>>,
    precolored: &BTreeMap<u32, Reg>,
    regs: u8,
) -> (r: Result<(Homes, u32), &'static str>)
    requires
        compilable(schedule@),
        regs_ok(schedule@, precolored@, regs),
    ensures
        ({
            let spills = spills_of(schedule@, precolored@, regs);
            match r {
                Ok(x) => {
                    &&& spills.len() <= MAX_SLOTS
                    &&& x.1 == 16 * spills.len()
                    &&& x.0.wf(schedule@.len() as int)
                    &&& x.0.places() == places_of(schedule@, precolored@, regs)
                },
                Err(e) => spills.len() > MAX_SLOTS && e
                    == "spill frame overflow: exceeds 2MB stack limit",
            }
        }),
{
    let n: usize = schedule.len();
    proof {
        dense_schedules_are_single_assignment(schedule@);
        assert forall|i: int| 0 <= i < schedule@.len() implies (#[trigger] schedule@[i]).0.0
            < usize::MAX by {
            assert(entry_ok(schedule@[i], i));
        }
    }
    let allocation = linear_scan(
        schedule.as_slice(),
        uses_map.as_slice(),
        precolored,
        regs,
        SCRATCH_BASE,
    );
    let layout: FrameLayout = match FrameLayout::from_allocation(allocation.spilled.as_slice()) {
        Ok(l) => l,
        Err(e) => return Err(e),
    };
    let ghost at = places_of(schedule@, precolored@, regs);
    let mut reg_for: Vec<Option<Reg>> = Vec::new();
    let mut spill_for: Vec<Option<u32>> = Vec::new();
    let mut remat_for: Vec<Option<u32>> = Vec::new();
    let mut v: u32 = 0;
    while (v as usize) < n
        invariant
            v <= n,
            n <= u32::MAX,
            reg_for@.len() == v,
            spill_for@.len() == v,
            remat_for@.len() == v,
            allocation.assignment@ == at.regs,
            layout.spill_slots@ == at.slots,
            allocation.rematerialize@ == at.consts,
            forall|k: int|
                0 <= k < v ==> #[trigger] listed(reg_for@, spill_for@, remat_for@, at, k),
        decreases n - v,
    {
        let ghost (a, b, c) = (reg_for@, spill_for@, remat_for@);
        reg_for.push(
            match allocation.assignment.get(&v) {
                Some(r) => Some(*r),
                None => None,
            },
        );
        spill_for.push(
            match layout.spill_slots.get(&v) {
                Some(o) => Some(*o),
                None => None,
            },
        );
        remat_for.push(
            match allocation.rematerialize.get(&v) {
                Some(b) => Some(*b),
                None => None,
            },
        );
        proof {
            assert forall|k: int| 0 <= k < v + 1 implies #[trigger] listed(
                reg_for@,
                spill_for@,
                remat_for@,
                at,
                k,
            ) by {
                if k < v {
                    assert(listed(a, b, c, at, k));
                }
            }
        }
        v += 1;
    }
    let homes = Homes {
        assignment: allocation.assignment,
        spill_slots: layout.spill_slots,
        rematerialize: allocation.rematerialize,
        reg_for,
        spill_for,
        remat_for,
    };
    Ok((homes, layout.frame_size))
}

/// The job of a compilable schedule is put together right.
pub proof fn lemma_job_ok(
    sched: Seq<(ValueId, ScheduledOp)>,
    pre: Map<u32, Reg>,
    regs: u8,
    short_from: int,
)
    requires
        compilable(sched),
        sched.len() <= usize::MAX,
        regs_ok(sched, pre, regs),
        spills_of(sched, pre, regs).len() <= MAX_SLOTS,
    ensures
        job_ok(job_of(sched, pre, regs, short_from)),
        arms_end_before(guards_of(sched), sched.len() as int),
{
    lemma_guards_fit(sched);
    assert forall|p: int| 0 <= p < 2 * guards_of(sched).len() implies {
        let r = #[trigger] arm_of(guards_of(sched)[p / 2], p % 2);
        r.0 < sched.len() && r.0 != r.1 ==> r.1 < sched.len()
    } by {
        assert(guard_fits(sched.len() as int, guards_of(sched)[p / 2]));
    }
    let job = job_of(sched, pre, regs, short_from);
    let st = scan(sched, sched.len(), pre, regs as nat, SCRATCH_BASE as nat);
    dense_schedules_are_single_assignment(sched);
    scan_places_each_value_once(sched, pre, regs as nat, SCRATCH_BASE as nat);
    lemma_slot_count(st.spilled);
    assert forall|v: ValueId| v.0 < job.sched.len() implies #[trigger] job.at.holds(v) by {
        assert(entry_ok(sched[v.0 as int], v.0 as int));
        assert(placed_once(st, sched[v.0 as int].0));
        assert(sched[v.0 as int].0 == v);
    }
    assert forall|v: u32| #[trigger] job.at.slots.contains_key(v) implies slot(job.at.slots[v]) by {
        lemma_slot_bound(st.spilled, v);
    }
}

/// The outcome is the kernel or error `k`, compiled with `regs` registers.
pub open spec fn delivers(r: Outcome<CompileResult>, k: Outcome<Kernel>, regs: u8) -> bool {
    match k {
        Outcome::Done(k) => r matches Outcome::Done(c) && c@ == k && c.max_regs == regs,
        Outcome::Fail(e) => r matches Outcome::Fail(f) && f == e,
        Outcome::Refused => r is Refused,
    }
}

/// Is there a register to put values in?
pub(crate) fn registers_suffice(
    schedule: &Vec<(ValueId, ScheduledOp)>,
    precolored: &BTreeMap<u32, Reg>,
    regs: u8,
) -> (b: bool)
    ensures
        b == regs_ok(schedule@, precolored@, regs),
{
    if regs > 252 {
        return false;
    }
    if regs > 0 {
        return true;
    }
    let mut i: usize = 0;
    while i < schedule.len()
        invariant
            i <= schedule@.len(),
            regs == 0,
            forall|k: int|
                0 <= k < i ==> precolored@.contains_key((#[trigger] schedule@[k]).0.0),
        decreases schedule@.len() - i,
    {
        let v: u32 = (schedule[i].0).0;
        if !precolored.contains_key(&v) {
            assert(!precolored@.contains_key(schedule@[i as int].0.0));
            return false;
        }
        i += 1;
    }
    true
}

/// Drive a schedule to machine code, if its kernel can be emitted. The backend is
/// left alone if a variable is out of range or the frame exceeds its limit.
pub fn try_compile_dag<B: IsaBackend>(
    schedule: Vec<(ValueId, ScheduledOp)>,
    uses_map: Vec<Vec<ValueId>>,
    backend: &mut B,
) -> (r: Outcome<CompileResult>)
    requires
        old(backend).valid(),
        compilable(schedule@),
    ensures
        delivers(
            r,
            outcome_of(
                kernel_safe::<B>(schedule@, old(backend).budget()),
                kernel_of::<B>(schedule@, old(backend).budget()),
            ),
            old(backend).budget(),
        ),
        !inputs_ok(schedule@) ==> *final(backend) == *old(backend),
        spills_of(schedule@, input_places(schedule@), old(backend).budget()).len() > MAX_SLOTS
            ==> *final(backend) == *old(backend),
{
    let ghost sched = schedule@;
    let precolored: BTreeMap<u32, Reg> = match place_inputs(&schedule) {
        Ok(m) => m,
        Err(e) => return Outcome::Fail(e),
    };
    let regs: u8 = backend.num_regs();
    if !registers_suffice(&schedule, &precolored, regs) {
        return Outcome::Refused;
    }
    let (homes, frame_size) = match place_values(&schedule, &uses_map, &precolored, regs) {
        Ok(x) => x,
        Err(e) => return Outcome::Fail(e),
    };
    let guards: Vec<SelectGuard> = analyze_select_guards(schedule.as_slice());
    let ghost job = job_of(sched, precolored@, regs, 0);
    let ghost spills = spills_of(sched, precolored@, regs);
    proof {
        assert(schedule.len() == sched.len());
        lemma_job_ok(sched, precolored@, regs, 0);
        lemma_slot_count(spills);
    }
    if let Err(e) = backend.begin(schedule.as_slice()) {
        return Outcome::Fail(e);
    }
    let mut code: Vec<u8> = Vec::new();
    assert(code@ =~= Seq::<u8>::empty());
    backend.prologue(&mut code, frame_size);
    let ghost entered = B::entered(Seq::empty(), frame_size);
    let n: usize = schedule.len();
    match emit_entries(backend, &mut code, &schedule, &guards, &homes, 0, 0, n, Ghost(job)) {
        Outcome::Done(()) => {},
        Outcome::Fail(e) => return Outcome::Fail(e),
        Outcome::Refused => return Outcome::Refused,
    }
    let last: usize = schedule.len() - 1;
    let root: ValueId = schedule[last].0;
    proof {
        assert(entry_ok(sched[last as int], last as int));
        assert(fetchable::<B>(job.at, root));
    }
    let tmp: Reg = B::reload_regs()[1];
    let result_reg: Reg = homes.fetch(backend, &mut code, root, tmp, Ghost(sched.len() as int));
    if !backend.epilogue(&mut code, result_reg, frame_size) {
        return Outcome::Refused;
    }
    let spill_count: usize = homes.spill_count();
    Outcome::Done(
        CompileResult {
            code,
            spill_count: spill_count as u32,
            spill_bytes: frame_size,
            max_regs: regs,
        },
    )
}

/// Drive a schedule to machine code. The backend is left alone if a variable is out
/// of range or the frame exceeds its limit.
pub fn compile_dag_via_backend<B: IsaBackend>(
    schedule: Vec<(ValueId, ScheduledOp)>,
    uses_map: Vec<Vec<ValueId>>,
    backend: &mut B,
) -> (r: Result<CompileResult, &'static str>)
    requires
        old(backend).valid(),
        compilable(schedule@),
        kernel_safe::<B>(schedule@, old(backend).budget()),
    ensures
        match kernel_of::<B>(schedule@, old(backend).budget()) {
            Ok(k) => r matches Ok(c) && c@ == k && c.max_regs == old(backend).budget(),
            Err(e) => r matches Err(f) && f == e,
        },
        !inputs_ok(schedule@) ==> *final(backend) == *old(backend),
        spills_of(schedule@, input_places(schedule@), old(backend).budget()).len() > MAX_SLOTS
            ==> *final(backend) == *old(backend),
{
    try_compile_dag(schedule, uses_map, backend).into_result()
}

} // verus!
