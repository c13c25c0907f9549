//! What a schedule's plans compute, one after the other.

use crate::arena::link::{lemma_reaches_kid, rank, rank_keeps_order, reaches};
use crate::arena::model::{lemma_term_kids, ArenaModel, Head, Term};
use crate::arena::{ExprId, ExprNode};
use crate::backend::emit::driver::{
    compilable, input_places, inputs_ok, places_of, regs_ok, spills_of,
};
use crate::backend::emit::kernels::tree::{inputs_in, right_first, tree_of};
use crate::backend::emit::plan::meaning::{
    lives_in, plans_compute_their_operation, untangled, Algebra, Machine,
};
use crate::backend::emit::plan::{
    dst_reg, frame_slots_are_apart, lemma_slot_bound, lemma_slot_count, plan_of, Loc, Places, Plan,
    MAX_SLOTS,
};
use crate::backend::emit::regalloc::linear::{
    lemma_const_of, lemma_last_use, last_use, placed_once, scan, scan_keeps_live_values_apart,
    scan_places_each_value_once,
};
use crate::backend::emit::regalloc::ValueId;
use crate::backend::emit::schedule::{
    dense_schedules_are_single_assignment, entry_ok, lemma_rank_after_root, node_schedulable,
    ranked, schedulable, schedule_of, scheduled_op, schedules_are_dense, shift_amount, ScheduledOp,
};
use crate::backend::emit::{Reg, SCRATCH_BASE};
use crate::kind::OpKind;
use crate::variance::mentions;
use vstd::prelude::*;

verus! {

/// The plan of entry `k`.
pub open spec fn step_plan(
    sched: Seq<(ValueId, ScheduledOp)>,
    at: Places,
    reload: [Reg; 2],
    k: int,
) -> Result<Plan, &'static str> {
    plan_of(sched[k].1, at.destination(sched[k].0, reload[0]), at, reload)
}

/// The machine after the plans of the first `k` entries.
pub open spec fn ran(
    alg: Algebra,
    m: Machine,
    sched: Seq<(ValueId, ScheduledOp)>,
    at: Places,
    reload: [Reg; 2],
    k: int,
) -> Machine
    decreases k,
{
    if k <= 0 {
        m
    } else {
        let before = ran(alg, m, sched, at, reload, k - 1);
        match step_plan(sched, at, reload, k - 1) {
            Ok(p) => alg.plan(before, p),
            Err(_) => before,
        }
    }
}

/// What the plan of each value leaves in its destination register.
pub open spec fn computed(
    alg: Algebra,
    m: Machine,
    sched: Seq<(ValueId, ScheduledOp)>,
    at: Places,
    reload: [Reg; 2],
) -> spec_fn(ValueId) -> int {
    |v: ValueId|
        ran(alg, m, sched, at, reload, v.0 + 1).regs[dst_reg(
            at.destination(v, reload[0]),
            reload[0],
        )]
}

/// The reload registers are two, beyond those that values are put in.
pub open spec fn reloads_beyond(reload: [Reg; 2], regs: u8) -> bool {
    reload[0] != reload[1] && reload[0].0 >= SCRATCH_BASE + regs && reload[1].0 >= SCRATCH_BASE
        + regs
}

/// Every entry has a plan.
pub open spec fn planned(
    sched: Seq<(ValueId, ScheduledOp)>,
    at: Places,
    reload: [Reg; 2],
) -> bool {
    forall|k: int|
        0 <= k < sched.len() ==> (#[trigger] step_plan(sched, at, reload, k)) is Ok
}

/// The schedule can be compiled with this many registers, and every entry has a
/// plan.
pub open spec fn runnable(
    sched: Seq<(ValueId, ScheduledOp)>,
    regs: u8,
    reload: [Reg; 2],
) -> bool {
    let at = places_of(sched, input_places(sched), regs);
    &&& compilable(sched)
    &&& inputs_ok(sched)
    &&& regs_ok(sched, input_places(sched), regs)
    &&& spills_of(sched, input_places(sched), regs).len() <= MAX_SLOTS
    &&& reloads_beyond(reload, regs)
    &&& planned(sched, at, reload)
}

/// Where entry `d` lives: one place, which for a variable is its input register.
pub(crate) open spec fn home_ok(sched: Seq<(ValueId, ScheduledOp)>, at: Places, regs: u8, d: int) -> bool {
    let v = sched[d].0;
    &&& v == ValueId(d as u32)
    &&& at.holds(v)
    &&& sched[d].1 matches ScheduledOp::Var(x) ==> at.regs.contains_key(v.0) && at.regs[v.0] == Reg(
        x,
    ) && x < 4
    &&& !(sched[d].1 is Var) && at.regs.contains_key(v.0) ==> SCRATCH_BASE <= at.regs[v.0].0
        < SCRATCH_BASE + regs
    &&& at.regs.contains_key(v.0) ==> !at.slots.contains_key(v.0) && !at.consts.contains_key(v.0)
    &&& at.slots.contains_key(v.0) ==> !at.consts.contains_key(v.0)
    &&& at.consts.contains_key(v.0) ==> sched[d].1 == ScheduledOp::Const(at.consts[v.0])
}

pub(crate) proof fn lemma_home(sched: Seq<(ValueId, ScheduledOp)>, regs: u8, d: int)
    requires
        compilable(sched),
        inputs_ok(sched),
        regs_ok(sched, input_places(sched), regs),
        spills_of(sched, input_places(sched), regs).len() <= MAX_SLOTS,
        0 <= d < sched.len(),
    ensures
        home_ok(sched, places_of(sched, input_places(sched), regs), regs, d),
{
    let pre = input_places(sched);
    let at = places_of(sched, pre, regs);
    let st = scan(sched, sched.len(), pre, regs as nat, SCRATCH_BASE as nat);
    dense_schedules_are_single_assignment(sched);
    scan_places_each_value_once(sched, pre, regs as nat, SCRATCH_BASE as nat);
    scan_keeps_live_values_apart(sched, pre, regs as nat, SCRATCH_BASE as nat);
    lemma_slot_count(st.spilled);
    assert(entry_ok(sched[d], d));
    let v = sched[d].0;
    assert(v.0 == d);
    assert(ValueId(v.0) == v);
    assert(placed_once(st, v));
    if at.slots.contains_key(v.0) {
        lemma_slot_bound(st.spilled, v.0);
        let i = choose|i: int| 0 <= i < st.spilled.len() && #[trigger] st.spilled[i].0 == v.0;
        assert(st.spilled[i] == v);
        assert(st.spilled.contains(v));
    }
    lemma_const_of(sched, d);
    if sched[d].1 is Var {
        assert(pre.contains_key(v.0));
    } else {
        assert(!pre.contains_key(v.0));
    }
}

/// A value still to be read when entry `i` is computed does not live where the
/// result of `i` goes.
pub(crate) proof fn lemma_apart(
    sched: Seq<(ValueId, ScheduledOp)>,
    regs: u8,
    reload: [Reg; 2],
    d: int,
    i: int,
)
    requires
        compilable(sched),
        inputs_ok(sched),
        regs_ok(sched, input_places(sched), regs),
        spills_of(sched, input_places(sched), regs).len() <= MAX_SLOTS,
        reloads_beyond(reload, regs),
        0 <= d < i < sched.len(),
        last_use(sched, sched[d].0) >= i,
        !(sched[i].1 is Var),
    ensures
        ({
            let at = places_of(sched, input_places(sched), regs);
            let v = sched[d].0;
            let w = sched[i].0;
            let dst = dst_reg(at.destination(w, reload[0]), reload[0]);
            &&& !lives_in(at, v, dst)
            &&& !lives_in(at, v, reload[0])
            &&& !lives_in(at, v, reload[1])
            &&& dst != reload[1]
            &&& dst.0 >= 4
            &&& at.slots.contains_key(v.0) && at.slots.contains_key(w.0) ==> at.slots[v.0]
                != at.slots[w.0]
        }),
{
    let pre = input_places(sched);
    let at = places_of(sched, pre, regs);
    let st = scan(sched, sched.len(), pre, regs as nat, SCRATCH_BASE as nat);
    let v = sched[d].0;
    let w = sched[i].0;
    dense_schedules_are_single_assignment(sched);
    lemma_home(sched, regs, d);
    lemma_home(sched, regs, i);
    scan_places_each_value_once(sched, pre, regs as nat, SCRATCH_BASE as nat);
    scan_keeps_live_values_apart(sched, pre, regs as nat, SCRATCH_BASE as nat);
    assert(!pre.contains_key(w.0));
    if sched[d].1 is Var {
        assert(at.regs[v.0].0 < 4);
    } else {
        assert(!pre.contains_key(v.0));
        if at.regs.contains_key(v.0) && at.regs.contains_key(w.0) {
            assert(st.assigned[sched[d].0.0] != st.assigned[sched[i].0.0]);
        }
    }
    if at.slots.contains_key(v.0) && at.slots.contains_key(w.0) {
        frame_slots_are_apart(st.spilled);
        lemma_slot_bound(st.spilled, v.0);
        lemma_slot_bound(st.spilled, w.0);
        let p = choose|p: int| 0 <= p < st.spilled.len() && #[trigger] st.spilled[p].0 == v.0;
        let q = choose|q: int| 0 <= q < st.spilled.len() && #[trigger] st.spilled[q].0 == w.0;
        assert(p != q);
        assert(at.slots[st.spilled[p].0] != at.slots[st.spilled[q].0]);
    }
}

/// Entry `d` lives in one place, which for a variable is its input register, and
/// not where values are loaded.
pub open spec fn homed(
    sched: Seq<(ValueId, ScheduledOp)>,
    at: Places,
    reload: [Reg; 2],
    d: int,
) -> bool {
    let v = sched[d].0;
    &&& at.holds(v)
    &&& sched[d].1 matches ScheduledOp::Var(x) ==> at.regs.contains_key(v.0) && at.regs[v.0] == Reg(
        x,
    ) && x < 4
    &&& at.regs.contains_key(v.0) ==> at.regs[v.0] != reload[0] && at.regs[v.0] != reload[1]
    &&& !(sched[d].1 is Var) && at.regs.contains_key(v.0) ==> at.regs[v.0].0 >= 4
    &&& at.regs.contains_key(v.0) ==> !at.slots.contains_key(v.0) && !at.consts.contains_key(v.0)
    &&& at.slots.contains_key(v.0) ==> !at.consts.contains_key(v.0)
    &&& at.consts.contains_key(v.0) ==> sched[d].1 == ScheduledOp::Const(at.consts[v.0])
}

/// The register the result of entry `i` is computed in.
pub open spec fn target(
    sched: Seq<(ValueId, ScheduledOp)>,
    at: Places,
    reload: [Reg; 2],
    i: int,
) -> Reg {
    dst_reg(at.destination(sched[i].0, reload[0]), reload[0])
}

/// Entry `d` does not live where the result of entry `i` goes.
pub open spec fn apart(
    sched: Seq<(ValueId, ScheduledOp)>,
    at: Places,
    reload: [Reg; 2],
    d: int,
    i: int,
) -> bool {
    let v = sched[d].0;
    let w = sched[i].0;
    &&& !lives_in(at, v, target(sched, at, reload, i))
    &&& at.slots.contains_key(v.0) && at.slots.contains_key(w.0) ==> at.slots[v.0]
        != at.slots[w.0]
}

/// Every value lives somewhere, and apart from the results computed while it is
/// still to be read.
pub open spec fn settled(
    sched: Seq<(ValueId, ScheduledOp)>,
    at: Places,
    reload: [Reg; 2],
) -> bool {
    &&& reload[0] != reload[1]
    &&& reload[0].0 >= 4
    &&& reload[1].0 >= 4
    &&& forall|d: int| 0 <= d < sched.len() ==> #[trigger] homed(sched, at, reload, d)
    &&& forall|d: int, i: int|
        0 <= d < i < sched.len() && last_use(sched, sched[d].0) >= i && !(sched[i].1 is Var)
            ==> #[trigger] apart(sched, at, reload, d, i)
}

/// Nothing is computed in or loaded into register `r` from entry `lo` on.
pub open spec fn idle(
    sched: Seq<(ValueId, ScheduledOp)>,
    at: Places,
    reload: [Reg; 2],
    lo: int,
    r: Reg,
) -> bool {
    &&& r != reload[0]
    &&& r != reload[1]
    &&& forall|i: int|
        lo <= i < sched.len() && !(sched[i].1 is Var) ==> #[trigger] target(sched, at, reload, i)
            != r
}

/// The placement that linear scan gives is settled.
pub(crate) proof fn lemma_settled(
    sched: Seq<(ValueId, ScheduledOp)>,
    regs: u8,
    reload: [Reg; 2],
)
    requires
        runnable(sched, regs, reload),
    ensures
        settled(sched, places_of(sched, input_places(sched), regs), reload),
{
    let at = places_of(sched, input_places(sched), regs);
    assert forall|d: int| 0 <= d < sched.len() implies #[trigger] homed(sched, at, reload, d) by {
        lemma_home(sched, regs, d);
    }
    assert forall|d: int, i: int|
        0 <= d < i < sched.len() && last_use(sched, sched[d].0) >= i && !(sched[i].1 is Var) implies #[trigger] apart(
        sched,
        at,
        reload,
        d,
        i,
    ) by {
        lemma_apart(sched, regs, reload, d, i);
    }
}

/// What holds after the first `k` entries.
spec fn ran_ok(
    alg: Algebra,
    m: Machine,
    sched: Seq<(ValueId, ScheduledOp)>,
    at: Places,
    reload: [Reg; 2],
    k: int,
) -> bool {
    let now = ran(alg, m, sched, at, reload, k);
    let val = computed(alg, m, sched, at, reload);
    &&& forall|d: int|
        0 <= d < k && (last_use(sched, (#[trigger] sched[d]).0) >= k || d == k - 1)
            ==> alg.at_home(now, at, sched[d].0, val(sched[d].0))
    &&& forall|d: int|
        0 <= d < k ==> alg.is_result((#[trigger] sched[d]).1, val, val(sched[d].0)) && (
        sched[d].1 matches ScheduledOp::Var(x) ==> val(sched[d].0) == m.regs[Reg(x)])
    &&& forall|r: Reg| #[trigger] idle(sched, at, reload, 0, r) ==> now.regs[r] == m.regs[r]
}

/// What the first entries compute.
proof fn lemma_ran(
    alg: Algebra,
    m: Machine,
    sched: Seq<(ValueId, ScheduledOp)>,
    at: Places,
    reload: [Reg; 2],
    k: int,
)
    requires
        compilable(sched),
        settled(sched, at, reload),
        planned(sched, at, reload),
        0 <= k <= sched.len(),
    ensures
        ran_ok(alg, m, sched, at, reload, k),
    decreases k,
{
    if k > 0 {
        lemma_ran(alg, m, sched, at, reload, k - 1);
        let i = k - 1;
        let before = ran(alg, m, sched, at, reload, i);
        let now = ran(alg, m, sched, at, reload, k);
        let val = computed(alg, m, sched, at, reload);
        assert(homed(sched, at, reload, i));
        assert(entry_ok(sched[i], i));
        assert(step_plan(sched, at, reload, i) is Ok);
        if let ScheduledOp::Var(x) = sched[i].1 {
            reveal_with_fuel(Algebra::reloads, 2);
            assert(now == before);
            assert(idle(sched, at, reload, 0, Reg(x))) by {
                lemma_inputs_idle(sched, at, reload, 0, Reg(x));
            }
            assert(before.regs[Reg(x)] == m.regs[Reg(x)]);
            assert forall|d: int|
                0 <= d < k && (last_use(sched, (#[trigger] sched[d]).0) >= k || d == k
                    - 1) implies alg.at_home(now, at, sched[d].0, val(sched[d].0)) by {
                if d < i {
                    assert(last_use(sched, sched[d].0) >= i);
                }
            }
        } else {
            lemma_step(alg, m, sched, at, reload, i);
        }
    }
}

/// Input registers are never written.
pub(crate) proof fn lemma_inputs_idle(
    sched: Seq<(ValueId, ScheduledOp)>,
    at: Places,
    reload: [Reg; 2],
    lo: int,
    r: Reg,
)
    requires
        settled(sched, at, reload),
        0 <= lo,
        r.0 < 4,
    ensures
        idle(sched, at, reload, lo, r),
{
    assert forall|i: int| lo <= i < sched.len() && !(sched[i].1 is Var) implies #[trigger] target(
        sched,
        at,
        reload,
        i,
    ) != r by {
        assert(homed(sched, at, reload, i));
    }
}

/// A result is one for any values that agree on the operands.
pub(crate) proof fn lemma_same_operands(
    alg: Algebra,
    op: ScheduledOp,
    a: spec_fn(ValueId) -> int,
    b: spec_fn(ValueId) -> int,
    x: int,
)
    requires
        alg.is_result(op, a, x),
        forall|v: ValueId| #[trigger] op.reads(v) ==> a(v) == b(v),
    ensures
        alg.is_result(op, b, x),
{
    match op {
        ScheduledOp::Unary(_, p) => {
            assert(op.reads(p));
        },
        ScheduledOp::ShiftImm(_, p, _) => {
            assert(op.reads(p));
        },
        ScheduledOp::Binary(_, p, q) => {
            assert(op.reads(p) && op.reads(q));
        },
        ScheduledOp::Ternary(_, p, q, r) => {
            assert(op.reads(p) && op.reads(q) && op.reads(r));
        },
        _ => {},
    }
}

/// The plan of an entry that is no variable, on a machine that has the operands
/// where they live: the result ends up where it lives, and nothing else changes
/// but the reload registers.
pub(crate) proof fn lemma_plan_step(
    alg: Algebra,
    before: Machine,
    sched: Seq<(ValueId, ScheduledOp)>,
    at: Places,
    reload: [Reg; 2],
    i: int,
    val: spec_fn(ValueId) -> int,
)
    requires
        compilable(sched),
        settled(sched, at, reload),
        planned(sched, at, reload),
        0 <= i < sched.len(),
        !(sched[i].1 is Var),
        forall|v: ValueId| #[trigger]
            sched[i].1.reads(v) ==> alg.at_home(before, at, v, val(v)),
    ensures
        ({
            let after = alg.plan(before, step_plan(sched, at, reload, i)->Ok_0);
            let loc = at.destination(sched[i].0, reload[0]);
            let dst = dst_reg(loc, reload[0]);
            &&& alg.is_result(sched[i].1, val, after.regs[dst])
            &&& alg.at_home(after, at, sched[i].0, after.regs[dst])
            &&& loc matches Loc::Spill(offset) ==> after.stack == before.stack.insert(
                offset,
                after.regs[dst],
            )
            &&& loc is Reg ==> after.stack == before.stack
            &&& forall|r: Reg|
                r != dst && r != reload[0] && r != reload[1] ==> #[trigger] after.regs[r]
                    == before.regs[r]
        }),
{
    let op = sched[i].1;
    let w = sched[i].0;
    let loc = at.destination(w, reload[0]);
    let dst = dst_reg(loc, reload[0]);
    assert(homed(sched, at, reload, i));
    assert(entry_ok(sched[i], i));
    assert(step_plan(sched, at, reload, i) is Ok);
    assert(dst != reload[1] && dst.0 >= 4);
    assert forall|v: ValueId| #[trigger] op.reads(v) implies !lives_in(at, v, reload[0])
        && !lives_in(at, v, reload[1]) && !lives_in(at, v, dst) && at.holds(v) by {
        let d = v.0 as int;
        assert(0 <= d < i);
        assert(entry_ok(sched[d], d));
        assert(sched[d].0 == v);
        lemma_last_use(sched, i, v);
        assert(homed(sched, at, reload, d));
        assert(apart(sched, at, reload, d, i));
    }
    assert(untangled(op, dst, at)) by {
        match op {
            ScheduledOp::Ternary(_, a, b, c) => {
                assert(op.reads(a) && op.reads(b) && op.reads(c));
            },
            _ => {},
        }
    }
    plans_compute_their_operation(alg, before, op, loc, at, reload, val);
    if at.consts.contains_key(w.0) {
        assert(op == ScheduledOp::Const(at.consts[w.0]));
    }
}

/// One entry that is no variable.
#[verifier::spinoff_prover]
proof fn lemma_step(
    alg: Algebra,
    m: Machine,
    sched: Seq<(ValueId, ScheduledOp)>,
    at: Places,
    reload: [Reg; 2],
    i: int,
)
    requires
        compilable(sched),
        settled(sched, at, reload),
        planned(sched, at, reload),
        0 <= i < sched.len(),
        !(sched[i].1 is Var),
        ran_ok(alg, m, sched, at, reload, i),
    ensures
        ran_ok(alg, m, sched, at, reload, i + 1),
{
    let before = ran(alg, m, sched, at, reload, i);
    let now = ran(alg, m, sched, at, reload, i + 1);
    let val = computed(alg, m, sched, at, reload);
    let op = sched[i].1;
    let w = sched[i].0;
    let dst = target(sched, at, reload, i);
    assert(entry_ok(sched[i], i));
    assert(step_plan(sched, at, reload, i) is Ok);
    assert(val(w) == now.regs[dst]);
    assert forall|v: ValueId| #[trigger] op.reads(v) implies alg.at_home(
        before,
        at,
        v,
        val(v),
    ) by {
        let d = v.0 as int;
        assert(0 <= d < i);
        assert(entry_ok(sched[d], d));
        assert(sched[d].0 == v);
        lemma_last_use(sched, i, v);
    }
    lemma_plan_step(alg, before, sched, at, reload, i, val);
    assert forall|d: int|
        0 <= d < i + 1 && (last_use(sched, (#[trigger] sched[d]).0) >= i + 1 || d
            == i) implies alg.at_home(now, at, sched[d].0, val(sched[d].0)) by {
        if d < i {
            let v = sched[d].0;
            assert(last_use(sched, v) >= i);
            assert(alg.at_home(before, at, v, val(v)));
            assert(homed(sched, at, reload, d));
            assert(homed(sched, at, reload, i));
            assert(apart(sched, at, reload, d, i));
            if at.regs.contains_key(v.0) {
                let r = at.regs[v.0];
                assert(r != dst && r != reload[0] && r != reload[1]);
                assert(now.regs[r] == before.regs[r]);
            }
        }
    }
    assert forall|r: Reg| #[trigger] idle(sched, at, reload, 0, r) implies now.regs[r]
        == m.regs[r] by {
        assert(target(sched, at, reload, i) != r);
        assert(before.regs[r] == m.regs[r]);
    }
}

/// The plans of a schedule, run one after the other with the placement that
/// linear scan gives, compute every entry from the entries it reads, and leave
/// the last one where it lives. Variables are what their input registers hold.
pub proof fn plans_compute_the_schedule(
    alg: Algebra,
    m: Machine,
    sched: Seq<(ValueId, ScheduledOp)>,
    regs: u8,
    reload: [Reg; 2],
)
    requires
        runnable(sched, regs, reload),
    ensures
        ({
            let at = places_of(sched, input_places(sched), regs);
            let val = computed(alg, m, sched, at, reload);
            &&& forall|k: int|
                0 <= k < sched.len() ==> alg.is_result(
                    (#[trigger] sched[k]).1,
                    val,
                    val(sched[k].0),
                )
            &&& forall|k: int|
                0 <= k < sched.len() ==> ((#[trigger] sched[k]).1 matches ScheduledOp::Var(x)
                    ==> val(sched[k].0) == m.regs[Reg(x)])
            &&& alg.at_home(
                ran(alg, m, sched, at, reload, sched.len() as int),
                at,
                sched.last().0,
                val(sched.last().0),
            )
        }),
{
    let at = places_of(sched, input_places(sched), regs);
    lemma_settled(sched, regs, reload);
    lemma_ran(alg, m, sched, at, reload, sched.len() as int);
}

impl Algebra {
    /// The values of an expression. There may be more than one, since a
    /// multiply-add may be rounded once or twice. With `shifts`, a shift takes its
    /// count from its constant operand.
    pub open spec fn values(self, t: Term, shifts: bool, inputs: spec_fn(u8) -> int) -> Set<int>
        decreases t,
    {
        match t.head {
            Head::Var(i) => set![inputs(i)],
            Head::Const(bits) => set![(self.constant)(bits)],
            Head::Unary(op) => if t.kids.len() == 1 {
                self.unary_values(op, self.values(t.kids[0], shifts, inputs))
            } else {
                Set::empty()
            },
            Head::Binary(op) => if t.kids.len() != 2 {
                Set::empty()
            } else if shifts && (op is Shl || op is Shr) {
                self.shift_values(
                    op,
                    self.values(t.kids[0], shifts, inputs),
                    shift_amount(t.kids[1].head->Const_0),
                )
            } else {
                self.binary_values(
                    op,
                    self.values(t.kids[0], shifts, inputs),
                    self.values(t.kids[1], shifts, inputs),
                )
            },
            Head::Ternary(op) => if t.kids.len() == 3 {
                self.ternary_values(
                    op,
                    self.values(t.kids[0], shifts, inputs),
                    self.values(t.kids[1], shifts, inputs),
                    self.values(t.kids[2], shifts, inputs),
                )
            } else {
                Set::empty()
            },
            _ => Set::empty(),
        }
    }

    /// Results of a unary operation on any of these values.
    pub open spec fn unary_values(self, op: OpKind, a: Set<int>) -> Set<int> {
        Set::new(|x: int| exists|p: int| #[trigger] a.contains(p) && x == (self.unary)(op, p))
    }

    /// Results of a shift of any of these values.
    pub open spec fn shift_values(self, op: OpKind, a: Set<int>, n: u8) -> Set<int> {
        Set::new(|x: int| exists|p: int| #[trigger] a.contains(p) && x == (self.shift)(op, p, n))
    }

    /// Results of a binary operation on any of these values.
    pub open spec fn binary_values(self, op: OpKind, a: Set<int>, b: Set<int>) -> Set<int> {
        Set::new(
            |x: int|
                exists|p: int, q: int| #[trigger]
                    a.contains(p) && #[trigger] b.contains(q) && x == (self.binary)(op, p, q),
        )
    }

    /// Results of an operation of three operands on any of these values.
    pub open spec fn ternary_values(
        self,
        op: OpKind,
        a: Set<int>,
        b: Set<int>,
        c: Set<int>,
    ) -> Set<int> {
        Set::new(
            |x: int|
                exists|p: int, q: int, r: int| #[trigger]
                    a.contains(p) && #[trigger] b.contains(q) && #[trigger] c.contains(r)
                        && self.joins(op, p, q, r, x),
        )
    }

    /// `x` is a result of an operation of three operands.
    pub open spec fn joins(self, op: OpKind, a: int, b: int, c: int, x: int) -> bool {
        match op {
            OpKind::MulAdd => {
                ||| x == (self.fused)(a, b, c)
                ||| x == (self.binary)(OpKind::Add, (self.binary)(OpKind::Mul, a, b), c)
            },
            OpKind::Select => x == (self.select)(a, b, c),
            OpKind::Clamp => x == (self.binary)(OpKind::Max, (self.binary)(OpKind::Min, a, c), b),
            _ => false,
        }
    }
}

/// A node computed from values of its operands is a value of the expression.
pub(crate) proof fn lemma_node_evaluates(
    alg: Algebra,
    m: ArenaModel,
    ids: spec_fn(ExprId) -> ValueId,
    shifts: bool,
    val: spec_fn(ValueId) -> int,
    inputs: spec_fn(u8) -> int,
    i: int,
    x: int,
)
    requires
        m.wf(),
        0 <= i < m.nodes.len(),
        node_schedulable(m, m.nodes[i], shifts),
        alg.is_result(scheduled_op(m, ids, m.nodes[i], shifts), val, x),
        m.nodes[i] matches ExprNode::Var(v) ==> x == inputs(v),
        forall|j: int|
            0 <= j < m.kids(i).len() ==> alg.values(
                #[trigger] m.term(i).kids[j],
                shifts,
                inputs,
            ).contains(val(ids(m.kids(i)[j]))),
    ensures
        alg.values(m.term(i), shifts, inputs).contains(x),
{
    let t = m.term(i);
    lemma_term_kids(m, i);
    match m.nodes[i] {
        ExprNode::Unary(op, a) => {
            assert(m.kids(i)[0] == a);
            assert(alg.values(t.kids[0], shifts, inputs).contains(val(ids(a))));
        },
        ExprNode::Binary(op, a, b) => {
            assert(m.kids(i)[0] == a && m.kids(i)[1] == b);
            assert(alg.values(t.kids[0], shifts, inputs).contains(val(ids(a))));
            assert(alg.values(t.kids[1], shifts, inputs).contains(val(ids(b))));
            lemma_term_kids(m, b.0 as int);
        },
        ExprNode::Ternary(op, a, b, c) => {
            assert(m.kids(i)[0] == a && m.kids(i)[1] == b && m.kids(i)[2] == c);
            assert(alg.values(t.kids[0], shifts, inputs).contains(val(ids(a))));
            assert(alg.values(t.kids[1], shifts, inputs).contains(val(ids(b))));
            assert(alg.values(t.kids[2], shifts, inputs).contains(val(ids(c))));
            assert(alg.joins(op, val(ids(a)), val(ids(b)), val(ids(c)), x));
        },
        _ => {},
    }
}

/// If every entry of an expression's schedule is computed from the entries it
/// reads, then the entry of each node is a value of the expression at that node.
pub proof fn schedules_evaluate_the_expression(
    alg: Algebra,
    m: ArenaModel,
    root: ExprId,
    shifts: bool,
    val: spec_fn(ValueId) -> int,
    inputs: spec_fn(u8) -> int,
    i: int,
)
    requires
        m.wf(),
        m.has(root),
        schedulable(m, root.0 as int, shifts),
        forall|k: int|
            0 <= k < schedule_of(m, root, shifts).len() ==> alg.is_result(
                (#[trigger] schedule_of(m, root, shifts)[k]).1,
                val,
                val(schedule_of(m, root, shifts)[k].0),
            ),
        forall|k: int|
            0 <= k < schedule_of(m, root, shifts).len() ==> ((#[trigger] schedule_of(
                m,
                root,
                shifts,
            )[k]).1 matches ScheduledOp::Var(x) ==> val(schedule_of(m, root, shifts)[k].0)
                == inputs(x)),
        0 <= i < m.nodes.len(),
        reaches(m, root.0 as int, i),
    ensures
        alg.values(m.term(i), shifts, inputs).contains(
            val(ranked(m, root.0 as int)(ExprId(i as u32))),
        ),
    decreases i,
{
    let r = root.0 as int;
    let sched = schedule_of(m, root, shifts);
    let ids = ranked(m, r);
    let t = m.term(i);
    let x = val(ids(ExprId(i as u32)));
    schedules_are_dense(m, root, shifts);
    lemma_term_kids(m, i);
    let k = rank(m, r, i) as int;
    assert(sched[k] == (ValueId(k as u32), scheduled_op(m, ids, m.nodes[i], shifts)));
    assert(0 <= k < sched.len()) by {
        lemma_rank_below(m, r, i);
    }
    assert(alg.is_result(sched[k].1, val, val(sched[k].0)));
    assert forall|j: int| 0 <= j < m.kids(i).len() implies alg.values(
        #[trigger] t.kids[j],
        shifts,
        inputs,
    ).contains(val(ids(m.kids(i)[j]))) by {
        let c = m.kids(i)[j];
        lemma_reaches_kid(m, r, i, j);
        schedules_evaluate_the_expression(alg, m, root, shifts, val, inputs, c.0 as int);
        assert(ExprId(c.0 as u32) == c);
    }
    assert(node_schedulable(m, m.nodes[i], shifts));
    lemma_node_evaluates(alg, m, ids, shifts, val, inputs, i, x);
}

/// A node of the expression has a rank below their number.
pub(crate) proof fn lemma_rank_below(m: ArenaModel, root: int, i: int)
    requires
        m.wf(),
        0 <= root < m.nodes.len(),
        0 <= i < m.nodes.len(),
        reaches(m, root, i),
    ensures
        rank(m, root, i) < rank(m, root, m.nodes.len() as int),
{
    rank_keeps_order(m, root, i, m.nodes.len() as int);
}

/// Code without branches computes the expression it was compiled from: with the
/// inputs in their registers, the plans of its schedule leave a value of the
/// expression where the root lives.
#[verifier::spinoff_prover]
pub proof fn plans_evaluate_the_expression(
    alg: Algebra,
    machine: Machine,
    m: ArenaModel,
    root: ExprId,
    regs: u8,
    reload: [Reg; 2],
    inputs: spec_fn(u8) -> int,
)
    requires
        m.wf(),
        m.has(root),
        schedulable(m, root.0 as int, true),
        runnable(schedule_of(m, root, true), regs, reload),
        inputs_in(machine, inputs),
    ensures
        ({
            let sched = schedule_of(m, root, true);
            let at = places_of(sched, input_places(sched), regs);
            exists|x: int|
                alg.at_home(
                    ran(alg, machine, sched, at, reload, sched.len() as int),
                    at,
                    sched.last().0,
                    x,
                ) && #[trigger] alg.values(m.term(root.0 as int), true, inputs).contains(x)
        }),
{
    let sched = schedule_of(m, root, true);
    let at = places_of(sched, input_places(sched), regs);
    let val = computed(alg, machine, sched, at, reload);
    plans_compute_the_schedule(alg, machine, sched, regs, reload);
    assert forall|k: int| 0 <= k < sched.len() implies ((#[trigger] sched[k]).1 matches ScheduledOp::Var(
        x,
    ) ==> val(sched[k].0) == inputs(x)) by {
        if let ScheduledOp::Var(x) = sched[k].1 {
            assert(x < 4);
            assert(machine.regs[Reg(x)] == inputs(x));
        }
    }
    let r = root.0 as int;
    assert(reaches(m, r, r));
    schedules_evaluate_the_expression(alg, m, root, true, val, inputs, r);
    schedules_are_dense(m, root, true);
    assert(ExprId(r as u32) == root);
    let k = rank(m, r, r) as int;
    lemma_rank_below(m, r, r);
    lemma_rank_after_root(m, r, m.nodes.len() as int);
    assert(sched.last().0 == ranked(m, r)(root));
    assert(alg.values(m.term(r), true, inputs).contains(val(sched.last().0)));
}

/// An expression's values do not depend on variables it does not mention.
pub proof fn unmentioned_variables_do_not_matter(
    alg: Algebra,
    t: Term,
    shifts: bool,
    a: spec_fn(u8) -> int,
    b: spec_fn(u8) -> int,
)
    requires
        forall|v: u8| #[trigger] mentions(t, v) ==> a(v) == b(v),
    ensures
        alg.values(t, shifts, a) == alg.values(t, shifts, b),
    decreases t,
{
    if let Head::Var(i) = t.head {
        assert(mentions(t, i));
    }
    assert forall|j: int| 0 <= j < t.kids.len() implies alg.values(#[trigger] t.kids[j], shifts, a)
        == alg.values(t.kids[j], shifts, b) by {
        assert forall|v: u8| #[trigger] mentions(t.kids[j], v) implies a(v) == b(v) by {
            assert(mentions(t, v));
        }
        unmentioned_variables_do_not_matter(alg, t.kids[j], shifts, a, b);
    }
}

/// Code emitted for an expression as a tree agrees with scheduled code: what it
/// computes is a value of the expression.
pub proof fn tree_code_agrees_with_schedules(
    alg: Algebra,
    t: Term,
    depth: nat,
    shifts: bool,
    inputs: spec_fn(u8) -> int,
)
    requires
        tree_of(t, depth) is Done,
    ensures
        alg.values(t, shifts, inputs).contains(alg.value(t, inputs)),
    decreases t,
{
    match t.head {
        Head::Unary(_) => {
            tree_code_agrees_with_schedules(alg, t.kids[0], depth + 1, shifts, inputs);
        },
        Head::Binary(op) => {
            if right_first(op, t.kids[0], t.kids[1]) {
                tree_code_agrees_with_schedules(alg, t.kids[1], depth, shifts, inputs);
                tree_code_agrees_with_schedules(alg, t.kids[0], depth + 1, shifts, inputs);
            } else {
                tree_code_agrees_with_schedules(alg, t.kids[0], depth, shifts, inputs);
                tree_code_agrees_with_schedules(alg, t.kids[1], depth + 1, shifts, inputs);
            }
        },
        Head::Ternary(_) => {
            tree_code_agrees_with_schedules(alg, t.kids[0], depth, shifts, inputs);
            tree_code_agrees_with_schedules(alg, t.kids[1], depth + 1, shifts, inputs);
            tree_code_agrees_with_schedules(alg, t.kids[2], depth + 2, shifts, inputs);
        },
        _ => {},
    }
}

} // verus!
