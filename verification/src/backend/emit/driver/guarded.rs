//! What a kernel computes that skips arms of a `Select` which no lane takes.

use crate::arena::link::{rank, reaches};
use crate::arena::model::ArenaModel;
use crate::arena::ExprId;
use crate::backend::emit::driver::meaning::{
    apart, homed, idle, lemma_inputs_idle, lemma_plan_step, lemma_rank_below, lemma_same_operands,
    lemma_settled, planned, runnable, schedules_evaluate_the_expression, settled, step_plan, target,
};
use crate::backend::emit::driver::{
    arm_of, compilable, guarded, input_places, job_of, short_ops, starts_at, Job,
};
use crate::backend::emit::kernels::tree::inputs_in;
use crate::backend::emit::plan::meaning::{Algebra, Machine};
use crate::backend::emit::plan::{dst_reg, Loc, Places};
use crate::backend::emit::regalloc::linear::{last_use, lemma_last_use, lemma_used_is_read};
use crate::backend::emit::regalloc::ValueId;
use crate::backend::emit::schedule::guards::{
    arm_private, depends, exclusive, guarded_values_are_private, guards_of, SelectGuard,
};
use crate::backend::emit::schedule::{
    dense_schedules_are_single_assignment, entry_ok, lemma_rank_after_root, ranked, schedulable,
    schedule_of, schedules_are_dense, ScheduledOp,
};
use crate::backend::emit::Reg;
use crate::kind::OpKind;
use vstd::prelude::*;

verus! {

/// What a branch can ask of a mask.
pub struct Tests {
    /// It is false in every lane.
    pub none: spec_fn(int) -> bool,
    /// It is true in every lane.
    pub every: spec_fn(int) -> bool,
}

impl Tests {
    /// A mask that is false everywhere chooses the second value, one that is true
    /// everywhere the first.
    pub open spec fn fit(self, alg: Algebra) -> bool {
        &&& forall|a: int, b: int, c: int|
            (self.none)(a) ==> #[trigger] (alg.select)(a, b, c) == c
        &&& forall|a: int, b: int, c: int|
            (self.every)(a) ==> #[trigger] (alg.select)(a, b, c) == b
    }

    /// The branch of this arm is taken on mask `x`; arm 0 is the true one.
    pub open spec fn taken(self, arm: int, x: int) -> bool {
        if arm == 0 {
            (self.none)(x)
        } else {
            (self.every)(x)
        }
    }
}

impl Algebra {
    /// After `v` is brought to the register it is read from.
    pub open spec fn fetched(self, m: Machine, at: Places, v: ValueId, target: Reg) -> Machine {
        if at.regs.contains_key(v.0) {
            m
        } else if at.consts.contains_key(v.0) {
            m.with_reg(target, (self.constant)(at.consts[v.0]))
        } else {
            m.with_reg(target, m.stack[at.slots[v.0]])
        }
    }

    /// After an arm is copied or loaded into the destination.
    pub open spec fn copied(self, m: Machine, at: Places, v: ValueId, dst: Reg) -> Machine {
        if at.regs.contains_key(v.0) {
            m.with_reg(dst, m.regs[at.regs[v.0]])
        } else {
            self.fetched(m, at, v, dst)
        }
    }

    /// What an operation can come to.
    pub open spec fn some_result(
        self,
        m: Machine,
        op: ScheduledOp,
        val: spec_fn(ValueId) -> int,
    ) -> int {
        match op {
            ScheduledOp::Var(x) => m.regs[Reg(x)],
            ScheduledOp::Const(bits) => (self.constant)(bits),
            ScheduledOp::Unary(k, a) => (self.unary)(k, val(a)),
            ScheduledOp::ShiftImm(k, a, n) => (self.shift)(k, val(a), n),
            ScheduledOp::Binary(k, a, b) => (self.binary)(k, val(a), val(b)),
            ScheduledOp::Ternary(OpKind::MulAdd, a, b, c) => (self.fused)(val(a), val(b), val(c)),
            ScheduledOp::Ternary(OpKind::Select, a, b, c) => (self.select)(val(a), val(b), val(c)),
            ScheduledOp::Ternary(_, a, b, c) => (self.binary)(
                OpKind::Max,
                (self.binary)(OpKind::Min, val(a), val(c)),
                val(b),
            ),
        }
    }
}

/// Where branch `p` leads.
pub open spec fn landing(guards: Seq<SelectGuard>, p: int) -> int {
    arm_of(guards[p / 2], p % 2).1 as int
}

/// The first `k` branches at entry `i`, up to the first that is taken: the machine
/// afterwards, and which was taken.
pub open spec fn tested(
    alg: Algebra,
    tests: Tests,
    job: Job,
    reload: [Reg; 2],
    m: Machine,
    i: int,
    k: int,
) -> (Machine, Option<int>)
    decreases k,
{
    if k <= 0 {
        (m, None)
    } else {
        let (m, taken) = tested(alg, tests, job, reload, m, i, k - 1);
        if taken is Some || !starts_at(job.guards, k - 1, i) {
            (m, taken)
        } else {
            let mask = job.guards[(k - 1) / 2].mask_vid;
            let m = alg.fetched(m, job.at, mask, reload[1]);
            let x = m.regs[job.at.source(mask, reload[1])];
            (
                m,
                if tests.taken((k - 1) % 2, x) {
                    Some(k - 1)
                } else {
                    None
                },
            )
        }
    }
}

/// The machine after entry `i` itself: its plan; or, for a guarded `Select` with a
/// mask that agrees in all lanes, a copy of the arm that it chooses.
pub open spec fn placed(
    alg: Algebra,
    tests: Tests,
    job: Job,
    reload: [Reg; 2],
    m: Machine,
    i: int,
) -> Machine {
    match step_plan(job.sched, job.at, reload, i) {
        Err(_) => m,
        Ok(plan) => match short_ops(job, i) {
            None => alg.plan(m, plan),
            Some((mask, t, f)) => {
                let loc = job.at.destination(job.sched[i].0, reload[0]);
                let dst = dst_reg(loc, reload[0]);
                let m = alg.fetched(m, job.at, mask, reload[1]);
                let x = m.regs[job.at.source(mask, reload[1])];
                let m = if (tests.none)(x) {
                    alg.copied(m, job.at, f, dst)
                } else if (tests.every)(x) {
                    alg.copied(m, job.at, t, dst)
                } else {
                    alg.plan(m, plan)
                };
                match loc {
                    Loc::Reg(_) => m,
                    Loc::Spill(offset) => Machine {
                        stack: m.stack.insert(offset, m.regs[dst]),
                        ..m
                    },
                }
            },
        },
    }
}

/// Where a kernel stands: the machine, and the entry that the last jump led to.
pub struct Point {
    /// Registers and stack.
    pub machine: Machine,
    /// The entry that the last jump led to; earlier entries are skipped.
    pub target: int,
}

/// The branches at entry `i`, unless a jump led there: it leads behind them.
pub open spec fn asked(
    alg: Algebra,
    tests: Tests,
    job: Job,
    reload: [Reg; 2],
    s: Point,
    i: int,
) -> (Machine, Option<int>) {
    if s.target == i {
        (s.machine, None)
    } else {
        tested(alg, tests, job, reload, s.machine, i, 2 * job.guards.len() as int)
    }
}

/// Entry `i` is skipped.
pub open spec fn skips(
    alg: Algebra,
    tests: Tests,
    job: Job,
    reload: [Reg; 2],
    s: Point,
    i: int,
) -> bool {
    s.target > i || asked(alg, tests, job, reload, s, i).1 is Some
}

/// After entry `i`.
pub open spec fn passed(
    alg: Algebra,
    tests: Tests,
    job: Job,
    reload: [Reg; 2],
    s: Point,
    i: int,
) -> Point {
    let (m, taken) = asked(alg, tests, job, reload, s, i);
    if s.target > i {
        s
    } else if skips(alg, tests, job, reload, s, i) {
        Point { machine: m, target: landing(job.guards, taken->0) }
    } else {
        Point { machine: placed(alg, tests, job, reload, m, i), ..s }
    }
}

/// After the entries from `lo` up to `k`.
pub open spec fn run(
    alg: Algebra,
    tests: Tests,
    job: Job,
    reload: [Reg; 2],
    m: Machine,
    lo: int,
    k: int,
) -> Point
    decreases k - lo,
{
    if k <= lo {
        Point { machine: m, target: -1 }
    } else {
        passed(alg, tests, job, reload, run(alg, tests, job, reload, m, lo, k - 1), k - 1)
    }
}

/// The mask is known before the run starts, and what reads a value of the run is in it
/// or is the `Select`.
spec fn arm_closed(
    sched: Seq<(ValueId, ScheduledOp)>,
    g: SelectGuard,
    range: (usize, usize),
) -> bool {
    range.0 < range.1 ==> {
        &&& g.mask_vid.0 < range.0
        &&& forall|v: int, c: int|
            range.0 <= v < range.1 && 0 <= c < sched.len() && #[trigger] sched[c].1.reads(
                ValueId(v as u32),
            ) ==> c == g.select_idx || range.0 <= c < range.1
    }
}

/// The guard is of a `Select`, and its runs are private to the arms.
pub open spec fn guard_private(sched: Seq<(ValueId, ScheduledOp)>, g: SelectGuard) -> bool {
    let i = g.select_idx as int;
    &&& 0 <= i < sched.len()
    &&& sched[i].1 matches ScheduledOp::Ternary(op, mask, t, f) && op is Select && g.mask_vid
        == mask && arm_private(sched, i, t, f, mask, g.true_range) && arm_private(
        sched,
        i,
        f,
        t,
        mask,
        g.false_range,
    )
}

/// What is skipped before entry `hi` belongs to a `Select` before `hi`.
pub open spec fn selects_before(guards: Seq<SelectGuard>, hi: int) -> bool {
    forall|p: int|
        0 <= p < 2 * guards.len() ==> {
            let r = #[trigger] arm_of(guards[p / 2], p % 2);
            r.0 < hi && r.0 != r.1 ==> guards[p / 2].select_idx < hi
        }
}

/// A run of the entries from `lo` up to `hi`, given the values before them.
pub(crate) struct Phase {
    pub alg: Algebra,
    pub tests: Tests,
    pub m: Machine,
    pub job: Job,
    pub reload: [Reg; 2],
    pub lo: int,
    pub hi: int,
    pub given: spec_fn(ValueId) -> int,
}

impl Phase {
    pub(crate) open spec fn ok(self) -> bool {
        &&& compilable(self.job.sched)
        &&& settled(self.job.sched, self.job.at, self.reload)
        &&& planned(self.job.sched, self.job.at, self.reload)
        &&& self.tests.fit(self.alg)
        &&& forall|g: int|
            0 <= g < self.job.guards.len() ==> guard_private(
                self.job.sched,
                #[trigger] self.job.guards[g],
            )
        &&& selects_before(self.job.guards, self.hi)
        &&& 0 <= self.lo <= self.hi <= self.job.sched.len()
        &&& forall|d: int|
            0 <= d < self.lo && last_use(self.job.sched, (#[trigger] self.job.sched[d]).0) >= self.lo
                ==> self.alg.at_home(
                self.m,
                self.job.at,
                self.job.sched[d].0,
                (self.given)(self.job.sched[d].0),
            )
    }

    /// Nothing of the run writes register `r`.
    pub(crate) open spec fn idle(self, r: Reg) -> bool {
        idle(self.job.sched, self.job.at, self.reload, self.lo, r)
    }

    /// The machine when the run is over.
    pub(crate) open spec fn end(self) -> Machine {
        run(self.alg, self.tests, self.job, self.reload, self.m, self.lo, self.hi).machine
    }

    /// The run computed its entries: each comes to a result of its operation, and
    /// what is read later, and the last, is where it lives.
    pub(crate) open spec fn done(self) -> bool {
        let val = self.value();
        let sched = self.job.sched;
        &&& forall|v: ValueId| v.0 < self.lo ==> #[trigger] val(v) == (self.given)(v)
        &&& forall|d: int|
            0 <= d < self.hi && (last_use(sched, (#[trigger] sched[d]).0) >= self.hi || self.lo <= d
                == sched.len() - 1) ==> self.alg.at_home(
                self.end(),
                self.job.at,
                sched[d].0,
                val(sched[d].0),
            )
        &&& forall|d: int|
            self.lo <= d < self.hi ==> self.alg.is_result(
                (#[trigger] sched[d]).1,
                val,
                val(sched[d].0),
            ) && (sched[d].1 matches ScheduledOp::Var(x) ==> val(sched[d].0) == self.m.regs[Reg(
                x,
            )])
        &&& forall|r: Reg| #[trigger] self.idle(r) ==> self.end().regs[r] == self.m.regs[r]
    }

    /// After the entries up to `k`.
    #[verifier::opaque]
    spec fn run(self, k: int) -> Point {
        run(self.alg, self.tests, self.job, self.reload, self.m, self.lo, k)
    }

    /// Entry `d` is skipped.
    #[verifier::opaque]
    spec fn dead(self, d: int) -> bool {
        self.lo <= d && skips(self.alg, self.tests, self.job, self.reload, self.run(d), d)
    }

    /// Where entry `d` is computed.
    spec fn dst(self, d: int) -> Reg {
        dst_reg(self.job.at.destination(self.job.sched[d].0, self.reload[0]), self.reload[0])
    }

    /// What the entries up to `k` come to; for a skipped one, what it would have.
    spec fn vals(self, k: int) -> Seq<int>
        decreases k,
    {
        if k <= 0 {
            Seq::empty()
        } else {
            let before = self.vals(k - 1);
            before.push(
                if k - 1 < self.lo {
                    (self.given)(ValueId((k - 1) as u32))
                } else if self.dead(k - 1) {
                    self.alg.some_result(
                        self.m,
                        self.job.sched[k - 1].1,
                        |v: ValueId| before[v.0 as int],
                    )
                } else {
                    self.run(k).machine.regs[self.dst(k - 1)]
                },
            )
        }
    }

    /// What entry `d` comes to.
    #[verifier::opaque]
    spec fn val(self, d: int) -> int {
        self.vals(d + 1)[d]
    }

    /// What each value comes to.
    pub(crate) closed spec fn value(self) -> spec_fn(ValueId) -> int {
        |v: ValueId| self.val(v.0 as int)
    }

    /// The arm that branch `p` skips.
    spec fn arm(self, p: int) -> (usize, usize) {
        arm_of(self.job.guards[p / 2], p % 2)
    }

    /// Branch `p` skipped entry `d`: it is in the arm, the mask has the value for it,
    /// and after `k` entries the kernel is behind the arm or on the way there.
    spec fn covers(self, p: int, d: int, k: int) -> bool {
        let g = self.job.guards[p / 2];
        let r = self.arm(p);
        &&& 0 <= p < 2 * self.job.guards.len()
        &&& r.0 <= d < r.1
        &&& self.tests.taken(p % 2, self.val(g.mask_vid.0 as int))
        &&& r.1 <= k || self.run(k).target == r.1
    }

    /// Some branch skipped entry `d`.
    spec fn covered(self, d: int, k: int) -> bool {
        exists|p: int| #[trigger] self.covers(p, d, k)
    }

    /// Machine `m` has value `d` where it lives.
    spec fn home(self, m: Machine, d: int) -> bool {
        self.alg.at_home(m, self.job.at, self.job.sched[d].0, self.val(d))
    }

    /// What holds after the entries up to `k`.
    spec fn inv(self, k: int) -> bool {
        let now = self.run(k).machine;
        &&& forall|d: int|
            0 <= d < k && !self.dead(d) && (last_use(self.job.sched, (#[trigger] self.job.sched[d]).0) >= k
                || self.lo <= d == k - 1) ==> self.home(now, d)
        &&& forall|d: int| 0 <= d < k && #[trigger] self.dead(d) ==> self.covered(d, k)
        &&& self.run(k).target > k ==> self.covered(k, k)
        &&& forall|d: int|
            self.lo <= d < k ==> self.alg.is_result(
                (#[trigger] self.job.sched[d]).1,
                self.value(),
                self.val(d),
            ) && (self.job.sched[d].1 matches ScheduledOp::Var(x) ==> self.val(d) == self.m.regs[Reg(
                x,
            )])
        &&& forall|r: Reg| #[trigger] self.idle(r) ==> now.regs[r] == self.m.regs[r]
    }

    proof fn lemma_vals(self, k: int, d: int)
        requires
            0 <= d < k,
        ensures
            self.vals(k).len() == k,
            self.vals(k)[d] == self.val(d),
        decreases k,
    {
        reveal(Phase::val);
        self.lemma_len(k - 1);
        if d < k - 1 {
            self.lemma_vals(k - 1, d);
        }
    }

    proof fn lemma_len(self, k: int)
        requires
            0 <= k,
        ensures
            self.vals(k).len() == k,
        decreases k,
    {
        if k > 0 {
            self.lemma_len(k - 1);
        }
    }

    /// What an entry comes to.
    proof fn lemma_val(self, d: int)
        requires
            self.ok(),
            self.lo <= d < self.job.sched.len(),
        ensures
            self.dead(d) ==> self.val(d) == self.alg.some_result(
                self.m,
                self.job.sched[d].1,
                self.value(),
            ),
            !self.dead(d) ==> self.val(d) == self.run(d + 1).machine.regs[self.dst(d)],
    {
        reveal(Phase::val);
        reveal(Phase::dead);
        self.lemma_len(d);
        assert(entry_ok(self.job.sched[d], d));
        if self.dead(d) {
            let before = self.vals(d);
            let prev = |v: ValueId| before[v.0 as int];
            let op = self.job.sched[d].1;
            assert forall|v: ValueId| #[trigger] op.reads(v) implies prev(v) == self.value()(v) by {
                self.lemma_vals(d, v.0 as int);
            }
            match op {
                ScheduledOp::Unary(_, a) => {
                    assert(op.reads(a));
                },
                ScheduledOp::ShiftImm(_, a, _) => {
                    assert(op.reads(a));
                },
                ScheduledOp::Binary(_, a, b) => {
                    assert(op.reads(a) && op.reads(b));
                },
                ScheduledOp::Ternary(_, a, b, c) => {
                    assert(op.reads(a) && op.reads(b) && op.reads(c));
                },
                _ => {},
            }
        }
    }

    /// What is known of branch `p`.
    proof fn lemma_branch(self, p: int)
        requires
            self.ok(),
            0 <= p < 2 * self.job.guards.len(),
        ensures
            ({
                let g = self.job.guards[p / 2];
                let r = self.arm(p);
                let i = g.select_idx as int;
                &&& 0 <= p / 2 < self.job.guards.len()
                &&& 0 <= i < self.job.sched.len()
                &&& arm_closed(self.job.sched, g, r)
                &&& r.0 <= r.1 <= i
                &&& self.job.sched[i].1 matches ScheduledOp::Ternary(op, mask, t, f) && op is Select
                    && g.mask_vid == mask && arm_private(
                    self.job.sched,
                    i,
                    if p % 2 == 0 {
                        t
                    } else {
                        f
                    },
                    if p % 2 == 0 {
                        f
                    } else {
                        t
                    },
                    mask,
                    r,
                )
            }),
    {
        assert(0 <= p / 2 < self.job.guards.len());
        assert(guard_private(self.job.sched, self.job.guards[p / 2]));
    }

    /// What reads a skipped value is skipped too, or is the `Select` of the branch.
    proof fn lemma_reader(self, k: int, d: int, c: int, p: int)
        requires
            self.ok(),
            0 <= d < k,
            k <= c < self.job.sched.len(),
            self.covers(p, d, k),
            self.run(k).target <= c,
            self.job.sched[c].1.reads(ValueId(d as u32)),
        ensures
            c == self.job.guards[p / 2].select_idx,
    {
        self.lemma_branch(p);
    }

    /// The mask of a guard is not skipped by its own branches, and neither is an arm
    /// by the branch for the other.
    proof fn lemma_not_own(self, p: int)
        requires
            self.ok(),
            0 <= p < 2 * self.job.guards.len(),
        ensures
            ({
                let g = self.job.guards[p / 2];
                let r = self.arm(p);
                self.job.sched[g.select_idx as int].1 matches ScheduledOp::Ternary(_, mask, t, f) && !(
                r.0 <= mask.0 < r.1) && (p % 2 == 0 ==> !(r.0 <= f.0 < r.1)) && (p % 2 != 0 ==> !(
                r.0 <= t.0 < r.1))
            }),
    {
        self.lemma_branch(p);
        let g = self.job.guards[p / 2];
        let r = self.arm(p);
        let i = g.select_idx as int;
        match self.job.sched[i].1 {
            ScheduledOp::Ternary(_, mask, t, f) => {
                let (arm, other) = if p % 2 == 0 {
                    (t, f)
                } else {
                    (f, t)
                };
                if r.0 <= mask.0 < r.1 {
                    assert(exclusive(self.job.sched, i, arm, other, mask, mask.0 as int));
                    assert(depends(self.job.sched, mask.0 as int, mask.0 as int));
                }
                if r.0 <= other.0 < r.1 {
                    assert(exclusive(self.job.sched, i, arm, other, mask, other.0 as int));
                    assert(depends(self.job.sched, other.0 as int, other.0 as int));
                }
            },
            _ => {},
        }
    }

    /// The mask of a branch that starts at entry `i` was computed, and is where it
    /// lives.
    proof fn lemma_mask_home(self, i: int, p: int)
        requires
            self.ok(),
            self.inv(i),
            self.lo <= i < self.job.sched.len(),
            self.run(i).target <= i,
            0 <= p < 2 * self.job.guards.len(),
            starts_at(self.job.guards, p, i),
        ensures
            ({
                let mask = self.job.guards[p / 2].mask_vid;
                &&& 0 <= mask.0 < i
                &&& self.job.sched[mask.0 as int].0 == mask
                &&& self.home(self.run(i).machine, mask.0 as int)
            }),
    {
        let g = self.job.guards[p / 2];
        let mask = g.mask_vid;
        let d = mask.0 as int;
        let q = g.select_idx as int;
        self.lemma_branch(p);
        assert(entry_ok(self.job.sched[d], d));
        assert(self.job.sched[q].1.reads(mask));
        assert(ValueId(d as u32) == mask);
        lemma_last_use(self.job.sched, q, mask);
        if self.dead(d) {
            let o = choose|o: int| self.covers(o, d, i);
            self.lemma_reader(i, d, q, o);
            self.lemma_branch(o);
            self.lemma_not_own(o);
        }
        assert(last_use(self.job.sched, self.job.sched[d].0) >= i);
    }

    /// The tests at an entry change nothing but a reload register, and go by the
    /// values of the masks.
    proof fn lemma_tested(self, i: int, k: int)
        requires
            self.ok(),
            self.inv(i),
            self.lo <= i < self.job.sched.len(),
            self.run(i).target <= i,
            0 <= k <= 2 * self.job.guards.len(),
        ensures
            ({
                let before = self.run(i).machine;
                let (m, taken) = tested(
                    self.alg,
                    self.tests,
                    self.job,
                    self.reload,
                    before,
                    i,
                    k,
                );
                &&& same_but(before, m, self.reload[1])
                &&& taken matches Some(p) ==> 0 <= p < k && starts_at(self.job.guards, p, i)
                    && self.tests.taken(
                    p % 2,
                    self.val(self.job.guards[p / 2].mask_vid.0 as int),
                )
            }),
        decreases k,
    {
        if k > 0 {
            self.lemma_tested(i, k - 1);
            let before = self.run(i).machine;
            let p = k - 1;
            let (m, taken) = tested(self.alg, self.tests, self.job, self.reload, before, i, p);
            if taken is None && starts_at(self.job.guards, p, i) {
                let mask = self.job.guards[p / 2].mask_vid;
                self.lemma_mask_home(i, p);
                assert(homed(self.job.sched, self.job.at, self.reload, mask.0 as int));
                self.lemma_read(m, before, mask);
            }
        }
    }

    /// A value that is where it lives is read right.
    proof fn lemma_read(self, m: Machine, before: Machine, v: ValueId)
        requires
            self.ok(),
            v.0 < self.job.sched.len(),
            self.job.sched[v.0 as int].0 == v,
            same_but(before, m, self.reload[1]),
            self.home(before, v.0 as int),
        ensures
            ({
                let after = self.alg.fetched(m, self.job.at, v, self.reload[1]);
                &&& same_but(before, after, self.reload[1])
                &&& after.regs[self.job.at.source(v, self.reload[1])] == self.val(v.0 as int)
            }),
    {
        assert(homed(self.job.sched, self.job.at, self.reload, v.0 as int));
    }

    /// Nothing lives in a reload register, so a change of one changes no value.
    proof fn lemma_home_kept(self, before: Machine, m: Machine, d: int)
        requires
            self.ok(),
            0 <= d < self.job.sched.len(),
            same_but(before, m, self.reload[1]),
            self.home(before, d),
        ensures
            self.home(m, d),
    {
        assert(homed(self.job.sched, self.job.at, self.reload, d));
    }

    /// The operands of a guarded `Select` that the mask lets through were computed,
    /// and so was the mask.
    proof fn lemma_choice(self, i: int)
        requires
            self.ok(),
            self.inv(i),
            self.lo <= i < self.job.sched.len(),
            self.run(i).target <= i,
            short_ops(self.job, i) is Some,
        ensures
            ({
                let (mask, t, f) = short_ops(self.job, i)->0;
                let x = self.val(mask.0 as int);
                &&& self.job.sched[i].1 == ScheduledOp::Ternary(OpKind::Select, mask, t, f)
                &&& self.operand_ok(i, mask)
                &&& !(self.tests.none)(x) ==> self.operand_ok(i, t)
                &&& !(self.tests.every)(x) ==> self.operand_ok(i, f)
                &&& !(self.tests.none)(x) || !(self.tests.every)(x)
            }),
    {
        let (mask, t, f) = short_ops(self.job, i)->0;
        let op = self.job.sched[i].1;
        assert(op.reads(mask) && op.reads(t) && op.reads(f));
        self.lemma_operand(i, mask);
        self.lemma_operand(i, t);
        self.lemma_operand(i, f);
        let x = self.val(mask.0 as int);
        if self.dead(mask.0 as int) {
            self.lemma_arm_dead(i, mask);
        }
        if self.dead(t.0 as int) {
            self.lemma_arm_dead(i, t);
        }
        if self.dead(f.0 as int) {
            self.lemma_arm_dead(i, f);
        }
        lemma_tests_differ(self.alg, self.tests, x);
    }

    /// An operand that was skipped is the arm of a guarded `Select` that the mask does
    /// not choose in any lane.
    proof fn lemma_arm_dead(self, i: int, v: ValueId)
        requires
            self.ok(),
            self.inv(i),
            self.lo <= i < self.job.sched.len(),
            self.run(i).target <= i,
            self.job.sched[i].1.reads(v),
            self.dead(v.0 as int),
        ensures
            guarded(self.job.guards, i),
            self.job.sched[i].1 matches ScheduledOp::Ternary(op, mask, t, f) && op is Select && v
                != mask && (v == t ==> (self.tests.none)(self.val(mask.0 as int))) && (v == f ==> (
            self.tests.every)(self.val(mask.0 as int))),
    {
        self.lemma_operand(i, v);
        assert(self.covered(v.0 as int, i));
        let d = v.0 as int;
        let p = choose|p: int| #[trigger] self.covers(p, d, i);
        self.lemma_reader(i, d, i, p);
        self.lemma_not_own(p);
        self.lemma_branch(p);
    }

    /// What machine `m` has where value `v` lives.
    spec fn content(self, m: Machine, v: ValueId) -> int {
        let at = self.job.at;
        if at.regs.contains_key(v.0) {
            m.regs[at.regs[v.0]]
        } else if at.consts.contains_key(v.0) {
            (self.alg.constant)(at.consts[v.0])
        } else {
            m.stack[at.slots[v.0]]
        }
    }

    /// A result computed from what is where the operands live is one of their values:
    /// an operand that was skipped is not chosen.
    proof fn lemma_seen(self, i: int, m: Machine, x: int)
        requires
            self.ok(),
            self.inv(i),
            self.lo <= i < self.job.sched.len(),
            self.run(i).target <= i,
            same_but(self.run(i).machine, m, self.reload[1]),
            self.alg.is_result(self.job.sched[i].1, |v: ValueId| self.content(m, v), x),
        ensures
            self.alg.is_result(self.job.sched[i].1, self.value(), x),
    {
        let op = self.job.sched[i].1;
        let seen = |v: ValueId| self.content(m, v);
        assert forall|v: ValueId| #[trigger] op.reads(v) && !self.dead(v.0 as int) implies seen(v)
            == self.value()(v) by {
            self.lemma_operand(i, v);
            self.lemma_home_kept(self.run(i).machine, m, v.0 as int);
        }
        if exists|v: ValueId| #[trigger] op.reads(v) && self.dead(v.0 as int) {
            let w = choose|v: ValueId| #[trigger] op.reads(v) && self.dead(v.0 as int);
            self.lemma_arm_dead(i, w);
            match op {
                ScheduledOp::Ternary(_, mask, t, f) => {
                    assert(op.reads(mask) && op.reads(t) && op.reads(f));
                    if self.dead(mask.0 as int) {
                        self.lemma_arm_dead(i, mask);
                    }
                    if self.dead(t.0 as int) {
                        self.lemma_arm_dead(i, t);
                    }
                    if self.dead(f.0 as int) {
                        self.lemma_arm_dead(i, f);
                    }
                    lemma_tests_differ(self.alg, self.tests, self.val(mask.0 as int));
                    assert(seen(mask) == self.value()(mask));
                    let y = (self.alg.select)(seen(mask), seen(t), seen(f));
                    let z = (self.alg.select)(
                        self.val(mask.0 as int),
                        self.val(t.0 as int),
                        self.val(f.0 as int),
                    );
                    assert(y == z);
                },
                _ => {},
            }
        } else {
            lemma_same_operands(self.alg, op, seen, self.value(), x);
        }
    }

    /// A guarded `Select`.
    proof fn lemma_select(self, i: int, m: Machine)
        requires
            self.ok(),
            self.inv(i),
            self.lo <= i < self.job.sched.len(),
            self.run(i).target <= i,
            short_ops(self.job, i) is Some,
            same_but(self.run(i).machine, m, self.reload[1]),
        ensures
            ({
                let after = placed(self.alg, self.tests, self.job, self.reload, m, i);
                self.entered(m, after, i)
            }),
    {
        let at = self.job.at;
        let before = self.run(i).machine;
        let (mask, t, f) = short_ops(self.job, i)->0;
        let x = self.val(mask.0 as int);
        let m1 = self.alg.fetched(m, at, mask, self.reload[1]);
        self.lemma_choice(i);
        self.lemma_read(m, before, mask);
        assert(homed(self.job.sched, self.job.at, self.reload, i));
        assert(step_plan(self.job.sched, at, self.reload, i) is Ok && self.job.sched[i] == self.job.sched[i]);
        if (self.tests.none)(x) {
            self.lemma_copied(i, m, f);
        } else if (self.tests.every)(x) {
            self.lemma_copied(i, m, t);
        } else {
            self.lemma_mixed(i, m);
        }
    }

    /// A guarded `Select` whose mask agrees in all lanes.
    proof fn lemma_copied(self, i: int, m: Machine, v: ValueId)
        requires
            self.ok(),
            self.lo <= i < self.job.sched.len(),
            short_ops(self.job, i) is Some,
            same_but(self.run(i).machine, m, self.reload[1]),
            ({
                let (mask, t, f) = short_ops(self.job, i)->0;
                let x = self.val(mask.0 as int);
                let m1 = self.alg.fetched(m, self.job.at, mask, self.reload[1]);
                &&& self.operand_ok(i, v)
                &&& same_but(self.run(i).machine, m1, self.reload[1])
                &&& m1.regs[self.job.at.source(mask, self.reload[1])] == x
                &&& (self.tests.none)(x) && v == f || !(self.tests.none)(x) && (self.tests.every)(x)
                    && v == t
            }),
        ensures
            self.entered(
                m,
                placed(self.alg, self.tests, self.job, self.reload, m, i),
                i,
            ),
    {
        let at = self.job.at;
        let (mask, t, f) = short_ops(self.job, i)->0;
        let x = self.val(mask.0 as int);
        let m1 = self.alg.fetched(m, at, mask, self.reload[1]);
        let d = v.0 as int;
        let after = placed(self.alg, self.tests, self.job, self.reload, m, i);
        assert(step_plan(self.job.sched, at, self.reload, i) is Ok && self.job.sched[i] == self.job.sched[i]);
        assert(homed(self.job.sched, self.job.at, self.reload, i));
        assert(homed(self.job.sched, self.job.at, self.reload, d));
        self.lemma_home_kept(self.run(i).machine, m1, d);
        assert(after.regs[self.dst(i)] == self.val(d));
        assert((self.alg.select)(x, self.val(t.0 as int), self.val(f.0 as int)) == self.val(d));
        self.lemma_frame(m, after, i);
    }

    /// A guarded `Select` whose mask differs between lanes.
    proof fn lemma_mixed(self, i: int, m: Machine)
        requires
            self.ok(),
            self.lo <= i < self.job.sched.len(),
            short_ops(self.job, i) is Some,
            same_but(self.run(i).machine, m, self.reload[1]),
            ({
                let (mask, t, f) = short_ops(self.job, i)->0;
                let x = self.val(mask.0 as int);
                let m1 = self.alg.fetched(m, self.job.at, mask, self.reload[1]);
                &&& self.operand_ok(i, mask)
                &&& self.operand_ok(i, t)
                &&& self.operand_ok(i, f)
                &&& same_but(self.run(i).machine, m1, self.reload[1])
                &&& m1.regs[self.job.at.source(mask, self.reload[1])] == x
                &&& !(self.tests.none)(x) && !(self.tests.every)(x)
            }),
        ensures
            self.entered(
                m,
                placed(self.alg, self.tests, self.job, self.reload, m, i),
                i,
            ),
    {
        let at = self.job.at;
        let before = self.run(i).machine;
        let op = self.job.sched[i].1;
        let (mask, t, f) = short_ops(self.job, i)->0;
        let m1 = self.alg.fetched(m, at, mask, self.reload[1]);
        let after = placed(self.alg, self.tests, self.job, self.reload, m, i);
        assert(step_plan(self.job.sched, at, self.reload, i) is Ok && self.job.sched[i] == self.job.sched[i]);
        self.lemma_home_kept(before, m1, mask.0 as int);
        self.lemma_home_kept(before, m1, t.0 as int);
        self.lemma_home_kept(before, m1, f.0 as int);
        assert forall|v: ValueId| #[trigger] op.reads(v) implies self.alg.at_home(
            m1,
            at,
            v,
            self.value()(v),
        ) by {
            assert(v == mask || v == t || v == f);
        }
        lemma_plan_step(self.alg, m1, self.job.sched, at, self.reload, i, self.value());
        let done = self.alg.plan(m1, step_plan(self.job.sched, at, self.reload, i)->Ok_0);
        assert(homed(self.job.sched, self.job.at, self.reload, i));
        assert(after.regs == done.regs);
        assert(after.stack =~= done.stack);
        self.lemma_frame(m, after, i);
    }

    /// Operand `v` of entry `i` was computed and is where it lives.
    spec fn operand_ok(self, i: int, v: ValueId) -> bool {
        &&& 0 <= v.0 < i
        &&& self.job.sched[v.0 as int].0 == v
        &&& self.home(self.run(i).machine, v.0 as int)
    }

    /// An operand that was computed is where it lives.
    proof fn lemma_operand(self, i: int, v: ValueId)
        requires
            self.ok(),
            self.inv(i),
            self.lo <= i < self.job.sched.len(),
            self.job.sched[i].1.reads(v),
        ensures
            0 <= v.0 < i,
            self.job.sched[v.0 as int].0 == v,
            ValueId(v.0 as int as u32) == v,
            !self.dead(v.0 as int) ==> self.operand_ok(i, v),
    {
        assert(entry_ok(self.job.sched[i], i));
        assert(entry_ok(self.job.sched[v.0 as int], v.0 as int));
        lemma_last_use(self.job.sched, i, v);
        assert(last_use(self.job.sched, self.job.sched[v.0 as int].0) >= i);
    }

    /// What entry `i` leaves: its result in the destination register and where it
    /// lives, and nothing else that is still needed changed.
    spec fn entered(self, m: Machine, after: Machine, i: int) -> bool {
        &&& self.alg.is_result(self.job.sched[i].1, self.value(), after.regs[self.dst(i)])
        &&& self.alg.at_home(after, self.job.at, self.job.sched[i].0, after.regs[self.dst(i)])
        &&& forall|d: int|
            0 <= d < i && last_use(self.job.sched, (#[trigger] self.job.sched[d]).0) >= i && self.home(m, d)
                ==> self.home(after, d)
        &&& forall|r: Reg| #[trigger] self.idle(r) ==> after.regs[r] == m.regs[r]
    }

    /// Entry `i` changes registers that hold nothing else, and its own slot.
    proof fn lemma_frame(self, m: Machine, after: Machine, i: int)
        requires
            self.ok(),
            self.lo <= i < self.job.sched.len(),
            !(self.job.sched[i].1 is Var),
            forall|r: Reg|
                r != self.dst(i) && r != self.reload[0] && r != self.reload[1]
                    ==> #[trigger] after.regs[r] == m.regs[r],
            self.job.at.destination(self.job.sched[i].0, self.reload[0]) matches Loc::Spill(offset)
                ==> after.stack == m.stack.insert(offset, after.regs[self.dst(i)]),
            self.job.at.destination(self.job.sched[i].0, self.reload[0]) is Reg ==> after.stack == m.stack,
        ensures
            forall|d: int|
                0 <= d < i && last_use(self.job.sched, (#[trigger] self.job.sched[d]).0) >= i && self.home(
                    m,
                    d,
                ) ==> self.home(after, d),
            forall|r: Reg| #[trigger] self.idle(r) ==> after.regs[r] == m.regs[r],
            !self.job.at.consts.contains_key(self.job.sched[i].0.0) ==> self.alg.at_home(
                after,
                self.job.at,
                self.job.sched[i].0,
                after.regs[self.dst(i)],
            ),
    {
        let at = self.job.at;
        let w = self.job.sched[i].0;
        assert(homed(self.job.sched, self.job.at, self.reload, i));
        assert forall|d: int|
            0 <= d < i && last_use(self.job.sched, (#[trigger] self.job.sched[d]).0) >= i && self.home(
                m,
                d,
            ) implies self.home(after, d) by {
            let v = self.job.sched[d].0;
            assert(homed(self.job.sched, self.job.at, self.reload, d));
            assert(apart(self.job.sched, at, self.reload, d, i));
            if at.regs.contains_key(v.0) {
                let r = at.regs[v.0];
                assert(after.regs[r] == m.regs[r]);
            }
        }
        assert forall|r: Reg| #[trigger] self.idle(r) implies after.regs[r] == m.regs[r] by {
            assert(target(self.job.sched, at, self.reload, i) == self.dst(i));
        }
    }

    /// An entry that is not skipped.
    proof fn lemma_entry(self, i: int, m: Machine)
        requires
            self.ok(),
            self.inv(i),
            self.lo <= i < self.job.sched.len(),
            self.run(i).target <= i,
            same_but(self.run(i).machine, m, self.reload[1]),
        ensures
            ({
                let after = placed(self.alg, self.tests, self.job, self.reload, m, i);
                self.entered(m, after, i)
            }),
            self.job.sched[i].1 matches ScheduledOp::Var(x) ==> placed(
                self.alg,
                self.tests,
                self.job,
                self.reload,
                m,
                i,
            ).regs[self.dst(i)] == self.m.regs[Reg(x)],
    {
        let at = self.job.at;
        let before = self.run(i).machine;
        let op = self.job.sched[i].1;
        let after = placed(self.alg, self.tests, self.job, self.reload, m, i);
        assert(homed(self.job.sched, self.job.at, self.reload, i));
        assert(step_plan(self.job.sched, at, self.reload, i) is Ok);
        if short_ops(self.job, i) is Some {
            self.lemma_select(i, m);
        } else if let ScheduledOp::Var(x) = op {
            reveal_with_fuel(Algebra::reloads, 2);
            assert(after == m);
            lemma_inputs_idle(self.job.sched, at, self.reload, self.lo, Reg(x));
            assert(self.idle(Reg(x)));
            assert(before.regs[Reg(x)] == self.m.regs[Reg(x)]);
            assert(m.regs[Reg(x)] == before.regs[Reg(x)]);
        } else {
            let seen = |v: ValueId| self.content(m, v);
            lemma_plan_step(self.alg, m, self.job.sched, self.job.at, self.reload, i, seen);
            self.lemma_seen(i, m, after.regs[self.dst(i)]);
            self.lemma_frame(m, after, i);
        }
    }

    /// The invariant is kept by an entry that is skipped.
    proof fn lemma_passed_over(self, i: int)
        requires
            self.ok(),
            self.inv(i),
            self.lo <= i < self.job.sched.len(),
            self.dead(i),
        ensures
            self.covered(i, i + 1),
            same_but(self.run(i).machine, self.run(i + 1).machine, self.reload[1]),
    {
        reveal(Phase::run);
        reveal(Phase::dead);
        let s = self.run(i);
        let (m, taken) = asked(self.alg, self.tests, self.job, self.reload, s, i);
        if s.target > i {
            let p = choose|p: int| #[trigger] self.covers(p, i, i);
            assert(self.covers(p, i, i + 1));
        } else {
            assert(s.target != i);
            self.lemma_tested(i, 2 * self.job.guards.len() as int);
            let p = taken->0;
            self.lemma_branch(p);
            assert(self.arm(p).0 == i);
            assert(self.run(i + 1).target == self.arm(p).1);
            assert(self.covers(p, i, i + 1));
        }
    }

    /// The machine an entry that is not skipped starts from.
    proof fn lemma_asked(self, i: int)
        requires
            self.ok(),
            self.inv(i),
            self.lo <= i < self.job.sched.len(),
            !self.dead(i),
        ensures
            ({
                let m = asked(self.alg, self.tests, self.job, self.reload, self.run(i), i).0;
                &&& self.run(i).target <= i
                &&& same_but(self.run(i).machine, m, self.reload[1])
                &&& self.run(i + 1).machine == placed(
                    self.alg,
                    self.tests,
                    self.job,
                    self.reload,
                    m,
                    i,
                )
                &&& self.run(i + 1).target == self.run(i).target
            }),
    {
        reveal(Phase::run);
        reveal(Phase::dead);
        if self.run(i).target != i {
            self.lemma_tested(i, 2 * self.job.guards.len() as int);
        }
    }

    /// Values stay where they live past entry `i`.
    proof fn lemma_homes(self, i: int)
        requires
            self.ok(),
            self.inv(i),
            self.lo <= i < self.job.sched.len(),
        ensures
            forall|d: int|
                0 <= d < i + 1 && !self.dead(d) && (last_use(
                    self.job.sched,
                    (#[trigger] self.job.sched[d]).0,
                ) >= i + 1 || d == i) ==> self.home(self.run(i + 1).machine, d),
            forall|r: Reg| #[trigger] self.idle(r) ==> self.run(i + 1).machine.regs[r] == self.m.regs[r],
    {
        let before = self.run(i).machine;
        let after = self.run(i + 1).machine;
        self.lemma_val(i);
        if self.dead(i) {
            self.lemma_passed_over(i);
            assert forall|d: int|
                0 <= d < i + 1 && !self.dead(d) && (last_use(
                    self.job.sched,
                    (#[trigger] self.job.sched[d]).0,
                ) >= i + 1 || d == i) implies self.home(after, d) by {
                assert(self.home(before, d));
                self.lemma_home_kept(before, after, d);
            }
            assert forall|r: Reg| #[trigger] self.idle(r) implies after.regs[r] == self.m.regs[r] by {
                assert(after.regs[r] == before.regs[r]);
            }
        } else {
            let m = asked(self.alg, self.tests, self.job, self.reload, self.run(i), i).0;
            self.lemma_asked(i);
            self.lemma_entry(i, m);
            assert forall|d: int|
                0 <= d < i + 1 && !self.dead(d) && (last_use(
                    self.job.sched,
                    (#[trigger] self.job.sched[d]).0,
                ) >= i + 1 || d == i) implies self.home(after, d) by {
                if d < i {
                    assert(self.home(before, d));
                    self.lemma_home_kept(before, m, d);
                }
            }
            assert forall|r: Reg| #[trigger] self.idle(r) implies after.regs[r] == self.m.regs[r] by {
                assert(m.regs[r] == before.regs[r]);
            }
        }
    }

    /// Entry `i` comes to a result of its operation.
    proof fn lemma_result(self, i: int)
        requires
            self.ok(),
            self.inv(i),
            self.lo <= i < self.job.sched.len(),
        ensures
            self.alg.is_result(self.job.sched[i].1, self.value(), self.val(i)),
            self.job.sched[i].1 matches ScheduledOp::Var(x) ==> self.val(i) == self.m.regs[Reg(x)],
    {
        self.lemma_val(i);
        assert(step_plan(self.job.sched, self.job.at, self.reload, i) is Ok && self.job.sched[i] == self.job.sched[i]);
        if !self.dead(i) {
            let m = asked(self.alg, self.tests, self.job, self.reload, self.run(i), i).0;
            self.lemma_asked(i);
            self.lemma_entry(i, m);
        }
    }

    /// The invariant is kept by an entry.
    proof fn lemma_passed(self, i: int)
        requires
            self.ok(),
            self.inv(i),
            self.lo <= i < self.job.sched.len(),
        ensures
            self.inv(i + 1),
    {
        self.lemma_homes(i);
        self.lemma_result(i);
        assert forall|d: int| 0 <= d < i + 1 && #[trigger] self.dead(d) implies self.covered(
            d,
            i + 1,
        ) by {
            if d < i {
                let p = choose|p: int| #[trigger] self.covers(p, d, i);
                if self.arm(p).1 > i {
                    self.lemma_target_kept(i, p);
                }
                assert(self.covers(p, d, i + 1));
            } else {
                self.lemma_passed_over(i);
            }
        }
        if self.run(i + 1).target > i + 1 {
            self.lemma_still_jumping(i);
        }
    }

    /// A jump to behind entry `i + 1` passes over it too.
    proof fn lemma_still_jumping(self, i: int)
        requires
            self.ok(),
            self.inv(i),
            self.lo <= i < self.job.sched.len(),
            self.run(i + 1).target > i + 1,
        ensures
            self.covered(i + 1, i + 1),
    {
        reveal(Phase::run);
        reveal(Phase::dead);
        if !self.dead(i) {
            self.lemma_asked(i);
        }
        self.lemma_passed_over(i);
        let k = i + 1;
        let s = self.run(i);
        if s.target > i {
            let p = choose|p: int| #[trigger] self.covers(p, i, i);
            assert(self.covers(p, k, k));
        } else {
            assert(s.target != i);
            self.lemma_tested(i, 2 * self.job.guards.len() as int);
            let p = asked(self.alg, self.tests, self.job, self.reload, s, i).1->0;
            self.lemma_branch(p);
            assert(self.arm(p).0 == i);
            assert(self.covers(p, k, k));
        }
    }

    /// The invariant holds all along.
    proof fn lemma_all(self, k: int)
        requires
            self.ok(),
            self.lo <= k <= self.hi,
        ensures
            self.inv(k),
        decreases k,
    {
        if k > self.lo {
            self.lemma_all(k - 1);
            self.lemma_passed(k - 1);
        } else {
            reveal(Phase::run);
            reveal(Phase::dead);
            assert forall|d: int|
                0 <= d < k && last_use(
                    self.job.sched,
                    (#[trigger] self.job.sched[d]).0,
                ) >= k implies self.home(self.m, d) by {
                self.lemma_given(d);
                assert(entry_ok(self.job.sched[d], d));
            }
        }
    }

    /// Values before the run are as given.
    proof fn lemma_given(self, d: int)
        requires
            0 <= d < self.lo,
        ensures
            self.val(d) == (self.given)(ValueId(d as u32)),
    {
        reveal(Phase::val);
        self.lemma_len(d);
    }

    /// What is read after the run was not skipped, and neither was the last entry.
    proof fn lemma_outlives(self, d: int)
        requires
            self.ok(),
            self.inv(self.hi),
            0 <= d < self.hi,
            last_use(self.job.sched, self.job.sched[d].0) >= self.hi || d == self.job.sched.len()
                - 1,
        ensures
            !self.dead(d),
    {
        let sched = self.job.sched;
        assert(entry_ok(sched[d], d));
        if self.dead(d) {
            let p = choose|p: int| #[trigger] self.covers(p, d, self.hi);
            let g = self.job.guards[p / 2];
            self.lemma_branch(p);
            assert(arm_of(g, p % 2) == self.arm(p));
            assert(g.select_idx < self.hi);
            if d < sched.len() - 1 {
                dense_schedules_are_single_assignment(sched);
                lemma_used_is_read(sched, d);
                let c = last_use(sched, sched[d].0) as int;
                assert(sched[c].1.reads(ValueId(d as u32)));
            }
        }
    }

    /// The run computes its entries.
    pub(crate) proof fn lemma_done(self)
        requires
            self.ok(),
        ensures
            self.done(),
    {
        let val = self.value();
        let sched = self.job.sched;
        self.lemma_all(self.hi);
        assert(self.end() == self.run(self.hi).machine) by {
            reveal(Phase::run);
        }
        assert forall|v: ValueId| v.0 < self.lo implies #[trigger] val(v) == (self.given)(v) by {
            self.lemma_given(v.0 as int);
            assert(ValueId(v.0 as int as u32) == v);
        }
        assert forall|d: int|
            0 <= d < self.hi && (last_use(sched, (#[trigger] sched[d]).0) >= self.hi || self.lo <= d
                == sched.len() - 1) implies self.alg.at_home(
            self.end(),
            self.job.at,
            sched[d].0,
            val(sched[d].0),
        ) by {
            self.lemma_outlives(d);
            assert(entry_ok(sched[d], d));
            assert(self.home(self.run(self.hi).machine, d));
        }
        assert forall|d: int| self.lo <= d < self.hi implies self.alg.is_result(
            (#[trigger] sched[d]).1,
            val,
            val(sched[d].0),
        ) && (sched[d].1 matches ScheduledOp::Var(x) ==> val(sched[d].0) == self.m.regs[Reg(
            x,
        )]) by {
            assert(entry_ok(sched[d], d));
        }
    }

    /// A jump to behind entry `i` is not forgotten there.
    proof fn lemma_target_kept(self, i: int, p: int)
        requires
            self.lo <= i,
            self.run(i).target == self.arm(p).1,
            self.arm(p).1 > i,
        ensures
            self.run(i + 1).target == self.arm(p).1,
    {
        reveal(Phase::run);
        reveal(Phase::dead);
    }
}

/// A run of all entries, with the places that linear scan gives.
pub(crate) open spec fn flat_phase(
    alg: Algebra,
    tests: Tests,
    m: Machine,
    sched: Seq<(ValueId, ScheduledOp)>,
    regs: u8,
    reload: [Reg; 2],
) -> Phase {
    Phase {
        alg,
        tests,
        m,
        job: job_of(sched, input_places(sched), regs, 0),
        reload,
        lo: 0,
        hi: sched.len() as int,
        given: |v: ValueId| 0,
    }
}

pub(crate) proof fn lemma_flat_phase(
    alg: Algebra,
    tests: Tests,
    m: Machine,
    sched: Seq<(ValueId, ScheduledOp)>,
    regs: u8,
    reload: [Reg; 2],
)
    requires
        runnable(sched, regs, reload),
        tests.fit(alg),
    ensures
        flat_phase(alg, tests, m, sched, regs, reload).ok(),
{
    let guards = guards_of(sched);
    lemma_settled(sched, regs, reload);
    assert forall|g: int| 0 <= g < guards.len() implies guard_private(
        sched,
        #[trigger] guards[g],
    ) by {
        guarded_values_are_private(sched, g);
    }
    assert forall|p: int| 0 <= p < 2 * guards.len() implies {
        let r = #[trigger] arm_of(guards[p / 2], p % 2);
        r.0 < sched.len() && r.0 != r.1 ==> guards[p / 2].select_idx < sched.len()
    } by {
        assert(guard_private(sched, guards[p / 2]));
    }
}

/// A kernel that skips arms computes the expression it was compiled from: with the
/// inputs in their registers, it leaves a value of the expression where the root
/// lives, whichever of its branches are taken.
pub proof fn guarded_kernels_evaluate_the_expression(
    alg: Algebra,
    tests: Tests,
    machine: Machine,
    m: ArenaModel,
    root: ExprId,
    regs: u8,
    reload: [Reg; 2],
    inputs: spec_fn(u8) -> int,
)
    requires
        m.wf(),
        m.has(root),
        schedulable(m, root.0 as int, true),
        runnable(schedule_of(m, root, true), regs, reload),
        tests.fit(alg),
        inputs_in(machine, inputs),
    ensures
        ({
            let sched = schedule_of(m, root, true);
            let job = job_of(sched, input_places(sched), regs, 0);
            let end = run(alg, tests, job, reload, machine, 0, sched.len() as int);
            exists|x: int|
                alg.at_home(end.machine, job.at, sched.last().0, x) && #[trigger] alg.values(
                    m.term(root.0 as int),
                    true,
                    inputs,
                ).contains(x)
        }),
{
    let sched = schedule_of(m, root, true);
    let n = sched.len() as int;
    let w = flat_phase(alg, tests, machine, sched, regs, reload);
    lemma_flat_phase(alg, tests, machine, sched, regs, reload);
    w.lemma_done();
    let val = w.value();
    assert forall|k: int| 0 <= k < n implies ((#[trigger] sched[k]).1 matches ScheduledOp::Var(
        x,
    ) ==> val(sched[k].0) == inputs(x)) by {
        assert(entry_ok(sched[k], k));
        if let ScheduledOp::Var(x) = sched[k].1 {
            assert(x < 4);
            assert(machine.regs[Reg(x)] == inputs(x));
        }
    }
    assert forall|k: int| 0 <= k < n implies alg.is_result(
        (#[trigger] sched[k]).1,
        val,
        val(sched[k].0),
    ) by {
        assert(entry_ok(sched[k], k));
    }
    let r = root.0 as int;
    assert(reaches(m, r, r));
    schedules_evaluate_the_expression(alg, m, root, true, val, inputs, r);
    schedules_are_dense(m, root, true);
    assert(ExprId(r as u32) == root);
    lemma_rank_below(m, r, r);
    lemma_rank_after_root(m, r, m.nodes.len() as int);
    assert(rank(m, r, r) == n - 1);
    assert(sched.last().0 == ranked(m, r)(root));
    assert(alg.values(m.term(r), true, inputs).contains(val(sched.last().0)));
}

/// The machines differ in nothing but a register.
spec fn same_but(a: Machine, b: Machine, r: Reg) -> bool {
    &&& a.stack == b.stack
    &&& forall|s: Reg| s != r ==> #[trigger] a.regs[s] == b.regs[s]
}

/// No mask is both false and true everywhere.
proof fn lemma_tests_differ(alg: Algebra, tests: Tests, x: int)
    requires
        tests.fit(alg),
    ensures
        !(tests.none)(x) || !(tests.every)(x),
{
    let y = (alg.select)(x, 0, 1);
    if (tests.none)(x) && (tests.every)(x) {
        assert(y == 1);
        assert(y == 0);
    }
}

} // verus!
