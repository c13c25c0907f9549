//! What scanline kernels compute, pixel by pixel.

use crate::arena::link::{lemma_reaches_kid, reaches};
use crate::arena::model::{lemma_term_kids, ArenaModel, Term};
use crate::arena::ExprId;
use crate::backend::emit::driver::guarded::{
    flat_phase, guard_private, guarded_kernels_evaluate_the_expression, lemma_flat_phase, run,
    selects_before, Phase, Tests,
};
use crate::backend::emit::driver::meaning::{
    apart, homed, idle, lemma_home, lemma_node_evaluates, lemma_same_operands, planned, runnable,
    settled, target,
};
use crate::backend::emit::driver::{
    arm_of, compilable, input_places, inputs_ok, job_of, places_of, spills_of,
};
use crate::backend::emit::isa::neon::Aarch64Backend;
use crate::backend::emit::isa::IsaBackend;
use crate::backend::emit::kernels::hoisted::{
    hoisted_homes, hoisted_job, hoisted_places, lemma_crossers_grow, persists, phase_guard,
    phase_guards, spare_regs,
};
use crate::backend::emit::kernels::neon::{
    default_split, default_two_phase, MAX_PERSISTENT_SLOTS,
};
use crate::backend::emit::kernels::tree::{tree_code_computes_the_expression, tree_of};
use crate::backend::emit::plan::meaning::{Algebra, Machine};
use crate::backend::emit::plan::{
    frame_slots_are_apart, lemma_slot_bound, lemma_slot_count, MAX_SLOTS,
};
use crate::backend::emit::regalloc::linear::{
    lemma_const_of, lemma_used_is_read, last_use, placed_once, scan,
    scan_keeps_live_values_apart, scan_places_each_value_once,
};
use crate::backend::emit::regalloc::ValueId;
use crate::backend::emit::schedule::guards::{guarded_values_are_private, guards_of};
use crate::backend::emit::schedule::hoisting::{
    crosses, crossers, default_choices, root_comes_last, two_phase,
    two_phase_ids, two_phase_lists_each_node, x_is_not_in_setup,
};
use crate::backend::emit::schedule::{
    dense_schedules_are_single_assignment, entry_ok, node_schedulable, schedulable, schedule_of,
    ScheduledOp,
};
use crate::backend::emit::{Reg, SCRATCH_BASE};
use vstd::prelude::*;

verus! {

/// The registers that spilled values are loaded into.
pub open spec fn reload() -> [Reg; 2] {
    Aarch64Backend::reload_pair()
}

/// The values of a two-phase schedule can be placed: at most as many cross as
/// there are registers for, and the frame is within its limit.
pub open spec fn splits(sched: Seq<(ValueId, ScheduledOp)>, split: int) -> bool {
    &&& compilable(sched)
    &&& inputs_ok(sched)
    &&& 0 <= split <= sched.len()
    &&& crossers(sched, split, split) <= MAX_PERSISTENT_SLOTS
    &&& spills_of(sched, hoisted_places(sched, split), spare_regs(sched, split)).len()
        <= MAX_SLOTS
}

/// Where the register of entry `d` of a two-phase schedule is, if it has one: an
/// input register, one kept for the loop, or one of the others.
spec fn reg_ok(sched: Seq<(ValueId, ScheduledOp)>, split: int, d: int) -> bool {
    let at = hoisted_homes(sched, split);
    let v = sched[d].0;
    let n = crossers(sched, split, split);
    let r = at.regs[v.0];
    at.regs.contains_key(v.0) ==> if sched[d].1 is Var {
        r == Reg(sched[d].1->Var_0) && r.0 < 4
    } else if persists(sched, split, d) {
        r.0 == 8 + crossers(sched, split, d) && r.0 < 8 + n
    } else {
        4 <= r.0 < 8 || 8 + n <= r.0 < 26
    }
}

proof fn lemma_hoisted_home(sched: Seq<(ValueId, ScheduledOp)>, split: int, d: int)
    requires
        splits(sched, split),
        0 <= d < sched.len(),
    ensures
        sched[d].0 == ValueId(d as u32),
        reg_ok(sched, split, d),
        homed(sched, hoisted_homes(sched, split), reload(), d),
{
    let pre = hoisted_places(sched, split);
    let regs = spare_regs(sched, split);
    let base = places_of(sched, pre, regs);
    let at = hoisted_homes(sched, split);
    let st = scan(sched, sched.len(), pre, regs as nat, SCRATCH_BASE as nat);
    dense_schedules_are_single_assignment(sched);
    scan_places_each_value_once(sched, pre, regs as nat, SCRATCH_BASE as nat);
    scan_keeps_live_values_apart(sched, pre, regs as nat, SCRATCH_BASE as nat);
    lemma_slot_count(st.spilled);
    assert(entry_ok(sched[d], d));
    let v = sched[d].0;
    assert(v.0 == d);
    assert(ValueId(v.0) == v);
    assert(placed_once(st, v));
    if at.slots.contains_key(v.0) {
        lemma_slot_bound(st.spilled, v.0);
        let i = choose|i: int| 0 <= i < st.spilled.len() && #[trigger] st.spilled[i].0 == v.0;
        assert(st.spilled[i] == v);
        assert(st.spilled.contains(v));
    }
    lemma_const_of(sched, d);
    if persists(sched, split, d) {
        lemma_crossers_grow(sched, split, d, split);
        assert(pre.contains_key(v.0));
    } else if sched[d].1 is Var {
        assert(input_places(sched).contains_key(v.0));
        assert(pre.contains_key(v.0));
    } else {
        assert(!pre.contains_key(v.0));
    }
}

/// The placement of a two-phase schedule is settled.
proof fn lemma_hoisted_settled(sched: Seq<(ValueId, ScheduledOp)>, split: int)
    requires
        splits(sched, split),
    ensures
        settled(sched, hoisted_homes(sched, split), reload()),
{
    let at = hoisted_homes(sched, split);
    assert forall|d: int| 0 <= d < sched.len() implies #[trigger] homed(
        sched,
        at,
        reload(),
        d,
    ) by {
        lemma_hoisted_home(sched, split, d);
    }
    assert forall|d: int, i: int|
        0 <= d < i < sched.len() && last_use(sched, sched[d].0) >= i && !(sched[i].1 is Var) implies #[trigger] apart(
        sched,
        at,
        reload(),
        d,
        i,
    ) by {
        lemma_hoisted_apart(sched, split, d, i);
    }
}

proof fn lemma_hoisted_apart(sched: Seq<(ValueId, ScheduledOp)>, split: int, d: int, i: int)
    requires
        splits(sched, split),
        0 <= d < i < sched.len(),
        last_use(sched, sched[d].0) >= i,
        !(sched[i].1 is Var),
    ensures
        apart(sched, hoisted_homes(sched, split), reload(), d, i),
{
    let pre = hoisted_places(sched, split);
    let regs = spare_regs(sched, split);
    let at = hoisted_homes(sched, split);
    let st = scan(sched, sched.len(), pre, regs as nat, SCRATCH_BASE as nat);
    let v = sched[d].0;
    let w = sched[i].0;
    dense_schedules_are_single_assignment(sched);
    lemma_hoisted_home(sched, split, d);
    lemma_hoisted_home(sched, split, i);
    scan_places_each_value_once(sched, pre, regs as nat, SCRATCH_BASE as nat);
    scan_keeps_live_values_apart(sched, pre, regs as nat, SCRATCH_BASE as nat);
    if at.regs.contains_key(v.0) && at.regs.contains_key(w.0) {
        if persists(sched, split, d) && persists(sched, split, i) {
            lemma_crossers_grow(sched, split, d, i);
        } else if !persists(sched, split, d) && !persists(sched, split, i) && !(sched[d].1 is Var) {
            assert(!pre.contains_key(v.0) && !pre.contains_key(w.0));
            assert(st.assigned[sched[d].0.0] != st.assigned[sched[i].0.0]);
            assert(4 <= st.assigned[v.0].0 < 26 && 4 <= st.assigned[w.0].0 < 26);
        }
    }
    if at.slots.contains_key(v.0) && at.slots.contains_key(w.0) {
        frame_slots_are_apart(st.spilled);
        lemma_slot_bound(st.spilled, v.0);
        lemma_slot_bound(st.spilled, w.0);
        let p = choose|p: int| 0 <= p < st.spilled.len() && #[trigger] st.spilled[p].0 == v.0;
        let q = choose|q: int| 0 <= q < st.spilled.len() && #[trigger] st.spilled[q].0 == w.0;
        assert(p != q);
        assert(at.slots[st.spilled[p].0] != at.slots[st.spilled[q].0]);
    }
}

/// The loop writes no register that is kept for it, and nothing writes a register
/// above those for loads.
proof fn lemma_kept_idle(sched: Seq<(ValueId, ScheduledOp)>, split: int, lo: int, r: Reg)
    requires
        splits(sched, split),
        0 <= lo,
        r.0 >= 28 || (lo >= split && 8 <= r.0 < 8 + crossers(sched, split, split)),
    ensures
        idle(sched, hoisted_homes(sched, split), reload(), lo, r),
{
    let at = hoisted_homes(sched, split);
    assert forall|i: int| lo <= i < sched.len() && !(sched[i].1 is Var) implies #[trigger] target(
        sched,
        at,
        reload(),
        i,
    ) != r by {
        lemma_hoisted_home(sched, split, i);
    }
}

impl Machine {
    /// Y, Z and W put back where the body expects them.
    pub open spec fn inputs_placed(self) -> Machine {
        self.with_reg(Reg(1), self.regs[Reg(29)]).with_reg(Reg(2), self.regs[Reg(30)]).with_reg(
            Reg(3),
            self.regs[Reg(31)],
        )
    }

    /// Y, Z and W, which a scanline kernel is called with in V0 to V2, kept beyond
    /// the registers of the body.
    pub open spec fn inputs_kept(self) -> Machine {
        self.with_reg(Reg(29), self.regs[Reg(0)]).with_reg(Reg(30), self.regs[Reg(1)]).with_reg(
            Reg(31),
            self.regs[Reg(2)],
        )
    }

    /// Y, Z and W moved up to where the body expects them.
    pub open spec fn inputs_raised(self) -> Machine {
        let m = self.with_reg(Reg(3), self.regs[Reg(2)]);
        let m = m.with_reg(Reg(2), m.regs[Reg(1)]);
        m.with_reg(Reg(1), m.regs[Reg(0)])
    }

    /// At the loop header: X loaded, Y, Z and W back in place.
    pub open spec fn at_pixel(self, x: int) -> Machine {
        self.inputs_placed().with_reg(Reg(0), x)
    }

    /// The coordinates of a pixel of a scanline: its X, and Y, Z and W of the call.
    pub open spec fn coordinates(self, x: int) -> spec_fn(u8) -> int {
        |i: u8|
            if i == 0 {
                x
            } else {
                self.regs[Reg((i - 1) as u8)]
            }
    }
}

/// A scanline kernel with a setup block, after `i` pixels of X coordinates `xs`: the
/// setup entries once, then the loop entries for each pixel.
pub open spec fn hoisted_pixels(
    alg: Algebra,
    tests: Tests,
    m: Machine,
    sched: Seq<(ValueId, ScheduledOp)>,
    split: int,
    xs: spec_fn(int) -> int,
    i: int,
) -> Machine
    decreases i,
{
    let job = hoisted_job(sched, split);
    if i <= 0 {
        run(alg, tests, job, reload(), m.inputs_kept().inputs_placed(), 0, split).machine
    } else {
        let header = hoisted_pixels(alg, tests, m, sched, split, xs, i - 1).at_pixel(xs(i - 1));
        run(alg, tests, job, reload(), header, split, sched.len() as int).machine
    }
}

/// The run of the setup block.
spec fn setup_phase(
    alg: Algebra,
    tests: Tests,
    m: Machine,
    sched: Seq<(ValueId, ScheduledOp)>,
    split: int,
) -> Phase {
    Phase {
        alg,
        tests,
        m: m.inputs_kept().inputs_placed(),
        job: hoisted_job(sched, split),
        reload: reload(),
        lo: 0,
        hi: split,
        given: |v: ValueId| 0,
    }
}

/// The run of the loop at pixel `i`.
spec fn pixel_phase(
    alg: Algebra,
    tests: Tests,
    m: Machine,
    sched: Seq<(ValueId, ScheduledOp)>,
    split: int,
    xs: spec_fn(int) -> int,
    i: int,
) -> Phase {
    Phase {
        alg,
        tests,
        m: hoisted_pixels(alg, tests, m, sched, split, xs, i).at_pixel(xs(i)),
        job: hoisted_job(sched, split),
        reload: reload(),
        lo: split,
        hi: sched.len() as int,
        given: setup_values(alg, tests, m, sched, split),
    }
}

/// The values of the setup entries.
spec fn setup_values(
    alg: Algebra,
    tests: Tests,
    m: Machine,
    sched: Seq<(ValueId, ScheduledOp)>,
    split: int,
) -> spec_fn(ValueId) -> int {
    setup_phase(alg, tests, m, sched, split).value()
}

/// No setup entry is X.
spec fn setup_without_x(sched: Seq<(ValueId, ScheduledOp)>, split: int) -> bool {
    forall|d: int| 0 <= d < split ==> (#[trigger] sched[d]).1 != ScheduledOp::Var(0)
}

/// The setup entries are computed.
#[verifier::opaque]
spec fn setup_ok(
    alg: Algebra,
    tests: Tests,
    m: Machine,
    sched: Seq<(ValueId, ScheduledOp)>,
    split: int,
) -> bool {
    setup_phase(alg, tests, m, sched, split).done()
}

/// The loop entries are computed at pixel `i`.
#[verifier::opaque]
spec fn pixel_ok(
    alg: Algebra,
    tests: Tests,
    m: Machine,
    sched: Seq<(ValueId, ScheduledOp)>,
    split: int,
    xs: spec_fn(int) -> int,
    i: int,
) -> bool {
    pixel_phase(alg, tests, m, sched, split, xs, i).done()
}

/// What the loop skips is in the loop, and what the setup block skips belongs to a
/// `Select` of the setup block.
proof fn lemma_phase_private(sched: Seq<(ValueId, ScheduledOp)>, split: int)
    requires
        compilable(sched),
        0 <= split <= sched.len(),
    ensures
        forall|g: int|
            0 <= g < phase_guards(sched, split).len() ==> guard_private(
                sched,
                #[trigger] phase_guards(sched, split)[g],
            ),
        selects_before(phase_guards(sched, split), split),
        selects_before(phase_guards(sched, split), sched.len() as int),
{
    let guards = phase_guards(sched, split);
    assert forall|g: int| 0 <= g < guards.len() implies guard_private(
        sched,
        #[trigger] guards[g],
    ) by {
        guarded_values_are_private(sched, g);
        assert(guards[g] == phase_guard(guards_of(sched)[g], split));
    }
    assert forall|p: int| 0 <= p < 2 * guards.len() implies {
        let r = #[trigger] arm_of(guards[p / 2], p % 2);
        &&& r.0 < split && r.0 != r.1 ==> guards[p / 2].select_idx < split
        &&& guards[p / 2].select_idx < sched.len()
    } by {
        assert(guard_private(sched, guards[p / 2]));
        assert(guards[p / 2] == phase_guard(guards_of(sched)[p / 2], split));
    }
}

proof fn lemma_setup(
    alg: Algebra,
    tests: Tests,
    m: Machine,
    sched: Seq<(ValueId, ScheduledOp)>,
    split: int,
    xs: spec_fn(int) -> int,
)
    requires
        splits(sched, split),
        planned(sched, hoisted_homes(sched, split), reload()),
        tests.fit(alg),
    ensures
        setup_ok(alg, tests, m, sched, split),
        forall|r: Reg|
            r.0 >= 28 ==> #[trigger] hoisted_pixels(alg, tests, m, sched, split, xs, 0).regs[r]
                == m.inputs_kept().regs[r],
{
    reveal(setup_ok);
    let at = hoisted_homes(sched, split);
    let phase = setup_phase(alg, tests, m, sched, split);
    lemma_hoisted_settled(sched, split);
    lemma_phase_private(sched, split);
    phase.lemma_done();
    assert forall|r: Reg| r.0 >= 28 implies #[trigger] hoisted_pixels(
        alg,
        tests,
        m,
        sched,
        split,
        xs,
        0,
    ).regs[r] == m.inputs_kept().regs[r] by {
        lemma_kept_idle(sched, split, 0, r);
        assert(phase.idle(r));
        assert(phase.end().regs[r] == phase.m.regs[r]);
    }
}

/// At the loop header, what the loop reads of the setup block is where it lives, given
/// that the registers kept for it are as the setup block left them.
proof fn lemma_header(
    alg: Algebra,
    tests: Tests,
    m: Machine,
    sched: Seq<(ValueId, ScheduledOp)>,
    split: int,
    xs: spec_fn(int) -> int,
    now: Machine,
    x: int,
    d: int,
)
    requires
        splits(sched, split),
        planned(sched, hoisted_homes(sched, split), reload()),
        tests.fit(alg),
        setup_without_x(sched, split),
        0 <= d < split,
        last_use(sched, sched[d].0) >= split,
        forall|r: Reg|
            r.0 >= 28 || 8 <= r.0 < 8 + crossers(sched, split, split) ==> #[trigger] now.regs[r]
                == hoisted_pixels(alg, tests, m, sched, split, xs, 0).regs[r],
    ensures
        alg.at_home(
            now.at_pixel(x),
            hoisted_homes(sched, split),
            sched[d].0,
            setup_values(alg, tests, m, sched, split)(sched[d].0),
        ),
{
    let at = hoisted_homes(sched, split);
    let given = setup_values(alg, tests, m, sched, split);
    let start = hoisted_pixels(alg, tests, m, sched, split, xs, 0);
    let first = m.inputs_kept().inputs_placed();
    let v = sched[d].0;
    lemma_setup(alg, tests, m, sched, split, xs);
    lemma_hoisted_home(sched, split, d);
    dense_schedules_are_single_assignment(sched);
    lemma_used_is_read(sched, d);
    assert(crosses(sched, split, d));
    reveal(setup_ok);
    assert(alg.at_home(start, at, v, given(v)));
    if let ScheduledOp::Var(y) = sched[d].1 {
        assert(y != 0);
        assert(given(v) == first.regs[Reg(y)]);
        assert(now.regs[Reg(29)] == start.regs[Reg(29)]);
        assert(now.regs[Reg(30)] == start.regs[Reg(30)]);
        assert(now.regs[Reg(31)] == start.regs[Reg(31)]);
    } else {
        assert(persists(sched, split, d));
        lemma_hoisted_persistent(sched, split, d);
        let r = at.regs[v.0];
        assert(now.regs[r] == start.regs[r]);
    }
}

/// What the loop starts a pixel with, and what it leaves.
#[verifier::spinoff_prover]
proof fn lemma_pixel(
    alg: Algebra,
    tests: Tests,
    m: Machine,
    sched: Seq<(ValueId, ScheduledOp)>,
    split: int,
    xs: spec_fn(int) -> int,
    i: int,
)
    requires
        splits(sched, split),
        planned(sched, hoisted_homes(sched, split), reload()),
        tests.fit(alg),
        setup_without_x(sched, split),
        0 <= i,
    ensures
        forall|r: Reg|
            r.0 >= 28 || 8 <= r.0 < 8 + crossers(sched, split, split)
                ==> #[trigger] hoisted_pixels(alg, tests, m, sched, split, xs, i).regs[r]
                == hoisted_pixels(alg, tests, m, sched, split, xs, 0).regs[r],
        pixel_ok(alg, tests, m, sched, split, xs, i),
    decreases i,
{
    let at = hoisted_homes(sched, split);
    let given = setup_values(alg, tests, m, sched, split);
    let start = hoisted_pixels(alg, tests, m, sched, split, xs, 0);
    let now = hoisted_pixels(alg, tests, m, sched, split, xs, i);
    let header = now.at_pixel(xs(i));
    if i > 0 {
        lemma_pixel(alg, tests, m, sched, split, xs, i - 1);
        let was = hoisted_pixels(alg, tests, m, sched, split, xs, i - 1);
        assert forall|r: Reg|
            r.0 >= 28 || 8 <= r.0 < 8 + crossers(sched, split, split) implies #[trigger] now.regs[r]
            == start.regs[r] by {
            lemma_kept_idle(sched, split, split, r);
            assert(was.regs[r] == start.regs[r]);
            reveal(pixel_ok);
            assert(pixel_phase(alg, tests, m, sched, split, xs, i - 1).idle(r));
            assert(now.regs[r] == was.at_pixel(xs(i - 1)).regs[r]);
        }
    }
    assert forall|d: int|
        0 <= d < split && last_use(sched, (#[trigger] sched[d]).0) >= split implies alg.at_home(
        header,
        at,
        sched[d].0,
        given(sched[d].0),
    ) by {
        lemma_header(alg, tests, m, sched, split, xs, now, xs(i), d);
    }
    assert(pixel_ok(alg, tests, m, sched, split, xs, i)) by {
        lemma_hoisted_settled(sched, split);
        lemma_phase_private(sched, split);
        pixel_phase(alg, tests, m, sched, split, xs, i).lemma_done();
        reveal(pixel_ok);
    }
}

/// The values of all entries at pixel `i`.
#[verifier::opaque]
spec fn pixel_values(
    alg: Algebra,
    tests: Tests,
    m: Machine,
    sched: Seq<(ValueId, ScheduledOp)>,
    split: int,
    xs: spec_fn(int) -> int,
    i: int,
) -> spec_fn(ValueId) -> int {
    pixel_phase(alg, tests, m, sched, split, xs, i).value()
}

/// At every pixel the inputs are in their registers, in the setup block all but X.
proof fn lemma_pixel_inputs(
    alg: Algebra,
    tests: Tests,
    m: Machine,
    sched: Seq<(ValueId, ScheduledOp)>,
    split: int,
    xs: spec_fn(int) -> int,
    i: int,
    x: u8,
)
    requires
        splits(sched, split),
        planned(sched, hoisted_homes(sched, split), reload()),
        tests.fit(alg),
        setup_without_x(sched, split),
        0 <= i,
        x < 4,
    ensures
        hoisted_pixels(alg, tests, m, sched, split, xs, i).at_pixel(xs(i)).regs[Reg(x)] == m.coordinates(
            xs(i),
        )(x),
        x > 0 ==> m.inputs_kept().inputs_placed().regs[Reg(x)] == m.coordinates(xs(i))(x),
{
    let now = hoisted_pixels(alg, tests, m, sched, split, xs, i);
    let start = hoisted_pixels(alg, tests, m, sched, split, xs, 0);
    lemma_setup(alg, tests, m, sched, split, xs);
    lemma_pixel(alg, tests, m, sched, split, xs, i);
    assert(now.regs[Reg(29)] == start.regs[Reg(29)]);
    assert(now.regs[Reg(30)] == start.regs[Reg(30)]);
    assert(now.regs[Reg(31)] == start.regs[Reg(31)]);
    assert(start.regs[Reg(29)] == m.inputs_kept().regs[Reg(29)]);
    assert(start.regs[Reg(30)] == m.inputs_kept().regs[Reg(30)]);
    assert(start.regs[Reg(31)] == m.inputs_kept().regs[Reg(31)]);
}

/// At every pixel each entry is computed from the entries it reads, variables are
/// the pixel's coordinates, and the last value is where it lives.
proof fn lemma_pixel_values(
    alg: Algebra,
    tests: Tests,
    m: Machine,
    sched: Seq<(ValueId, ScheduledOp)>,
    split: int,
    xs: spec_fn(int) -> int,
    i: int,
)
    requires
        splits(sched, split),
        split < sched.len(),
        planned(sched, hoisted_homes(sched, split), reload()),
        tests.fit(alg),
        setup_without_x(sched, split),
        0 <= i,
    ensures
        ({
            let val = pixel_values(alg, tests, m, sched, split, xs, i);
            &&& forall|k: int|
                0 <= k < sched.len() ==> alg.is_result(
                    (#[trigger] sched[k]).1,
                    val,
                    val(sched[k].0),
                )
            &&& forall|k: int|
                0 <= k < sched.len() ==> ((#[trigger] sched[k]).1 matches ScheduledOp::Var(x)
                    ==> val(sched[k].0) == m.coordinates(xs(i))(x))
            &&& alg.at_home(
                hoisted_pixels(alg, tests, m, sched, split, xs, i + 1),
                hoisted_homes(sched, split),
                sched.last().0,
                val(sched.last().0),
            )
        }),
{
    reveal(setup_ok);
    reveal(pixel_ok);
    reveal(pixel_values);
    let at = hoisted_homes(sched, split);
    let header = hoisted_pixels(alg, tests, m, sched, split, xs, i).at_pixel(xs(i));
    let given = setup_values(alg, tests, m, sched, split);
    let val = pixel_values(alg, tests, m, sched, split, xs, i);
    lemma_setup(alg, tests, m, sched, split, xs);
    lemma_pixel(alg, tests, m, sched, split, xs, i);
    assert forall|k: int| 0 <= k < sched.len() implies alg.is_result(
        (#[trigger] sched[k]).1,
        val,
        val(sched[k].0),
    ) && (sched[k].1 matches ScheduledOp::Var(x) ==> val(sched[k].0) == m.coordinates(xs(i))(
        x,
    )) by {
        assert(entry_ok(sched[k], k));
        if k < split {
            assert(alg.is_result(sched[k].1, given, given(sched[k].0)));
            assert forall|v: ValueId| #[trigger] sched[k].1.reads(v) implies given(v) == val(v) by {
                assert(v.0 < k);
            }
            lemma_same_operands(alg, sched[k].1, given, val, given(sched[k].0));
        }
        if let ScheduledOp::Var(x) = sched[k].1 {
            lemma_pixel_inputs(alg, tests, m, sched, split, xs, i, x);
        }
    }
    assert(sched.last() == sched[sched.len() - 1]);
}

/// A value kept for the loop has a register.
proof fn lemma_hoisted_persistent(sched: Seq<(ValueId, ScheduledOp)>, split: int, d: int)
    requires
        splits(sched, split),
        persists(sched, split, d),
    ensures
        hoisted_homes(sched, split).regs.contains_key(sched[d].0.0),
{
    let pre = hoisted_places(sched, split);
    let regs = spare_regs(sched, split);
    dense_schedules_are_single_assignment(sched);
    scan_places_each_value_once(sched, pre, regs as nat, SCRATCH_BASE as nat);
    assert(entry_ok(sched[d], d));
    assert(pre.contains_key(sched[d].0.0));
}

/// If every entry of a two-phase schedule is computed from the entries it reads,
/// then the entry of each node is a value of the expression at that node.
pub proof fn two_phases_evaluate_the_expression(
    alg: Algebra,
    m: ArenaModel,
    root: ExprId,
    choice: Seq<bool>,
    val: spec_fn(ValueId) -> int,
    inputs: spec_fn(u8) -> int,
    i: int,
)
    requires
        m.wf(),
        m.has(root),
        schedulable(m, root.0 as int, false),
        forall|k: int|
            0 <= k < two_phase(m, root, choice).len() ==> alg.is_result(
                (#[trigger] two_phase(m, root, choice)[k]).1,
                val,
                val(two_phase(m, root, choice)[k].0),
            ),
        forall|k: int|
            0 <= k < two_phase(m, root, choice).len() ==> ((#[trigger] two_phase(
                m,
                root,
                choice,
            )[k]).1 matches ScheduledOp::Var(x) ==> val(two_phase(m, root, choice)[k].0) == inputs(
                x,
            )),
        0 <= i < m.nodes.len(),
        reaches(m, root.0 as int, i),
    ensures
        alg.values(m.term(i), false, inputs).contains(
            val(two_phase_ids(m, root, choice)(ExprId(i as u32))),
        ),
    decreases i,
{
    let r = root.0 as int;
    let sched = two_phase(m, root, choice);
    let ids = two_phase_ids(m, root, choice);
    let v = ids(ExprId(i as u32));
    two_phase_lists_each_node(m, root, choice, i);
    lemma_term_kids(m, i);
    assert(node_schedulable(m, m.nodes[i], false));
    assert(alg.is_result(sched[v.0 as int].1, val, val(sched[v.0 as int].0)));
    assert forall|j: int| 0 <= j < m.kids(i).len() implies alg.values(
        #[trigger] m.term(i).kids[j],
        false,
        inputs,
    ).contains(val(ids(m.kids(i)[j]))) by {
        let c = m.kids(i)[j];
        lemma_reaches_kid(m, r, i, j);
        two_phases_evaluate_the_expression(alg, m, root, choice, val, inputs, c.0 as int);
        assert(ExprId(c.0 as u32) == c);
    }
    lemma_node_evaluates(alg, m, ids, false, val, inputs, i, val(v));
}

/// The scanline of an expression is compiled with a setup block, and its plans can
/// be run.
pub open spec fn hoisted_runnable(m: ArenaModel, root: ExprId) -> bool {
    let sched = default_two_phase(m, root);
    let split = default_split(m, root);
    &&& m.wf()
    &&& m.has(root)
    &&& schedulable(m, root.0 as int, false)
    &&& splits(sched, split)
    &&& crossers(sched, split, split) > 0
    &&& planned(sched, hoisted_homes(sched, split), reload())
}

/// A scanline kernel with a setup block computes its expression at every pixel:
/// called with Y, Z and W in V0 to V2, it leaves a value of the expression at the
/// pixel's X and these where the root lives, though what does not depend on X is
/// computed once, and whichever branches are taken.
pub proof fn hoisted_scanlines_evaluate_every_pixel(
    alg: Algebra,
    tests: Tests,
    machine: Machine,
    m: ArenaModel,
    root: ExprId,
    xs: spec_fn(int) -> int,
    i: int,
)
    requires
        hoisted_runnable(m, root),
        tests.fit(alg),
        0 <= i,
    ensures
        ({
            let sched = default_two_phase(m, root);
            let split = default_split(m, root);
            exists|x: int|
                alg.at_home(
                    hoisted_pixels(alg, tests, machine, sched, split, xs, i + 1),
                    hoisted_homes(sched, split),
                    sched.last().0,
                    x,
                ) && #[trigger] alg.values(
                    m.term(root.0 as int),
                    false,
                    machine.coordinates(xs(i)),
                ).contains(x)
        }),
{
    let r = root.0 as int;
    let choice = default_choices(m);
    let sched = default_two_phase(m, root);
    let split = default_split(m, root);
    let inputs = machine.coordinates(xs(i));
    let val = pixel_values(alg, tests, machine, sched, split, xs, i);
    assert(setup_without_x(sched, split)) by {
        assert forall|d: int| 0 <= d < split implies (#[trigger] sched[d]).1
            != ScheduledOp::Var(0) by {
            x_is_not_in_setup(m, root, d);
        }
    }
    root_comes_last(m, root, choice);
    lemma_pixel_values(alg, tests, machine, sched, split, xs, i);
    assert(reaches(m, r, r));
    two_phases_evaluate_the_expression(alg, m, root, choice, val, inputs, r);
    assert(ExprId(r as u32) == root);
    assert(alg.values(m.term(r), false, inputs).contains(val(sched.last().0)));
}

/// A scanline kernel without a setup block, after `i` pixels of X coordinates `xs`.
pub open spec fn flat_pixels(
    alg: Algebra,
    tests: Tests,
    m: Machine,
    sched: Seq<(ValueId, ScheduledOp)>,
    regs: u8,
    xs: spec_fn(int) -> int,
    i: int,
) -> Machine
    decreases i,
{
    if i <= 0 {
        m.inputs_kept()
    } else {
        let header = flat_pixels(alg, tests, m, sched, regs, xs, i - 1).at_pixel(xs(i - 1));
        let job = job_of(sched, input_places(sched), regs, 0);
        run(alg, tests, job, reload(), header, 0, sched.len() as int).machine
    }
}

proof fn lemma_flat_kept(
    alg: Algebra,
    tests: Tests,
    m: Machine,
    sched: Seq<(ValueId, ScheduledOp)>,
    regs: u8,
    xs: spec_fn(int) -> int,
    i: int,
    r: Reg,
)
    requires
        runnable(sched, regs, reload()),
        tests.fit(alg),
        0 <= i,
        r.0 >= 28,
    ensures
        flat_pixels(alg, tests, m, sched, regs, xs, i).regs[r] == m.inputs_kept().regs[r],
    decreases i,
{
    if i > 0 {
        let at = places_of(sched, input_places(sched), regs);
        let header = flat_pixels(alg, tests, m, sched, regs, xs, i - 1).at_pixel(xs(i - 1));
        lemma_flat_kept(alg, tests, m, sched, regs, xs, i - 1, r);
        let phase = flat_phase(alg, tests, header, sched, regs, reload());
        lemma_flat_phase(alg, tests, header, sched, regs, reload());
        phase.lemma_done();
        assert(idle(sched, at, reload(), 0, r)) by {
            assert forall|k: int|
                0 <= k < sched.len() && !(sched[k].1 is Var) implies #[trigger] target(
                sched,
                at,
                reload(),
                k,
            ) != r by {
                lemma_home(sched, regs, k);
            }
        }
        assert(phase.idle(r));
    }
}

/// A scanline kernel that computes everything for every pixel computes its
/// expression at every pixel: called with Y, Z and W in V0 to V2, it leaves a value
/// of the expression at the pixel's X and these where the root lives, whichever
/// branches are taken.
pub proof fn flat_scanlines_evaluate_every_pixel(
    alg: Algebra,
    tests: Tests,
    machine: Machine,
    m: ArenaModel,
    root: ExprId,
    regs: u8,
    xs: spec_fn(int) -> int,
    i: int,
)
    requires
        m.wf(),
        m.has(root),
        schedulable(m, root.0 as int, true),
        runnable(schedule_of(m, root, true), regs, reload()),
        tests.fit(alg),
        0 <= i,
    ensures
        ({
            let sched = schedule_of(m, root, true);
            exists|x: int|
                alg.at_home(
                    flat_pixels(alg, tests, machine, sched, regs, xs, i + 1),
                    places_of(sched, input_places(sched), regs),
                    sched.last().0,
                    x,
                ) && #[trigger] alg.values(
                    m.term(root.0 as int),
                    true,
                    machine.coordinates(xs(i)),
                ).contains(x)
        }),
{
    let sched = schedule_of(m, root, true);
    let now = flat_pixels(alg, tests, machine, sched, regs, xs, i);
    let header = now.at_pixel(xs(i));
    lemma_flat_kept(alg, tests, machine, sched, regs, xs, i, Reg(29));
    lemma_flat_kept(alg, tests, machine, sched, regs, xs, i, Reg(30));
    lemma_flat_kept(alg, tests, machine, sched, regs, xs, i, Reg(31));
    guarded_kernels_evaluate_the_expression(
        alg,
        tests,
        header,
        m,
        root,
        regs,
        reload(),
        machine.coordinates(xs(i)),
    );
}

/// An SSE scanline kernel, after `i` pixels of X coordinates `xs`.
pub open spec fn tree_pixels(
    alg: Algebra,
    m: Machine,
    t: Term,
    xs: spec_fn(int) -> int,
    i: int,
) -> Machine
    decreases i,
{
    if i <= 0 {
        m.inputs_raised()
    } else {
        let header = tree_pixels(alg, m, t, xs, i - 1).with_reg(Reg(0), xs(i - 1));
        alg.insts(header, tree_of(t, 0)->Done_0.0)
    }
}

/// An SSE scanline kernel computes its expression at every pixel: called with Y, Z
/// and W in xmm0 to xmm2, its instructions leave the value of the expression at the
/// pixel's X and these in the register that is stored. X is loaded anew for every
/// pixel; Y, Z and W stay in their registers.
pub proof fn tree_scanlines_evaluate_every_pixel(
    alg: Algebra,
    machine: Machine,
    t: Term,
    xs: spec_fn(int) -> int,
    i: int,
)
    requires
        alg.commutes_as_told(),
        tree_of(t, 0) is Done,
        0 <= i,
    ensures
        ({
            let after = tree_pixels(alg, machine, t, xs, i + 1);
            &&& after.regs[tree_of(t, 0)->Done_0.1] == alg.value(t, machine.coordinates(xs(i)))
            &&& forall|y: u8|
                1 <= y < 4 ==> #[trigger] after.regs[Reg(y)] == machine.coordinates(xs(i))(y)
        }),
    decreases i,
{
    let inputs = machine.coordinates(xs(i));
    let header = tree_pixels(alg, machine, t, xs, i).with_reg(Reg(0), xs(i));
    if i > 0 {
        tree_scanlines_evaluate_every_pixel(alg, machine, t, xs, i - 1);
    }
    assert forall|y: u8| y < 4 implies #[trigger] header.regs[Reg(y)] == inputs(y) by {
        if i > 0 && y >= 1 {
            assert(header.regs[Reg(y)] == machine.coordinates(xs(i - 1))(y));
        }
    }
    tree_code_computes_the_expression(alg, header, t, 0, inputs);
}

} // verus!
