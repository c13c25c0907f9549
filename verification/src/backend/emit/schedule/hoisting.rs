//! Two-phase schedules: what does not change along a scanline is computed once,
//! before the pixel loop.

use crate::arena::link::{lemma_reaches_below, lemma_reaches_kid, rank, reaches};
use crate::arena::model::{lemma_term_kids, ArenaModel};
use crate::arena::{ExprArena, ExprId, ExprNode};
use crate::backend::emit::regalloc::ValueId;
use crate::backend::emit::schedule::{
    dense, entry_ok, lemma_op_reads, node_schedulable, ranked, schedulable, schedule_below,
    schedule_node, schedule_of, scheduled_op, ScheduledOp,
};
use crate::variance::{compute_arena_variance, mentions, variance_of, Variance};
use vstd::prelude::*;

verus! {

/// A schedule in two phases: entries before `split` are computed once, entries
/// from `split` on once per pixel batch. Each phase keeps operands first.
#[derive(Debug)]
pub struct HoistedSchedule {
    /// Both phases.
    pub schedule: Vec<(ValueId, ScheduledOp)>,
    /// Where the loop phase starts.
    pub split: usize,
    /// How many values of the first phase the second reads.
    pub num_hoisted: usize,
}

/// Variables, constants and parameters are not worth hoisting on their own.
pub open spec fn trivial(n: ExprNode) -> bool {
    n is Var || n is Const || n is Param
}

/// Node `s` is chosen for the setup phase.
pub open spec fn chosen(m: ArenaModel, root: int, choice: Seq<bool>, s: int) -> bool {
    0 <= s < m.nodes.len() && reaches(m, root, s) && !trivial(m.nodes[s]) && choice[s]
}

/// Node `i` belongs to the setup phase: a chosen node needs it.
pub open spec fn in_setup(m: ArenaModel, root: int, choice: Seq<bool>, i: int) -> bool {
    exists|s: int| #[trigger] chosen(m, root, choice, s) && reaches(m, s, i)
}

/// The nodes of the setup phase.
pub open spec fn setup_nodes(m: ArenaModel, root: int, choice: Seq<bool>) -> Seq<bool> {
    Seq::new(m.nodes.len(), |i: int| reaches(m, root, i) && in_setup(m, root, choice, i))
}

/// The nodes of the loop phase.
pub open spec fn loop_nodes(m: ArenaModel, root: int, choice: Seq<bool>) -> Seq<bool> {
    Seq::new(m.nodes.len(), |i: int| reaches(m, root, i) && !in_setup(m, root, choice, i))
}

/// How many of the first `i` nodes are selected.
pub open spec fn count(sel: Seq<bool>, i: int) -> nat
    decreases i,
{
    if i <= 0 {
        0
    } else {
        count(sel, i - 1) + if sel[i - 1] {
            1nat
        } else {
            0nat
        }
    }
}

/// Numbers of the nodes: the setup phase first, each phase in arena order.
pub open spec fn phase_ids(setup: Seq<bool>, looped: Seq<bool>) -> spec_fn(ExprId) -> ValueId {
    |id: ExprId|
        if setup[id.0 as int] {
            ValueId(count(setup, id.0 as int) as u32)
        } else {
            ValueId((count(setup, setup.len() as int) + count(looped, id.0 as int)) as u32)
        }
}

/// The entries of the selected nodes among the first `i`.
pub open spec fn phase(
    m: ArenaModel,
    ids: spec_fn(ExprId) -> ValueId,
    sel: Seq<bool>,
    i: int,
) -> Seq<(ValueId, ScheduledOp)>
    decreases i,
{
    if i <= 0 {
        Seq::empty()
    } else if sel[i - 1] {
        phase(m, ids, sel, i - 1).push(
            (ids(ExprId((i - 1) as u32)), scheduled_op(m, ids, m.nodes[i - 1], false)),
        )
    } else {
        phase(m, ids, sel, i - 1)
    }
}

/// The two-phase schedule of the expression at `root`.
pub open spec fn two_phase(m: ArenaModel, root: ExprId, choice: Seq<bool>) -> Seq<
    (ValueId, ScheduledOp),
> {
    let r = root.0 as int;
    let n = m.nodes.len() as int;
    let setup = setup_nodes(m, r, choice);
    let looped = loop_nodes(m, r, choice);
    let ids = phase_ids(setup, looped);
    phase(m, ids, setup, n) + phase(m, ids, looped, n)
}

/// Some entry from `split` on reads value `v`.
pub open spec fn crosses(sched: Seq<(ValueId, ScheduledOp)>, split: int, v: int) -> bool {
    exists|p: int|
        split <= p < sched.len() && #[trigger] sched[p].1.reads(ValueId(v as u32))
}

/// How many of the first `k` values an entry from `split` on reads.
pub open spec fn crossers(sched: Seq<(ValueId, ScheduledOp)>, split: int, k: int) -> nat
    decreases k,
{
    if k <= 0 {
        0
    } else {
        crossers(sched, split, k - 1) + if crosses(sched, split, k - 1) {
            1nat
        } else {
            0nat
        }
    }
}

/// `h` is the two-phase schedule for a choice of setup nodes.
pub open spec fn hoists(m: ArenaModel, root: ExprId, choice: Seq<bool>, h: HoistedSchedule) -> bool {
    &&& h.schedule@ == two_phase(m, root, choice)
    &&& h.split == count(setup_nodes(m, root.0 as int, choice), m.nodes.len() as int)
    &&& h.num_hoisted == crossers(h.schedule@, h.split as int, h.split as int)
}

/// The choice is one the predicate makes.
pub open spec fn chosen_by<F: Fn(Variance) -> bool>(
    m: ArenaModel,
    root: ExprId,
    partition: F,
    choice: Seq<bool>,
) -> bool {
    &&& choice.len() == m.nodes.len()
    &&& forall|i: int|
        0 <= i < m.nodes.len() && reaches(m, root.0 as int, i) && !trivial(m.nodes[i])
            ==> call_ensures(partition, (variance_of(m.term(i)),), #[trigger] choice[i])
}

proof fn lemma_count_bound(sel: Seq<bool>, i: int)
    requires
        0 <= i,
    ensures
        count(sel, i) <= i,
    decreases i,
{
    if i > 0 {
        lemma_count_bound(sel, i - 1);
    }
}

proof fn lemma_count_grows(sel: Seq<bool>, i: int, j: int)
    requires
        0 <= i <= j,
    ensures
        count(sel, i) <= count(sel, j),
        i < j && sel[i] ==> count(sel, i) < count(sel, j),
    decreases j,
{
    if i < j {
        lemma_count_grows(sel, i, j - 1);
    }
}

proof fn lemma_two_counts(a: Seq<bool>, b: Seq<bool>, i: int)
    requires
        0 <= i <= a.len(),
        a.len() == b.len(),
        forall|j: int| 0 <= j < a.len() ==> !(#[trigger] a[j] && b[j]),
    ensures
        count(a, i) + count(b, i) <= i,
    decreases i,
{
    if i > 0 {
        lemma_two_counts(a, b, i - 1);
        assert(!(a[i - 1] && b[i - 1]));
    }
}

/// What a setup node needs is in the setup phase; everything a node of the
/// expression needs occurs in the expression.
proof fn lemma_setup_kid(m: ArenaModel, root: int, choice: Seq<bool>, i: int, j: int)
    requires
        m.wf(),
        0 <= root < m.nodes.len(),
        0 <= i < m.nodes.len(),
        reaches(m, root, i),
        0 <= j < m.kids(i).len(),
    ensures
        reaches(m, root, m.kids(i)[j].0 as int),
        in_setup(m, root, choice, i) ==> in_setup(m, root, choice, m.kids(i)[j].0 as int),
{
    lemma_term_kids(m, i);
    lemma_reaches_kid(m, root, i, j);
    if in_setup(m, root, choice, i) {
        let s = choose|s: int| #[trigger] chosen(m, root, choice, s) && reaches(m, s, i);
        lemma_reaches_kid(m, s, i, j);
        assert(chosen(m, root, choice, s) && reaches(m, s, m.kids(i)[j].0 as int));
    }
}

proof fn lemma_phase(
    m: ArenaModel,
    ids: spec_fn(ExprId) -> ValueId,
    sel: Seq<bool>,
    base: nat,
    i: int,
)
    requires
        m.wf(),
        0 <= i <= m.nodes.len(),
        sel.len() == m.nodes.len(),
        base + count(sel, m.nodes.len() as int) <= u32::MAX + 1,
        forall|k: int|
            0 <= k < m.nodes.len() && #[trigger] sel[k] ==> ids(ExprId(k as u32)).0 == base + count(
                sel,
                k,
            ),
        forall|k: int, j: int|
            0 <= k < m.nodes.len() && sel[k] && 0 <= j < m.kids(k).len() ==> ids(
                #[trigger] m.kids(k)[j],
            ).0 < base + count(sel, k),
    ensures
        phase(m, ids, sel, i).len() == count(sel, i),
        forall|p: int|
            0 <= p < phase(m, ids, sel, i).len() ==> entry_ok(
                #[trigger] phase(m, ids, sel, i)[p],
                base + p,
            ),
    decreases i,
{
    if i > 0 {
        lemma_phase(m, ids, sel, base, i - 1);
        if sel[i - 1] {
            let now = phase(m, ids, sel, i);
            let before = phase(m, ids, sel, i - 1);
            let q = before.len() as int;
            assert forall|v: ValueId| #[trigger] now[q].1.reads(v) implies v.0 < base + q by {
                lemma_op_reads(m, ids, i - 1, false, v);
                let j = choose|j: int|
                    0 <= j < m.kids(i - 1).len() && v == ids(#[trigger] m.kids(i - 1)[j]);
                assert(ids(m.kids(i - 1)[j]).0 < base + count(sel, i - 1));
            }
            assert forall|p: int| 0 <= p < now.len() implies entry_ok(
                #[trigger] now[p],
                base + p,
            ) by {
                if p < q {
                    assert(now[p] == before[p]);
                }
            }
        }
    }
}

/// The numbering of the two phases.
proof fn lemma_phase_ids(m: ArenaModel, root: ExprId, choice: Seq<bool>)
    requires
        m.wf(),
        m.has(root),
    ensures
        ({
            let r = root.0 as int;
            let n = m.nodes.len() as int;
            let setup = setup_nodes(m, r, choice);
            let looped = loop_nodes(m, r, choice);
            let ids = phase_ids(setup, looped);
            &&& count(setup, n) + count(looped, n) <= n
            &&& forall|k: int|
                0 <= k < n && #[trigger] setup[k] ==> ids(ExprId(k as u32)).0 == count(setup, k)
            &&& forall|k: int|
                0 <= k < n && #[trigger] looped[k] ==> ids(ExprId(k as u32)).0 == count(setup, n)
                    + count(looped, k)
            &&& forall|k: int, j: int|
                0 <= k < n && setup[k] && 0 <= j < m.kids(k).len() ==> ids(
                    #[trigger] m.kids(k)[j],
                ).0 < count(setup, k)
            &&& forall|k: int, j: int|
                0 <= k < n && looped[k] && 0 <= j < m.kids(k).len() ==> ids(
                    #[trigger] m.kids(k)[j],
                ).0 < count(setup, n) + count(looped, k)
            &&& forall|k: int, j: int|
                0 <= k < n && setup[k] && 0 <= j < m.kids(k).len() ==> setup[(
                #[trigger] m.kids(k)[j]).0 as int]
            &&& forall|k: int, j: int|
                0 <= k < n && looped[k] && 0 <= j < m.kids(k).len() ==> setup[(
                #[trigger] m.kids(k)[j]).0 as int] || looped[m.kids(k)[j].0 as int]
        }),
{
    let r = root.0 as int;
    let n = m.nodes.len() as int;
    let setup = setup_nodes(m, r, choice);
    let looped = loop_nodes(m, r, choice);
    let ids = phase_ids(setup, looped);
    lemma_two_counts(setup, looped, n);
    assert forall|k: int| 0 <= k < n && #[trigger] setup[k] implies ids(ExprId(k as u32)).0
        == count(setup, k) by {
        lemma_count_grows(setup, k, n);
    }
    assert forall|k: int| 0 <= k < n && #[trigger] looped[k] implies ids(ExprId(k as u32)).0
        == count(setup, n) + count(looped, k) by {
        lemma_count_grows(looped, k, n);
    }
    assert forall|k: int, j: int| 0 <= k < n && setup[k] && 0 <= j < m.kids(k).len() implies setup[(
    #[trigger] m.kids(k)[j]).0 as int] by {
        lemma_term_kids(m, k);
        lemma_setup_kid(m, r, choice, k, j);
    }
    assert forall|k: int, j: int|
        0 <= k < n && looped[k] && 0 <= j < m.kids(k).len() implies setup[(
    #[trigger] m.kids(k)[j]).0 as int] || looped[m.kids(k)[j].0 as int] by {
        lemma_term_kids(m, k);
        lemma_setup_kid(m, r, choice, k, j);
    }
    assert forall|k: int, j: int| 0 <= k < n && setup[k] && 0 <= j < m.kids(k).len() implies ids(
        #[trigger] m.kids(k)[j],
    ).0 < count(setup, k) by {
        lemma_term_kids(m, k);
        let c = m.kids(k)[j];
        assert(setup[c.0 as int]);
        assert(ExprId(c.0) == c);
        lemma_count_grows(setup, c.0 as int, k);
        lemma_count_grows(setup, c.0 as int, n);
    }
    assert forall|k: int, j: int| 0 <= k < n && looped[k] && 0 <= j < m.kids(k).len() implies ids(
        #[trigger] m.kids(k)[j],
    ).0 < count(setup, n) + count(looped, k) by {
        lemma_term_kids(m, k);
        let c = m.kids(k)[j];
        assert(setup[c.0 as int] || looped[c.0 as int]);
        assert(ExprId(c.0) == c);
        lemma_count_grows(setup, c.0 as int, n);
        lemma_count_grows(looped, c.0 as int, k);
        lemma_count_grows(looped, c.0 as int, n);
    }
}

/// A two-phase schedule is dense, and the setup phase reads nothing of the loop
/// phase. Together the phases have one entry per node of the expression.
pub proof fn hoisted_schedules_are_dense(m: ArenaModel, root: ExprId, choice: Seq<bool>)
    requires
        m.wf(),
        m.has(root),
    ensures
        dense(two_phase(m, root, choice)),
        two_phase(m, root, choice).len() == count(
            setup_nodes(m, root.0 as int, choice),
            m.nodes.len() as int,
        ) + count(loop_nodes(m, root.0 as int, choice), m.nodes.len() as int),
        two_phase(m, root, choice).len() <= m.nodes.len(),
{
    let r = root.0 as int;
    let n = m.nodes.len() as int;
    let setup = setup_nodes(m, r, choice);
    let looped = loop_nodes(m, r, choice);
    let ids = phase_ids(setup, looped);
    lemma_phase_ids(m, root, choice);
    lemma_phase(m, ids, setup, 0, n);
    lemma_phase(m, ids, looped, count(setup, n), n);
    let a = phase(m, ids, setup, n);
    let b = phase(m, ids, looped, n);
    let all = two_phase(m, root, choice);
    assert forall|k: int| 0 <= k < all.len() implies entry_ok(#[trigger] all[k], k) by {
        if k < a.len() {
            assert(entry_ok(a[k], 0 + k));
        } else {
            assert(entry_ok(b[k - a.len()], count(setup, n) + (k - a.len())));
        }
    }
}

proof fn lemma_phase_entry(
    m: ArenaModel,
    ids: spec_fn(ExprId) -> ValueId,
    sel: Seq<bool>,
    k: int,
    i: int,
)
    requires
        0 <= k < i,
        sel[k],
    ensures
        phase(m, ids, sel, i).len() == count(sel, i),
        count(sel, k) < count(sel, i),
        phase(m, ids, sel, i)[count(sel, k) as int] == (
            ids(ExprId(k as u32)),
            scheduled_op(m, ids, m.nodes[k], false),
        ),
    decreases i,
{
    lemma_phase_len(m, ids, sel, i);
    lemma_phase_len(m, ids, sel, i - 1);
    if k < i - 1 {
        lemma_phase_entry(m, ids, sel, k, i - 1);
    }
}

proof fn lemma_phase_len(m: ArenaModel, ids: spec_fn(ExprId) -> ValueId, sel: Seq<bool>, i: int)
    ensures
        phase(m, ids, sel, i).len() == count(sel, i),
    decreases i,
{
    if i > 0 {
        lemma_phase_len(m, ids, sel, i - 1);
    }
}

proof fn lemma_phase_source(
    m: ArenaModel,
    ids: spec_fn(ExprId) -> ValueId,
    sel: Seq<bool>,
    p: int,
    i: int,
) -> (k: int)
    requires
        0 <= p < phase(m, ids, sel, i).len(),
    ensures
        0 <= k < i,
        sel[k],
        phase(m, ids, sel, i)[p] == (
            ids(ExprId(k as u32)),
            scheduled_op(m, ids, m.nodes[k], false),
        ),
    decreases i,
{
    if sel[i - 1] && p == phase(m, ids, sel, i).len() - 1 {
        i - 1
    } else {
        lemma_phase_source(m, ids, sel, p, i - 1)
    }
}

/// The numbers of the nodes in a two-phase schedule.
pub open spec fn two_phase_ids(m: ArenaModel, root: ExprId, choice: Seq<bool>) -> spec_fn(
    ExprId,
) -> ValueId {
    phase_ids(setup_nodes(m, root.0 as int, choice), loop_nodes(m, root.0 as int, choice))
}

/// A two-phase schedule has an entry for every node of the expression.
pub proof fn two_phase_lists_each_node(
    m: ArenaModel,
    root: ExprId,
    choice: Seq<bool>,
    k: int,
)
    requires
        m.wf(),
        m.has(root),
        0 <= k < m.nodes.len(),
        reaches(m, root.0 as int, k),
    ensures
        ({
            let ids = two_phase_ids(m, root, choice);
            let v = ids(ExprId(k as u32));
            &&& v.0 < two_phase(m, root, choice).len()
            &&& two_phase(m, root, choice)[v.0 as int] == (
                v,
                scheduled_op(m, ids, m.nodes[k], false),
            )
        }),
{
    let r = root.0 as int;
    let n = m.nodes.len() as int;
    let setup = setup_nodes(m, r, choice);
    let looped = loop_nodes(m, r, choice);
    let ids = two_phase_ids(m, root, choice);
    lemma_phase_ids(m, root, choice);
    lemma_phase_len(m, ids, setup, n);
    if setup[k] {
        lemma_phase_entry(m, ids, setup, k, n);
    } else {
        assert(looped[k]);
        lemma_phase_entry(m, ids, looped, k, n);
    }
}

/// No entry of the setup phase that the default choice makes is the variable X.
pub proof fn x_is_not_in_setup(m: ArenaModel, root: ExprId, p: int)
    requires
        m.wf(),
        m.has(root),
        schedulable(m, root.0 as int, false),
        0 <= p < count(setup_nodes(m, root.0 as int, default_choices(m)), m.nodes.len() as int),
    ensures
        two_phase(m, root, default_choices(m))[p].1 != ScheduledOp::Var(0),
{
    let choice = default_choices(m);
    let n = m.nodes.len() as int;
    let setup = setup_nodes(m, root.0 as int, choice);
    let ids = two_phase_ids(m, root, choice);
    lemma_phase_len(m, ids, setup, n);
    let k = lemma_phase_source(m, ids, setup, p, n);
    setup_values_do_not_depend_on_x(m, root, k);
    lemma_term_kids(m, k);
    assert(two_phase(m, root, choice)[p] == phase(m, ids, setup, n)[p]);
    assert(node_schedulable(m, m.nodes[k], false));
    if m.nodes[k] == ExprNode::Var(0) {
        assert(mentions(m.term(k), 0));
    }
}

/// If the loop reads something of the setup phase, the root comes last.
pub proof fn root_comes_last(m: ArenaModel, root: ExprId, choice: Seq<bool>)
    requires
        m.wf(),
        m.has(root),
        ({
            let split = count(setup_nodes(m, root.0 as int, choice), m.nodes.len() as int) as int;
            crossers(two_phase(m, root, choice), split, split) > 0
        }),
    ensures
        two_phase(m, root, choice).last().0 == two_phase_ids(m, root, choice)(root),
        two_phase(m, root, choice).len() > count(
            setup_nodes(m, root.0 as int, choice),
            m.nodes.len() as int,
        ),
{
    let r = root.0 as int;
    let n = m.nodes.len() as int;
    let setup = setup_nodes(m, r, choice);
    let looped = loop_nodes(m, r, choice);
    let ids = two_phase_ids(m, root, choice);
    let sched = two_phase(m, root, choice);
    let split = count(setup, n) as int;
    hoisted_schedules_are_dense(m, root, choice);
    lemma_some_crosses(sched, split, split);
    assert(reaches(m, r, r));
    if setup[r] {
        let s = choose|s: int| #[trigger] chosen(m, r, choice, s) && reaches(m, s, r);
        lemma_reaches_below(m, r, s);
        lemma_reaches_below(m, s, r);
        assert(s == r);
        assert forall|k: int| 0 <= k < n implies !(#[trigger] looped[k]) by {
            if reaches(m, r, k) {
                assert(in_setup(m, r, choice, k));
            }
        }
        lemma_nothing_counted(looped, n);
    }
    assert(looped[r]);
    lemma_count_stops(looped, r, n, m, r);
    lemma_phase_ids(m, root, choice);
    two_phase_lists_each_node(m, root, choice, r);
    assert(ExprId(r as u32) == root);
    assert(ids(ExprId(r as u32)).0 == count(setup, n) + count(looped, r));
}

proof fn lemma_count_stops(sel: Seq<bool>, r: int, i: int, m: ArenaModel, root: int)
    requires
        0 <= r < i <= m.nodes.len(),
        r == root,
        sel.len() == m.nodes.len(),
        sel[r],
        forall|k: int| 0 <= k < m.nodes.len() && #[trigger] sel[k] ==> reaches(m, root, k),
    ensures
        count(sel, i) == count(sel, r) + 1,
    decreases i,
{
    if i > r + 1 {
        lemma_count_stops(sel, r, i - 1, m, root);
        if sel[i - 1] {
            lemma_reaches_below(m, root, i - 1);
        }
    }
}

proof fn lemma_some_crosses(sched: Seq<(ValueId, ScheduledOp)>, split: int, k: int)
    requires
        crossers(sched, split, k) > 0,
    ensures
        sched.len() > split,
    decreases k,
{
    if !crosses(sched, split, k - 1) {
        lemma_some_crosses(sched, split, k - 1);
    }
}

/// Which nodes the setup phase holds: the chosen ones and what they need.
fn mark_setup(
    arena: &ExprArena,
    root: ExprId,
    picked: &Vec<bool>,
    Ghost(choice): Ghost<Seq<bool>>,
) -> (marks: Vec<bool>)
    requires
        arena@.wf(),
        arena@.has(root),
        picked@.len() == arena@.nodes.len(),
        forall|i: int|
            0 <= i < picked@.len() ==> #[trigger] picked@[i] == chosen(
                arena@,
                root.0 as int,
                choice,
                i,
            ),
    ensures
        marks@ == setup_nodes(arena@, root.0 as int, choice),
{
    let ghost m = arena@;
    let ghost r = root.0 as int;
    let n: usize = arena.len();
    let mut marks: Vec<bool> = Vec::new();
    let mut i: usize = 0;
    while i < n
        invariant
            i <= n,
            n == picked@.len(),
            marks@ == picked@.take(i as int),
        decreases n - i,
    {
        marks.push(picked[i]);
        assert(marks@ =~= picked@.take(i as int + 1));
        i += 1;
    }
    assert(picked@.take(n as int) =~= picked@);
    let mut i: usize = n;
    proof {
        assert forall|k: int| 0 <= k < n && #[trigger] marks@[k] implies reaches(m, r, k)
            && in_setup(m, r, choice, k) by {
            assert(picked@[k] == chosen(m, r, choice, k));
            assert(reaches(m, k, k));
        }
    }
    while i > 0
        invariant
            i <= n,
            n == m.nodes.len(),
            m == arena@,
            r == root.0,
            m.wf(),
            m.has(root),
            marks@.len() == n,
            picked@.len() == n,
            forall|k: int|
                0 <= k < n ==> #[trigger] picked@[k] == chosen(m, r, choice, k),
            forall|k: int| 0 <= k < n && #[trigger] picked@[k] ==> marks@[k],
            forall|k: int|
                0 <= k < n && #[trigger] marks@[k] ==> reaches(m, r, k) && in_setup(
                    m,
                    r,
                    choice,
                    k,
                ),
            forall|k: int, j: int|
                i <= k < n && marks@[k] && 0 <= j < m.kids(k).len() ==> marks@[(
                #[trigger] m.kids(k)[j]).0 as int],
        decreases i,
    {
        i -= 1;
        if marks[i] {
            let id = ExprId(i as u32);
            proof {
                assert(m.node_ok(i as int, m.nodes[i as int]));
                lemma_term_kids(m, i as int);
            }
            let kids = arena.children(id).collect();
            let mut k: usize = 0;
            while k < kids.len()
                invariant
                    k <= kids@.len(),
                    i < n,
                    n == m.nodes.len(),
                    m == arena@,
                    r == root.0,
                    m.wf(),
                    m.has(root),
                    kids@ == m.kids(i as int),
                    marks@.len() == n,
                    marks@[i as int],
                    picked@.len() == n,
                    forall|k: int|
                        0 <= k < n ==> #[trigger] picked@[k] == chosen(m, r, choice, k),
                    forall|k: int| 0 <= k < n && #[trigger] picked@[k] ==> marks@[k],
                    forall|j: int|
                        0 <= j < kids@.len() ==> 0 <= (#[trigger] m.kids(i as int)[j]).0 < i,
                    forall|k: int|
                        0 <= k < n && #[trigger] marks@[k] ==> reaches(m, r, k) && in_setup(
                            m,
                            r,
                            choice,
                            k,
                        ),
                    forall|h: int, j: int|
                        i < h < n && marks@[h] && 0 <= j < m.kids(h).len() ==> marks@[(
                        #[trigger] m.kids(h)[j]).0 as int],
                    forall|j: int|
                        0 <= j < k ==> marks@[(#[trigger] m.kids(i as int)[j]).0 as int],
                decreases kids@.len() - k,
            {
                let c: ExprId = kids[k];
                proof {
                    assert(m.kids(i as int)[k as int] == c);
                    lemma_setup_kid(m, r, choice, i as int, k as int);
                }
                marks.set(c.0 as usize, true);
                k += 1;
            }
        }
    }
    proof {
        assert forall|k: int| 0 <= k < n implies #[trigger] marks@[k] == setup_nodes(
            m,
            r,
            choice,
        )[k] by {
            if reaches(m, r, k) && in_setup(m, r, choice, k) {
                let s = choose|s: int| #[trigger] chosen(m, r, choice, s) && reaches(m, s, k);
                assert(picked@[s]);
                let marked = |x: int| 0 <= x < n && marks@[x];
                assert forall|a: int, j: int|
                    0 <= a < m.nodes.len() && #[trigger] marked(a) && 0 <= j < m.kids(
                        a,
                    ).len() implies marked((#[trigger] m.kids(a)[j]).0 as int) by {
                    lemma_term_kids(m, a);
                }
                crate::arena::link::lemma_closed_reaches(m, marked, s, k);
            }
        }
        assert(marks@ =~= setup_nodes(m, r, choice));
    }
    marks
}

/// Append the entries of the selected nodes, numbering them from the length of
/// the schedule on.
fn schedule_phase(
    arena: &ExprArena,
    sel: &Vec<bool>,
    id_map: &mut Vec<u32>,
    schedule: &mut Vec<(ValueId, ScheduledOp)>,
    Ghost(ids): Ghost<spec_fn(ExprId) -> ValueId>,
    Ghost(ready): Ghost<Seq<bool>>,
)
    requires
        arena@.wf(),
        sel@.len() == arena@.nodes.len(),
        ready.len() == arena@.nodes.len(),
        old(id_map)@.len() == arena@.nodes.len(),
        old(schedule)@.len() + count(sel@, sel@.len() as int) <= u32::MAX + 1,
        forall|k: int|
            0 <= k < sel@.len() && #[trigger] sel@[k] ==> node_schedulable(
                arena@,
                arena@.nodes[k],
                false,
            ) && ids(ExprId(k as u32)).0 == old(schedule)@.len() + count(sel@, k),
        forall|k: int|
            0 <= k < ready.len() && #[trigger] ready[k] ==> ids(ExprId(k as u32)).0 == old(
                id_map,
            )@[k] && !sel@[k],
        forall|k: int, j: int|
            0 <= k < sel@.len() && sel@[k] && 0 <= j < arena@.kids(k).len() ==> sel@[(
            #[trigger] arena@.kids(k)[j]).0 as int] || ready[arena@.kids(k)[j].0 as int],
    ensures
        final(schedule)@ == old(schedule)@ + phase(arena@, ids, sel@, sel@.len() as int),
        final(id_map)@.len() == old(id_map)@.len(),
        forall|k: int|
            0 <= k < sel@.len() && (#[trigger] sel@[k] || ready[k]) ==> ids(ExprId(k as u32)).0
                == final(id_map)@[k],
{
    let ghost m = arena@;
    let ghost start = schedule@;
    let n: usize = arena.len();
    let mut idx: usize = 0;
    assert(schedule@ =~= start + phase(m, ids, sel@, 0));
    proof {
        lemma_count_grows(sel@, 0, n as int);
    }
    while idx < n
        invariant
            idx <= n,
            m == arena@,
            n == m.nodes.len(),
            m.wf(),
            sel@.len() == n,
            ready.len() == n,
            id_map@.len() == n,
            start == old(schedule)@,
            start.len() + count(sel@, n as int) <= u32::MAX + 1,
            schedule@ == start + phase(m, ids, sel@, idx as int),
            phase(m, ids, sel@, idx as int).len() == count(sel@, idx as int),
            forall|k: int|
                0 <= k < n && #[trigger] sel@[k] ==> node_schedulable(m, m.nodes[k], false) && ids(
                    ExprId(k as u32),
                ).0 == start.len() + count(sel@, k),
            forall|k: int|
                0 <= k < n && #[trigger] ready[k] ==> ids(ExprId(k as u32)).0 == id_map@[k]
                    && !sel@[k],
            forall|k: int|
                0 <= k < idx && #[trigger] sel@[k] ==> ids(ExprId(k as u32)).0 == id_map@[k],
            forall|k: int, j: int|
                0 <= k < n && sel@[k] && 0 <= j < m.kids(k).len() ==> sel@[(
                #[trigger] m.kids(k)[j]).0 as int] || ready[m.kids(k)[j].0 as int],
        decreases n - idx,
    {
        if sel[idx] {
            proof {
                lemma_term_kids(m, idx as int);
                lemma_count_grows(sel@, idx as int, n as int);
                assert forall|j: int| 0 <= j < m.kids(idx as int).len() implies (
                #[trigger] m.kids(idx as int)[j]).0 < id_map@.len() && ValueId(
                    id_map@[m.kids(idx as int)[j].0 as int],
                ) == ids(m.kids(idx as int)[j]) by {
                    let c = m.kids(idx as int)[j];
                    assert(ExprId(c.0) == c);
                    assert(sel@[c.0 as int] || ready[c.0 as int]);
                }
            }
            let op = schedule_node(arena, idx, id_map, false, Ghost(ids));
            let next: u32 = schedule.len() as u32;
            schedule.push((ValueId(next), op));
            id_map.set(idx, next);
            assert(ids(ExprId(idx as u32)) == ValueId(next));
        }
        idx += 1;
        assert(schedule@ =~= start + phase(m, ids, sel@, idx as int));
    }
}

/// Which values of the first phase the second reads.
pub(crate) fn crossing_table(schedule: &Vec<(ValueId, ScheduledOp)>, split: usize) -> (read: Vec<
    bool,
>)
    requires
        split <= schedule@.len() <= u32::MAX + 1,
    ensures
        read@.len() == split,
        forall|v: int|
            0 <= v < split ==> (#[trigger] read@[v] <==> crosses(schedule@, split as int, v)),
{
    let ghost sched = schedule@;
    let mut read: Vec<bool> = Vec::new();
    while read.len() < split
        invariant
            read@.len() <= split,
            forall|v: int| 0 <= v < read@.len() ==> !read@[v],
        decreases split - read@.len(),
    {
        read.push(false);
    }
    let mut p: usize = split;
    while p < schedule.len()
        invariant
            split <= p <= sched.len(),
            sched == schedule@,
            sched.len() <= u32::MAX + 1,
            read@.len() == split,
            forall|v: int|
                0 <= v < split ==> (#[trigger] read@[v] <==> exists|q: int|
                    split <= q < p && #[trigger] sched[q].1.reads(ValueId(v as u32))),
        decreases sched.len() - p,
    {
        let ghost was = read@;
        note_reads(&mut read, schedule[p].1);
        proof {
            assert forall|v: int| 0 <= v < split implies (#[trigger] read@[v] <==> exists|q: int|
                split <= q < p + 1 && #[trigger] sched[q].1.reads(ValueId(v as u32))) by {
                assert(was[v] <==> exists|q: int|
                    split <= q < p && #[trigger] sched[q].1.reads(ValueId(v as u32)));
                if was[v] {
                    let q = choose|q: int|
                        split <= q < p && #[trigger] sched[q].1.reads(ValueId(v as u32));
                    assert(sched[q].1.reads(ValueId(v as u32)));
                }
                if read@[v] && !was[v] {
                    assert(sched[p as int].1.reads(ValueId(v as u32)));
                }
            }
        }
        p += 1;
    }
    read
}

/// How many values of the first phase the second reads.
fn count_crossers(schedule: &Vec<(ValueId, ScheduledOp)>, split: usize) -> (n: usize)
    requires
        split <= schedule@.len() <= u32::MAX + 1,
    ensures
        n == crossers(schedule@, split as int, split as int),
{
    let ghost sched = schedule@;
    let read: Vec<bool> = crossing_table(schedule, split);
    let mut n: usize = 0;
    let mut v: usize = 0;
    while v < split
        invariant
            v <= split,
            n <= v,
            read@.len() == split,
            forall|v: int|
                0 <= v < split ==> (#[trigger] read@[v] <==> crosses(sched, split as int, v)),
            n == crossers(sched, split as int, v as int),
        decreases split - v,
    {
        assert(read@[v as int] <==> crosses(sched, split as int, v as int));
        if read[v] {
            n += 1;
        }
        v += 1;
    }
    n
}

/// Marks the operands of an operation that the table covers.
fn note_reads(read: &mut Vec<bool>, op: ScheduledOp)
    ensures
        final(read)@.len() == old(read)@.len(),
        forall|v: int|
            0 <= v < final(read)@.len() && v <= u32::MAX ==> (#[trigger] final(read)@[v] <==> old(
                read,
            )@[v] || op.reads(ValueId(v as u32))),
{
    match op {
        ScheduledOp::Var(_) | ScheduledOp::Const(_) => {},
        ScheduledOp::Unary(_, a) | ScheduledOp::ShiftImm(_, a, _) => {
            note(read, a);
        },
        ScheduledOp::Binary(_, a, b) => {
            note(read, a);
            note(read, b);
        },
        ScheduledOp::Ternary(_, a, b, c) => {
            note(read, a);
            note(read, b);
            note(read, c);
        },
    }
}

/// Marks a value that the table covers.
fn note(read: &mut Vec<bool>, v: ValueId)
    ensures
        final(read)@ == if v.0 < old(read)@.len() {
            old(read)@.update(v.0 as int, true)
        } else {
            old(read)@
        },
{
    if (v.0 as usize) < read.len() {
        read.set(v.0 as usize, true);
    }
}

/// Build a two-phase schedule of the expression at `root`.
///
/// `partition` is asked about every node of the expression but variables,
/// constants and parameters; those it accepts, and what they need, go to the
/// setup phase.
pub fn arena_to_hoisted_schedule<F>(arena: &ExprArena, root: ExprId, partition: F) -> (h:
    HoistedSchedule) where F: Fn(Variance) -> bool
    requires
        arena@.wf(),
        arena@.has(root),
        schedulable(arena@, root.0 as int, false),
        forall|v: Variance| call_requires(partition, (v,)),
    ensures
        exists|choice: Seq<bool>| #[trigger]
            hoists(arena@, root, choice, h) && chosen_by(arena@, root, partition, choice),
        dense(h.schedule@),
        h.split <= h.schedule@.len() <= arena@.nodes.len(),
{
    let ghost m = arena@;
    let ghost r = root.0 as int;
    let len: usize = arena.len();
    let variance = compute_arena_variance(arena);
    let reachable = arena.reachable(root);
    let mut picked: Vec<bool> = Vec::new();
    let ghost mut choice: Seq<bool> = Seq::empty();
    let mut idx: usize = 0;
    while idx < len
        invariant
            idx <= len,
            m == arena@,
            r == root.0,
            len == m.nodes.len(),
            m.wf(),
            variance@.len() == len,
            reachable@.len() == len,
            forall|v: Variance| call_requires(partition, (v,)),
            forall|i: int| 0 <= i < len ==> #[trigger] variance@[i] == variance_of(m.term(i)),
            forall|i: int| 0 <= i < len ==> #[trigger] reachable@[i] == reaches(m, r, i),
            picked@.len() == idx,
            choice.len() == idx,
            forall|i: int|
                0 <= i < idx && reaches(m, r, i) && !trivial(m.nodes[i]) ==> call_ensures(
                    partition,
                    (variance_of(m.term(i)),),
                    #[trigger] choice[i],
                ),
            forall|i: int|
                0 <= i < idx ==> #[trigger] picked@[i] == (reaches(m, r, i) && !trivial(
                    m.nodes[i],
                ) && choice[i]),
        decreases len - idx,
    {
        assert(reachable@[idx as int] == reaches(m, r, idx as int));
        assert(variance@[idx as int] == variance_of(m.term(idx as int)));
        let plain: bool = match *arena.node(ExprId(idx as u32)) {
            ExprNode::Var(_) | ExprNode::Const(_) | ExprNode::Param(_) => true,
            _ => false,
        };
        let pick: bool = if reachable[idx] && !plain {
            partition(variance[idx])
        } else {
            false
        };
        picked.push(pick);
        proof {
            choice = choice.push(pick);
        }
        idx += 1;
    }
    let setup = mark_setup(arena, root, &picked, Ghost(choice));
    let ghost looped_spec = loop_nodes(m, r, choice);
    let mut looped: Vec<bool> = Vec::new();
    let mut id_map: Vec<u32> = Vec::new();
    let mut idx: usize = 0;
    while idx < len
        invariant
            idx <= len,
            len == m.nodes.len(),
            reachable@.len() == len,
            setup@ == setup_nodes(m, r, choice),
            looped_spec == loop_nodes(m, r, choice),
            forall|i: int| 0 <= i < len ==> #[trigger] reachable@[i] == reaches(m, r, i),
            looped@.len() == idx,
            id_map@.len() == idx,
            forall|i: int| 0 <= i < idx ==> #[trigger] looped@[i] == looped_spec[i],
        decreases len - idx,
    {
        assert(reachable@[idx as int] == reaches(m, r, idx as int));
        looped.push(reachable[idx] && !setup[idx]);
        id_map.push(0);
        idx += 1;
    }
    assert(looped@ =~= looped_spec);
    let ghost ids = phase_ids(setup@, looped@);
    proof {
        lemma_phase_ids(m, root, choice);
        hoisted_schedules_are_dense(m, root, choice);
    }
    let mut schedule: Vec<(ValueId, ScheduledOp)> = Vec::new();
    let ghost none = Seq::new(m.nodes.len(), |i: int| false);
    schedule_phase(arena, &setup, &mut id_map, &mut schedule, Ghost(ids), Ghost(none));
    let split: usize = schedule.len();
    proof {
        lemma_phase(m, ids, setup@, 0, m.nodes.len() as int);
        assert(schedule@ =~= phase(m, ids, setup@, m.nodes.len() as int));
    }
    schedule_phase(arena, &looped, &mut id_map, &mut schedule, Ghost(ids), Ghost(setup@));
    assert(schedule@ =~= two_phase(m, root, choice));
    let num_hoisted: usize = count_crossers(&schedule, split);
    let h = HoistedSchedule { schedule, split, num_hoisted };
    proof {
        assert(hoists(m, root, choice, h));
        assert(chosen_by(m, root, partition, choice));
    }
    h
}

/// What does not depend on X but is no constant goes to the setup phase.
#[inline]
pub fn default_hoist_predicate(v: Variance) -> (b: bool)
    ensures
        b == default_choice(v),
{
    v.is_x_invariant() && !v.is_const()
}

/// See [`default_hoist_predicate`].
pub open spec fn default_choice(v: Variance) -> bool {
    !v.x && (v.y || v.z || v.w || v.other)
}

/// The choice the default predicate makes.
pub open spec fn default_choices(m: ArenaModel) -> Seq<bool> {
    Seq::new(m.nodes.len(), |i: int| default_choice(variance_of(m.term(i))))
}

/// Only what is chosen among the nodes of the expression matters.
pub proof fn lemma_same_choice(m: ArenaModel, root: ExprId, a: Seq<bool>, b: Seq<bool>)
    requires
        forall|i: int|
            0 <= i < m.nodes.len() && reaches(m, root.0 as int, i) && !trivial(m.nodes[i])
                ==> #[trigger] a[i] == b[i],
    ensures
        setup_nodes(m, root.0 as int, a) == setup_nodes(m, root.0 as int, b),
        two_phase(m, root, a) == two_phase(m, root, b),
{
    let r = root.0 as int;
    assert forall|s: int| chosen(m, r, a, s) == chosen(m, r, b, s) by {
        if 0 <= s < m.nodes.len() && reaches(m, r, s) && !trivial(m.nodes[s]) {
            assert(a[s] == b[s]);
        }
    }
    assert forall|i: int| in_setup(m, r, a, i) == in_setup(m, r, b, i) by {
        if in_setup(m, r, a, i) {
            let s = choose|s: int| #[trigger] chosen(m, r, a, s) && reaches(m, s, i);
            assert(chosen(m, r, b, s) && reaches(m, s, i));
        }
        if in_setup(m, r, b, i) {
            let s = choose|s: int| #[trigger] chosen(m, r, b, s) && reaches(m, s, i);
            assert(chosen(m, r, a, s) && reaches(m, s, i));
        }
    }
    assert(setup_nodes(m, r, a) =~= setup_nodes(m, r, b));
    assert(loop_nodes(m, r, a) =~= loop_nodes(m, r, b));
}

/// A two-phase schedule is never empty: it holds the root.
pub proof fn lemma_two_phase_has_root(m: ArenaModel, root: ExprId, choice: Seq<bool>)
    requires
        m.wf(),
        m.has(root),
    ensures
        two_phase(m, root, choice).len() > 0,
{
    let r = root.0 as int;
    let n = m.nodes.len() as int;
    hoisted_schedules_are_dense(m, root, choice);
    assert(reaches(m, r, r));
    lemma_count_grows(setup_nodes(m, r, choice), r, n);
    lemma_count_grows(loop_nodes(m, r, choice), r, n);
    assert(setup_nodes(m, r, choice)[r] || loop_nodes(m, r, choice)[r]);
}

/// What an expression mentions, every expression built on it mentions.
proof fn lemma_reaches_mentions(m: ArenaModel, s: int, i: int, v: u8)
    requires
        m.wf(),
        0 <= s < m.nodes.len(),
        reaches(m, s, i),
        mentions(m.term(i), v),
    ensures
        mentions(m.term(s), v),
    decreases s,
{
    if s != i {
        let j = choose|j: int|
            0 <= j < m.kids(s).len() && 0 <= (#[trigger] m.kids(s)[j]).0 < s && reaches(
                m,
                m.kids(s)[j].0 as int,
                i,
            );
        lemma_reaches_mentions(m, m.kids(s)[j].0 as int, i, v);
        lemma_term_kids(m, s);
        assert(mentions(m.term(s).kids[j], v));
    }
}

/// Nothing that the default choice puts in the setup phase depends on X.
pub proof fn setup_values_do_not_depend_on_x(m: ArenaModel, root: ExprId, i: int)
    requires
        m.wf(),
        m.has(root),
        0 <= i < m.nodes.len(),
        setup_nodes(m, root.0 as int, default_choices(m))[i],
    ensures
        !mentions(m.term(i), 0),
{
    let choice = default_choices(m);
    let s = choose|s: int| #[trigger]
        chosen(m, root.0 as int, choice, s) && reaches(m, s, i);
    assert(default_choice(variance_of(m.term(s))));
    if mentions(m.term(i), 0) {
        lemma_reaches_mentions(m, s, i, 0);
    }
}

proof fn lemma_nothing_counted(sel: Seq<bool>, i: int)
    requires
        i <= sel.len(),
        forall|j: int| 0 <= j < sel.len() ==> !#[trigger] sel[j],
    ensures
        count(sel, i) == 0,
    decreases i,
{
    if i > 0 {
        lemma_nothing_counted(sel, i - 1);
    }
}

proof fn lemma_nothing_listed(m: ArenaModel, ids: spec_fn(ExprId) -> ValueId, sel: Seq<bool>, i: int)
    requires
        i <= sel.len(),
        forall|j: int| 0 <= j < sel.len() ==> !#[trigger] sel[j],
    ensures
        phase(m, ids, sel, i) == Seq::<(ValueId, ScheduledOp)>::empty(),
    decreases i,
{
    if i > 0 {
        lemma_nothing_listed(m, ids, sel, i - 1);
    }
}

proof fn lemma_counts_rank(m: ArenaModel, root: int, sel: Seq<bool>, i: int)
    requires
        0 <= i <= sel.len(),
        forall|j: int| 0 <= j < sel.len() ==> #[trigger] sel[j] == reaches(m, root, j),
    ensures
        count(sel, i) == rank(m, root, i),
    decreases i,
{
    if i > 0 {
        lemma_counts_rank(m, root, sel, i - 1);
        assert(sel[i - 1] == reaches(m, root, i - 1));
    }
}

proof fn lemma_phase_is_schedule(
    m: ArenaModel,
    root: int,
    ids: spec_fn(ExprId) -> ValueId,
    sel: Seq<bool>,
    i: int,
)
    requires
        m.wf(),
        0 <= i <= m.nodes.len(),
        sel.len() == m.nodes.len(),
        forall|j: int| 0 <= j < sel.len() ==> #[trigger] sel[j] == reaches(m, root, j),
        forall|id: ExprId| id.0 < m.nodes.len() ==> #[trigger] ids(id) == ranked(m, root)(id),
    ensures
        phase(m, ids, sel, i) == schedule_below(m, root, i, false),
    decreases i,
{
    if i > 0 {
        lemma_phase_is_schedule(m, root, ids, sel, i - 1);
        assert(sel[i - 1] == reaches(m, root, i - 1));
        lemma_term_kids(m, i - 1);
        assert(ids(ExprId((i - 1) as u32)) == ranked(m, root)(ExprId((i - 1) as u32)));
        match m.nodes[i - 1] {
            ExprNode::Unary(_, a) => {
                assert(m.kids(i - 1)[0] == a);
                assert(ids(a) == ranked(m, root)(a));
            },
            ExprNode::Binary(_, a, b) => {
                assert(m.kids(i - 1)[0] == a && m.kids(i - 1)[1] == b);
                assert(ids(a) == ranked(m, root)(a) && ids(b) == ranked(m, root)(b));
            },
            ExprNode::Ternary(_, a, b, c) => {
                assert(m.kids(i - 1)[0] == a && m.kids(i - 1)[1] == b && m.kids(i - 1)[2] == c);
                assert(ids(a) == ranked(m, root)(a) && ids(b) == ranked(m, root)(b) && ids(c)
                    == ranked(m, root)(c));
            },
            _ => {},
        }
    }
}

/// If nothing is chosen for the setup phase, the two-phase schedule is the plain
/// schedule, all of it in the loop phase.
pub proof fn nothing_to_hoist_is_flat(m: ArenaModel, root: ExprId, choice: Seq<bool>)
    requires
        m.wf(),
        m.has(root),
        forall|s: int| !#[trigger] chosen(m, root.0 as int, choice, s),
    ensures
        two_phase(m, root, choice) == schedule_of(m, root, false),
        count(setup_nodes(m, root.0 as int, choice), m.nodes.len() as int) == 0,
{
    let r = root.0 as int;
    let n = m.nodes.len() as int;
    let setup = setup_nodes(m, r, choice);
    let looped = loop_nodes(m, r, choice);
    let ids = phase_ids(setup, looped);
    assert forall|j: int| 0 <= j < setup.len() implies !#[trigger] setup[j] by {}
    assert forall|j: int| 0 <= j < looped.len() implies #[trigger] looped[j] == reaches(m, r, j) by {}
    lemma_nothing_counted(setup, n);
    lemma_nothing_listed(m, ids, setup, n);
    assert forall|id: ExprId| id.0 < n implies #[trigger] ids(id) == ranked(m, r)(id) by {
        lemma_counts_rank(m, r, looped, id.0 as int);
        assert(!setup[id.0 as int]);
    }
    lemma_phase_is_schedule(m, r, ids, looped, n);
    assert(two_phase(m, root, choice) =~= phase(m, ids, looped, n));
}

} // verus!
