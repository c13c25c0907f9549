//! Schedules: operations in evaluation order, operands named by value.

use crate::arena::link::{lemma_rank_bound, rank, rank_keeps_order, reaches};
use crate::arena::model::{lemma_term_kids, ArenaModel};
use crate::arena::order::{operands_first, postorder, postorder_lists_the_expression};
use crate::arena::{ExprArena, ExprId, ExprNode};
use crate::backend::emit::regalloc::linear::{defined_once, id_bound, operands_bounded};
use crate::backend::emit::regalloc::ValueId;
use crate::kind::OpKind;
use crate::number::{float_to_u32, truncated};
use vstd::prelude::*;

pub mod guards;
pub mod hoisting;

verus! {

/// An operation of a schedule.
#[derive(Debug, Clone, Copy, PartialEq, Eq, Structural)]
pub enum ScheduledOp {
    /// Variable, in an input register.
    Var(u8),
    /// Constant, by the bits of its `f32`.
    Const(u32),
    /// Unary operation.
    Unary(OpKind, ValueId),
    /// Binary operation.
    Binary(OpKind, ValueId, ValueId),
    /// Ternary operation.
    Ternary(OpKind, ValueId, ValueId, ValueId),
    /// Shift by an immediate: the kind is `Shl` or `Shr`.
    ShiftImm(OpKind, ValueId, u8),
}

impl ScheduledOp {
    /// The values an operation reads, in order.
    pub open spec fn operands(self) -> Seq<ValueId> {
        match self {
            ScheduledOp::Var(_) | ScheduledOp::Const(_) => Seq::empty(),
            ScheduledOp::Unary(_, a) | ScheduledOp::ShiftImm(_, a, _) => seq![a],
            ScheduledOp::Binary(_, a, b) => seq![a, b],
            ScheduledOp::Ternary(_, a, b, c) => seq![a, b, c],
        }
    }

    /// The operation reads `v`.
    pub open spec fn reads(self, v: ValueId) -> bool {
        match self {
            ScheduledOp::Var(_) | ScheduledOp::Const(_) => false,
            ScheduledOp::Unary(_, a) | ScheduledOp::ShiftImm(_, a, _) => v == a,
            ScheduledOp::Binary(_, a, b) => v == a || v == b,
            ScheduledOp::Ternary(_, a, b, c) => v == a || v == b || v == c,
        }
    }
}

/// Entry `k` defines value `k` and reads only earlier values.
pub open spec fn dense(sched: Seq<(ValueId, ScheduledOp)>) -> bool {
    forall|k: int| 0 <= k < sched.len() ==> entry_ok(#[trigger] sched[k], k)
}

/// The entry defines value `k` and reads only values below `k`.
pub open spec fn entry_ok(e: (ValueId, ScheduledOp), k: int) -> bool {
    e.0.0 == k && forall|v: ValueId| #[trigger] e.1.reads(v) ==> v.0 < k
}

/// A dense schedule defines each value once, and its operands are numbered
/// below its length.
pub proof fn dense_schedules_are_single_assignment(sched: Seq<(ValueId, ScheduledOp)>)
    requires
        dense(sched),
    ensures
        defined_once(sched),
        operands_bounded(sched),
        id_bound(sched, sched.len()) == sched.len(),
{
    assert forall|i: int, j: int| 0 <= i < j < sched.len() implies (#[trigger] sched[i]).0 != (
    #[trigger] sched[j]).0 by {
        assert(entry_ok(sched[i], i) && entry_ok(sched[j], j));
    }
    lemma_dense_bound(sched, sched.len());
    assert forall|i: int, v: ValueId|
        0 <= i < sched.len() && #[trigger] sched[i].1.reads(v) implies v.0 < id_bound(
        sched,
        sched.len(),
    ) by {
        assert(entry_ok(sched[i], i));
    }
}

proof fn lemma_dense_bound(sched: Seq<(ValueId, ScheduledOp)>, k: nat)
    requires
        dense(sched),
        k <= sched.len(),
    ensures
        id_bound(sched, k) == k,
    decreases k,
{
    if k > 0 {
        lemma_dense_bound(sched, (k - 1) as nat);
        assert(entry_ok(sched[k - 1], k - 1));
    }
}

/// The shift count a constant gives: its integer part, in eight bits.
pub open spec fn shift_amount(bits: u32) -> u8 {
    (truncated(bits) % 256) as u8
}

/// The operation of a node, operands numbered by `ids`. With `shifts`, a shift
/// takes its count from its constant operand.
pub open spec fn scheduled_op(
    m: ArenaModel,
    ids: spec_fn(ExprId) -> ValueId,
    n: ExprNode,
    shifts: bool,
) -> ScheduledOp {
    match n {
        ExprNode::Var(i) => ScheduledOp::Var(i),
        ExprNode::Const(v) => ScheduledOp::Const(v),
        ExprNode::Unary(op, a) => ScheduledOp::Unary(op, ids(a)),
        ExprNode::Binary(op, a, b) => if shifts && (op is Shl || op is Shr) {
            ScheduledOp::ShiftImm(op, ids(a), shift_amount(m.nodes[b.0 as int]->Const_0))
        } else {
            ScheduledOp::Binary(op, ids(a), ids(b))
        },
        ExprNode::Ternary(op, a, b, c) => ScheduledOp::Ternary(op, ids(a), ids(b), ids(c)),
        _ => ScheduledOp::Var(0),
    }
}

/// The node can be scheduled: it is a variable, a constant or an operation of
/// up to three operands, and a shift count is a constant.
pub open spec fn node_schedulable(m: ArenaModel, n: ExprNode, shifts: bool) -> bool {
    match n {
        ExprNode::Var(_) | ExprNode::Const(_) | ExprNode::Unary(_, _)
        | ExprNode::Ternary(_, _, _, _) => true,
        ExprNode::Binary(op, _, b) => shifts && (op is Shl || op is Shr) ==> m.nodes[b.0
            as int] is Const,
        _ => false,
    }
}

/// Every node of the expression at `root` can be scheduled.
pub open spec fn schedulable(m: ArenaModel, root: int, shifts: bool) -> bool {
    forall|i: int|
        0 <= i < m.nodes.len() && reaches(m, root, i) ==> node_schedulable(
            m,
            #[trigger] m.nodes[i],
            shifts,
        )
}

/// Values are numbered by how many nodes of the expression come before.
pub open spec fn ranked(m: ArenaModel, root: int) -> spec_fn(ExprId) -> ValueId {
    |id: ExprId| ValueId(rank(m, root, id.0 as int) as u32)
}

/// The schedule of the nodes below `i` that occur in the expression at `root`.
pub open spec fn schedule_below(m: ArenaModel, root: int, i: int, shifts: bool) -> Seq<
    (ValueId, ScheduledOp),
>
    decreases i,
{
    if i <= 0 {
        Seq::empty()
    } else {
        let before = schedule_below(m, root, i - 1, shifts);
        if reaches(m, root, i - 1) {
            before.push(
                (
                    ValueId(rank(m, root, i - 1) as u32),
                    scheduled_op(m, ranked(m, root), m.nodes[i - 1], shifts),
                ),
            )
        } else {
            before
        }
    }
}

/// The schedule of the expression at `root`: its nodes in arena order. With
/// `shifts`, shifts take their count from their constant operand.
pub open spec fn schedule_of(m: ArenaModel, root: ExprId, shifts: bool) -> Seq<
    (ValueId, ScheduledOp),
> {
    schedule_below(m, root.0 as int, m.nodes.len() as int, shifts)
}

/// What an operation reads are the numbers of its node's operands.
pub proof fn lemma_op_reads(
    m: ArenaModel,
    ids: spec_fn(ExprId) -> ValueId,
    i: int,
    shifts: bool,
    v: ValueId,
)
    requires
        scheduled_op(m, ids, m.nodes[i], shifts).reads(v),
    ensures
        exists|j: int| 0 <= j < m.kids(i).len() && v == ids(#[trigger] m.kids(i)[j]),
{
    match m.nodes[i] {
        ExprNode::Unary(_, a) => {
            assert(v == ids(m.kids(i)[0]));
        },
        ExprNode::Binary(_, a, b) => {
            assert(v == ids(m.kids(i)[0]) || v == ids(m.kids(i)[1]));
        },
        ExprNode::Ternary(_, a, b, c) => {
            assert(v == ids(m.kids(i)[0]) || v == ids(m.kids(i)[1]) || v == ids(m.kids(i)[2]));
        },
        _ => {},
    }
}

#[verifier::rlimit(40)]
#[verifier::spinoff_prover]
proof fn lemma_schedule_below(m: ArenaModel, root: int, i: int, shifts: bool)
    requires
        m.wf(),
        0 <= root < m.nodes.len(),
        0 <= i <= m.nodes.len(),
    ensures
        schedule_below(m, root, i, shifts).len() == rank(m, root, i),
        dense(schedule_below(m, root, i, shifts)),
        forall|j: int|
            0 <= j < i && #[trigger] reaches(m, root, j) ==> rank(m, root, j) < rank(m, root, i)
                && schedule_below(m, root, i, shifts)[rank(m, root, j) as int] == (
                ValueId(rank(m, root, j) as u32),
                scheduled_op(m, ranked(m, root), m.nodes[j], shifts),
            ),
    decreases i,
{
    if i > 0 {
        lemma_schedule_below(m, root, i - 1, shifts);
        lemma_rank_bound(m, root, i - 1);
        let before = schedule_below(m, root, i - 1, shifts);
        let now = schedule_below(m, root, i, shifts);
        let k = rank(m, root, i - 1) as int;
        if reaches(m, root, i - 1) {
            assert forall|v: ValueId| #[trigger] now[k].1.reads(v) implies v.0 < k by {
                lemma_op_reads(m, ranked(m, root), i - 1, shifts, v);
                let j = choose|j: int|
                    0 <= j < m.kids(i - 1).len() && v == ranked(m, root)(
                        #[trigger] m.kids(i - 1)[j],
                    );
                let c = m.kids(i - 1)[j];
                lemma_term_kids(m, i - 1);
                crate::arena::link::lemma_reaches_kid(m, root, i - 1, j);
                rank_keeps_order(m, root, c.0 as int, i - 1);
                lemma_rank_bound(m, root, c.0 as int);
            }
            assert(entry_ok(now[k], k));
            assert forall|p: int| 0 <= p < now.len() implies entry_ok(#[trigger] now[p], p) by {
                if p < k {
                    assert(now[p] == before[p]);
                }
            }
        }
        assert forall|j: int| 0 <= j < i && #[trigger] reaches(m, root, j) implies rank(m, root, j)
            < rank(m, root, i) && now[rank(m, root, j) as int] == (
            ValueId(rank(m, root, j) as u32),
            scheduled_op(m, ranked(m, root), m.nodes[j], shifts),
        ) by {
            if j < i - 1 {
                rank_keeps_order(m, root, j, i);
                assert(before[rank(m, root, j) as int] == now[rank(m, root, j) as int]);
            }
        }
    }
}

/// A schedule is dense: entry `k` defines value `k`, operands come first. It has
/// one entry per node of the expression, in arena order, the root last.
pub proof fn schedules_are_dense(m: ArenaModel, root: ExprId, shifts: bool)
    requires
        m.wf(),
        m.has(root),
    ensures
        dense(schedule_of(m, root, shifts)),
        schedule_of(m, root, shifts).len() == rank(m, root.0 as int, m.nodes.len() as int),
        schedule_of(m, root, shifts).len() > 0,
        schedule_of(m, root, shifts).last() == (
            ValueId((schedule_of(m, root, shifts).len() - 1) as u32),
            scheduled_op(m, ranked(m, root.0 as int), m.nodes[root.0 as int], shifts),
        ),
        forall|j: int|
            0 <= j < m.nodes.len() && #[trigger] reaches(m, root.0 as int, j) ==> schedule_of(
                m,
                root,
                shifts,
            )[rank(m, root.0 as int, j) as int] == (
                ValueId(rank(m, root.0 as int, j) as u32),
                scheduled_op(m, ranked(m, root.0 as int), m.nodes[j], shifts),
            ),
{
    let r = root.0 as int;
    let n = m.nodes.len() as int;
    lemma_schedule_below(m, r, n, shifts);
    assert(reaches(m, r, r));
    lemma_rank_after_root(m, r, n);
}

/// Nothing above the root occurs in its expression.
pub proof fn lemma_rank_after_root(m: ArenaModel, root: int, i: int)
    requires
        root < i,
        0 <= root,
    ensures
        rank(m, root, i) == rank(m, root, root) + 1,
    decreases i,
{
    if i > root + 1 {
        lemma_rank_after_root(m, root, i - 1);
        if reaches(m, root, i - 1) {
            crate::arena::link::lemma_reaches_below(m, root, i - 1);
        }
    } else {
        assert(reaches(m, root, root));
    }
}

/// The number a mapped operand has.
pub(crate) fn mapped(id_map: &Vec<u32>, id: ExprId) -> (v: ValueId)
    requires
        id.0 < id_map@.len(),
    ensures
        v == ValueId(id_map@[id.0 as int]),
{
    ValueId(id_map[id.0 as usize])
}

/// The table numbers the operands of node `i` as `ids` does.
pub open spec fn numbers_kids(
    m: ArenaModel,
    ids: spec_fn(ExprId) -> ValueId,
    i: int,
    id_map: Seq<u32>,
) -> bool {
    forall|j: int|
        0 <= j < m.kids(i).len() ==> (#[trigger] m.kids(i)[j]).0 < id_map.len() && ValueId(
            id_map[m.kids(i)[j].0 as int],
        ) == ids(m.kids(i)[j])
}

/// The operation of a node, operands numbered by a table.
pub(crate) fn schedule_node(
    arena: &ExprArena,
    i: usize,
    id_map: &Vec<u32>,
    shifts: bool,
    Ghost(ids): Ghost<spec_fn(ExprId) -> ValueId>,
) -> (op: ScheduledOp)
    requires
        arena@.wf(),
        i < arena@.nodes.len(),
        node_schedulable(arena@, arena@.nodes[i as int], shifts),
        numbers_kids(arena@, ids, i as int, id_map@),
    ensures
        op == scheduled_op(arena@, ids, arena@.nodes[i as int], shifts),
{
    let ghost m = arena@;
    assert(m.node_ok(i as int, m.nodes[i as int]));
    match *arena.node(ExprId(i as u32)) {
        ExprNode::Var(k) => ScheduledOp::Var(k),
        ExprNode::Const(v) => ScheduledOp::Const(v),
        ExprNode::Unary(op, a) => {
            assert(m.kids(i as int)[0] == a);
            ScheduledOp::Unary(op, mapped(id_map, a))
        },
        ExprNode::Binary(op, a, b) => {
            assert(m.kids(i as int)[0] == a && m.kids(i as int)[1] == b);
            assert(m.kids_of(m.nodes[i as int])[1].0 < i);
            let shift: bool = match op {
                OpKind::Shl | OpKind::Shr => shifts,
                _ => false,
            };
            if shift {
                let amount: u8 = match *arena.node(b) {
                    ExprNode::Const(bits) => (float_to_u32(bits) % 256) as u8,
                    _ => 0,
                };
                ScheduledOp::ShiftImm(op, mapped(id_map, a), amount)
            } else {
                ScheduledOp::Binary(op, mapped(id_map, a), mapped(id_map, b))
            }
        },
        ExprNode::Ternary(op, a, b, c) => {
            assert(m.kids(i as int)[0] == a && m.kids(i as int)[1] == b && m.kids(i as int)[2]
                == c);
            ScheduledOp::Ternary(op, mapped(id_map, a), mapped(id_map, b), mapped(id_map, c))
        },
        _ => ScheduledOp::Var(0),
    }
}

/// Build a schedule from an arena: the nodes of the expression at `root` in
/// arena order, numbered from zero. Nodes the expression does not use are left
/// out.
pub fn arena_to_schedule(arena: &ExprArena, root: ExprId) -> (s: Vec<(ValueId, ScheduledOp)>)
    requires
        arena@.wf(),
        arena@.has(root),
        schedulable(arena@, root.0 as int, true),
    ensures
        s@ == schedule_of(arena@, root, true),
{
    schedule_arena(arena, root, true)
}

/// Build a schedule, with shifts by an immediate or as binary operations.
pub(crate) fn schedule_arena(arena: &ExprArena, root: ExprId, shifts: bool) -> (s: Vec<
    (ValueId, ScheduledOp),
>)
    requires
        arena@.wf(),
        arena@.has(root),
        schedulable(arena@, root.0 as int, shifts),
    ensures
        s@ == schedule_of(arena@, root, shifts),
{
    let ghost m = arena@;
    let ghost top = root.0 as int;
    let len: usize = arena.len();
    let reachable = arena.reachable(root);
    let mut id_map: Vec<u32> = Vec::new();
    let mut schedule: Vec<(ValueId, ScheduledOp)> = Vec::new();
    let mut next_id: u32 = 0;
    let mut idx: usize = 0;
    while idx < len
        invariant
            idx <= len,
            m == arena@,
            top == root.0,
            len == m.nodes.len(),
            m.wf(),
            m.has(root),
            schedulable(m, top, shifts),
            reachable@.len() == len,
            forall|i: int| 0 <= i < len ==> #[trigger] reachable@[i] == reaches(m, top, i),
            id_map@.len() == idx,
            forall|i: int| 0 <= i < idx ==> #[trigger] id_map@[i] == rank(m, top, i),
            idx < len ==> next_id == rank(m, top, idx as int),
            schedule@ == schedule_below(m, top, idx as int, shifts),
        decreases len - idx,
    {
        proof {
            lemma_rank_bound(m, top, idx as int);
            lemma_term_kids(m, idx as int);
        }
        if reachable[idx] {
            assert(reachable@[idx as int] == reaches(m, top, idx as int));
            proof {
                assert forall|j: int| 0 <= j < m.kids(idx as int).len() implies (
                #[trigger] m.kids(idx as int)[j]).0 < id_map@.len() && ValueId(
                    id_map@[m.kids(idx as int)[j].0 as int],
                ) == ranked(m, top)(m.kids(idx as int)[j]) by {
                    let c = m.kids(idx as int)[j];
                    assert(id_map@[c.0 as int] == rank(m, top, c.0 as int));
                }
            }
            let op = schedule_node(arena, idx, &id_map, shifts, Ghost(ranked(m, top)));
            schedule.push((ValueId(next_id), op));
            id_map.push(next_id);
            if idx + 1 < len {
                next_id = next_id + 1;
            }
        } else {
            assert(reachable@[idx as int] == reaches(m, top, idx as int));
            id_map.push(next_id);
        }
        idx += 1;
    }
    schedule
}

/// Can the node be scheduled?
fn is_node_schedulable(arena: &ExprArena, n: ExprNode, shifts: bool) -> (b: bool)
    requires
        n is Binary ==> arena@.has(n->Binary_2),
    ensures
        b == node_schedulable(arena@, n, shifts),
{
    match n {
        ExprNode::Var(_) | ExprNode::Const(_) | ExprNode::Unary(_, _)
        | ExprNode::Ternary(_, _, _, _) => true,
        ExprNode::Binary(op, _, count) => match op {
            OpKind::Shl | OpKind::Shr => if shifts {
                match *arena.node(count) {
                    ExprNode::Const(_) => true,
                    _ => false,
                }
            } else {
                true
            },
            _ => true,
        },
        _ => false,
    }
}

/// Can every node of the expression at `root` be scheduled?
pub fn is_schedulable(arena: &ExprArena, root: ExprId, shifts: bool) -> (b: bool)
    requires
        arena@.wf(),
        arena@.has(root),
    ensures
        b == schedulable(arena@, root.0 as int, shifts),
{
    let ghost m = arena@;
    let order: Vec<ExprId> = arena.postorder(root);
    proof {
        postorder_lists_the_expression(m, root);
    }
    let mut k: usize = 0;
    while k < order.len()
        invariant
            k <= order@.len(),
            m == arena@,
            m.wf(),
            m.has(root),
            operands_first(m, order@),
            forall|i: int|
                0 <= i < m.nodes.len() ==> (#[trigger] reaches(m, root.0 as int, i)
                    <==> order@.contains(ExprId(i as u32))),
            forall|j: int|
                0 <= j < k ==> node_schedulable(m, m.nodes[(#[trigger] order@[j]).0 as int], shifts),
        decreases order@.len() - k,
    {
        let id: ExprId = order[k];
        proof {
            assert(m.has(order@[k as int]));
            assert(m.node_ok(id.0 as int, m.nodes[id.0 as int]));
            lemma_term_kids(m, id.0 as int);
            if m.nodes[id.0 as int] is Binary {
                assert(m.kids(id.0 as int)[1] == m.nodes[id.0 as int]->Binary_2);
            }
        }
        if !is_node_schedulable(arena, *arena.node(id), shifts) {
            proof {
                assert(ExprId(id.0) == id);
                assert(order@.contains(order@[k as int]));
                assert(reaches(m, root.0 as int, id.0 as int));
                assert(!node_schedulable(m, m.nodes[id.0 as int], shifts));
            }
            return false;
        }
        k += 1;
    }
    proof {
        assert forall|i: int|
            0 <= i < m.nodes.len() && reaches(m, root.0 as int, i) implies node_schedulable(
            m,
            #[trigger] m.nodes[i],
            shifts,
        ) by {
            let j = choose|j: int| 0 <= j < order@.len() && order@[j] == ExprId(i as u32);
            assert(order@[j].0 == i);
        }
    }
    true
}

/// The schedule of the expression at `root`, if it can be scheduled and its
/// values can be numbered.
pub fn try_schedule(arena: &ExprArena, root: ExprId, shifts: bool) -> (s: Option<
    Vec<(ValueId, ScheduledOp)>,
>)
    requires
        arena@.wf(),
        arena@.has(root),
    ensures
        match s {
            Some(v) => {
                &&& schedulable(arena@, root.0 as int, shifts)
                &&& v@ == schedule_of(arena@, root, shifts)
                &&& v@.len() <= u32::MAX
            },
            None => !schedulable(arena@, root.0 as int, shifts) || schedule_of(
                arena@,
                root,
                shifts,
            ).len() > u32::MAX,
        },
{
    if !is_schedulable(arena, root, shifts) {
        return None;
    }
    let schedule = schedule_arena(arena, root, shifts);
    if schedule.len() > u32::MAX as usize {
        return None;
    }
    Some(schedule)
}

/// The values each operation of a schedule reads.
pub fn arena_to_uses(schedule: &[(ValueId, ScheduledOp)]) -> (uses: Vec<Vec<ValueId>>)
    ensures
        uses@.len() == schedule@.len(),
        forall|k: int|
            0 <= k < uses@.len() ==> (#[trigger] uses@[k])@ == schedule@[k].1.operands(),
{
    let mut uses: Vec<Vec<ValueId>> = Vec::new();
    let mut k: usize = 0;
    while k < schedule.len()
        invariant
            k <= schedule@.len(),
            uses@.len() == k,
            forall|j: int| 0 <= j < k ==> (#[trigger] uses@[j])@ == schedule@[j].1.operands(),
        decreases schedule@.len() - k,
    {
        let row: Vec<ValueId> = match schedule[k].1 {
            ScheduledOp::Var(_) | ScheduledOp::Const(_) => Vec::new(),
            ScheduledOp::Unary(_, a) => vec![a],
            ScheduledOp::ShiftImm(_, a, _) => vec![a],
            ScheduledOp::Binary(_, a, b) => vec![a, b],
            ScheduledOp::Ternary(_, a, b, c) => vec![a, b, c],
        };
        assert(row@ =~= schedule@[k as int].1.operands());
        uses.push(row);
        k += 1;
    }
    uses
}

} // verus!
