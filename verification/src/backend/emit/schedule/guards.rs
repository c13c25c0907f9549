//! Which parts of a schedule a `Select` can skip.
//!
//! When the mask of a `Select` is the same in every lane, one arm is not needed.
//! A guard names the run of entries that only that arm uses.

use crate::backend::emit::regalloc::ValueId;
use crate::backend::emit::schedule::{dense, entry_ok, ScheduledOp};
use crate::kind::OpKind;
use vstd::prelude::*;

verus! {

/// What a `Select` can skip.
#[derive(Debug, Clone, Copy, PartialEq, Eq)]
pub struct SelectGuard {
    /// Schedule index of the `Select`.
    pub select_idx: usize,
    /// The mask operand, computed before the arms.
    pub mask_vid: ValueId,
    /// Entries only the true arm uses, end excluded; empty if both ends agree.
    pub true_range: (usize, usize),
    /// Entries only the false arm uses, end excluded; empty if both ends agree.
    pub false_range: (usize, usize),
}

/// Value `v` is needed to compute value `from`.
pub open spec fn depends(sched: Seq<(ValueId, ScheduledOp)>, from: int, v: int) -> bool
    decreases from,
{
    from == v || exists|o: ValueId|
        o.0 < from && #[trigger] sched[from].1.reads(o) && depends(sched, o.0 as int, v)
}

/// Value `v` is needed by the arm alone: not by the mask or the other arm, and
/// whatever reads it is the `Select` at `i` or is itself needed by the arm alone.
pub open spec fn exclusive(
    sched: Seq<(ValueId, ScheduledOp)>,
    i: int,
    arm: ValueId,
    other: ValueId,
    mask: ValueId,
    v: int,
) -> bool
    decreases sched.len() - v,
{
    &&& depends(sched, arm.0 as int, v)
    &&& !depends(sched, mask.0 as int, v)
    &&& !depends(sched, other.0 as int, v)
    &&& forall|c: int|
        0 <= c < sched.len() && #[trigger] sched[c].1.reads(ValueId(v as u32)) ==> c == i || (v < c
            && exclusive(sched, i, arm, other, mask, c))
}

/// The exclusive values are exactly those from `s` up to `e`, and the mask is computed
/// before them.
pub open spec fn exclusive_run(
    sched: Seq<(ValueId, ScheduledOp)>,
    i: int,
    arm: ValueId,
    other: ValueId,
    mask: ValueId,
    s: int,
    e: int,
) -> bool {
    &&& mask.0 < s < e <= sched.len()
    &&& forall|v: int|
        0 <= v < sched.len() ==> (#[trigger] exclusive(sched, i, arm, other, mask, v) <==> s <= v
            < e)
}

/// The run of entries an arm can skip: all its exclusive values, if they stand
/// together behind the mask; else nothing.
pub open spec fn arm_range(
    sched: Seq<(ValueId, ScheduledOp)>,
    i: int,
    arm: ValueId,
    other: ValueId,
    mask: ValueId,
) -> (int, int) {
    if exists|s: int, e: int| exclusive_run(sched, i, arm, other, mask, s, e) {
        choose|s: int, e: int| exclusive_run(sched, i, arm, other, mask, s, e)
    } else {
        (i, i)
    }
}

/// The guard of entry `i`, if it is a `Select` that can skip something.
pub open spec fn guard_at(sched: Seq<(ValueId, ScheduledOp)>, i: int) -> Option<SelectGuard> {
    match sched[i].1 {
        ScheduledOp::Ternary(OpKind::Select, mask, t, f) => {
            let tr = arm_range(sched, i, t, f, mask);
            let fr = arm_range(sched, i, f, t, mask);
            if tr.0 != tr.1 || fr.0 != fr.1 {
                Some(
                    SelectGuard {
                        select_idx: i as usize,
                        mask_vid: mask,
                        true_range: (tr.0 as usize, tr.1 as usize),
                        false_range: (fr.0 as usize, fr.1 as usize),
                    },
                )
            } else {
                None
            }
        },
        _ => None,
    }
}

/// The guards of the first `k` entries, in schedule order.
pub open spec fn guards_below(sched: Seq<(ValueId, ScheduledOp)>, k: int) -> Seq<SelectGuard>
    decreases k,
{
    if k <= 0 {
        Seq::empty()
    } else {
        match guard_at(sched, k - 1) {
            Some(g) => guards_below(sched, k - 1).push(g),
            None => guards_below(sched, k - 1),
        }
    }
}

/// The guards of a schedule.
pub open spec fn guards_of(sched: Seq<(ValueId, ScheduledOp)>) -> Seq<SelectGuard> {
    guards_below(sched, sched.len() as int)
}

/// What a value needs was defined no later.
proof fn lemma_depends_below(sched: Seq<(ValueId, ScheduledOp)>, from: int, v: int)
    requires
        depends(sched, from, v),
    ensures
        v <= from,
        from >= 0 ==> v >= 0,
    decreases from,
{
    if from != v {
        let o = choose|o: ValueId|
            o.0 < from && #[trigger] sched[from].1.reads(o) && depends(sched, o.0 as int, v);
        lemma_depends_below(sched, o.0 as int, v);
    }
}

/// A marking that holds `from` and is closed under operands holds what `from`
/// needs.
proof fn lemma_closed_depends(
    sched: Seq<(ValueId, ScheduledOp)>,
    marks: Seq<bool>,
    from: int,
    v: int,
)
    requires
        dense(sched),
        0 <= from < sched.len(),
        marks.len() == sched.len(),
        marks[from],
        depends(sched, from, v),
        forall|a: int, o: ValueId|
            0 <= a < sched.len() && marks[a] && #[trigger] sched[a].1.reads(o)
                ==> marks[o.0 as int],
    ensures
        0 <= v < sched.len(),
        marks[v],
    decreases from,
{
    lemma_depends_below(sched, from, v);
    if from != v {
        let o = choose|o: ValueId|
            o.0 < from && #[trigger] sched[from].1.reads(o) && depends(sched, o.0 as int, v);
        lemma_closed_depends(sched, marks, o.0 as int, v);
    }
}

/// What an operand of a needed value needs is needed.
proof fn lemma_depends_operand(
    sched: Seq<(ValueId, ScheduledOp)>,
    from: int,
    a: int,
    o: ValueId,
)
    requires
        dense(sched),
        0 <= from < sched.len(),
        0 <= a < sched.len(),
        depends(sched, from, a),
        sched[a].1.reads(o),
    ensures
        depends(sched, from, o.0 as int),
    decreases from,
{
    assert(entry_ok(sched[a], a));
    if from == a {
        assert(depends(sched, o.0 as int, o.0 as int));
    } else {
        let p = choose|p: ValueId|
            p.0 < from && #[trigger] sched[from].1.reads(p) && depends(sched, p.0 as int, a);
        lemma_depends_operand(sched, p.0 as int, a, o);
    }
}

/// Marks the operands of an operation.
fn mark_operands(marks: &mut Vec<bool>, op: ScheduledOp)
    requires
        forall|o: ValueId| #[trigger] op.reads(o) ==> o.0 < old(marks)@.len(),
    ensures
        final(marks)@.len() == old(marks)@.len(),
        forall|v: int|
            0 <= v < final(marks)@.len() ==> (#[trigger] final(marks)@[v] <==> old(marks)@[v]
                || op.reads(ValueId(v as u32)) && v <= u32::MAX),
{
    match op {
        ScheduledOp::Var(_) | ScheduledOp::Const(_) => {},
        ScheduledOp::Unary(_, a) | ScheduledOp::ShiftImm(_, a, _) => {
            assert(op.reads(a));
            marks.set(a.0 as usize, true);
        },
        ScheduledOp::Binary(_, a, b) => {
            assert(op.reads(a) && op.reads(b));
            marks.set(a.0 as usize, true);
            marks.set(b.0 as usize, true);
        },
        ScheduledOp::Ternary(_, a, b, c) => {
            assert(op.reads(a) && op.reads(b) && op.reads(c));
            marks.set(a.0 as usize, true);
            marks.set(b.0 as usize, true);
            marks.set(c.0 as usize, true);
        },
    }
    assert forall|v: int| 0 <= v < marks@.len() implies (#[trigger] marks@[v] <==> old(marks)@[v]
        || op.reads(ValueId(v as u32)) && v <= u32::MAX) by {}
}

/// The values needed to compute `vid`.
fn transitive_deps(vid: ValueId, schedule: &[(ValueId, ScheduledOp)]) -> (marks: Vec<bool>)
    requires
        dense(schedule@),
        schedule@.len() <= u32::MAX + 1,
        vid.0 < schedule@.len(),
    ensures
        marks@.len() == schedule@.len(),
        forall|v: int|
            0 <= v < marks@.len() ==> #[trigger] marks@[v] == depends(
                schedule@,
                vid.0 as int,
                v,
            ),
{
    let ghost sched = schedule@;
    let n: usize = schedule.len();
    let mut marks: Vec<bool> = Vec::new();
    while marks.len() < n
        invariant
            marks@.len() <= n,
            forall|v: int| 0 <= v < marks@.len() ==> !marks@[v],
        decreases n - marks@.len(),
    {
        marks.push(false);
    }
    marks.set(vid.0 as usize, true);
    let mut i: usize = n;
    while i > 0
        invariant
            i <= n,
            n == sched.len(),
            n <= u32::MAX + 1,
            sched == schedule@,
            dense(sched),
            vid.0 < n,
            marks@.len() == n,
            marks@[vid.0 as int],
            forall|v: int|
                0 <= v < n && #[trigger] marks@[v] ==> depends(sched, vid.0 as int, v),
            forall|a: int, o: ValueId|
                i <= a < n && marks@[a] && #[trigger] sched[a].1.reads(o) ==> marks@[o.0 as int],
        decreases i,
    {
        i -= 1;
        assert(entry_ok(sched[i as int], i as int));
        if marks[i] {
            let ghost was = marks@;
            mark_operands(&mut marks, schedule[i].1);
            proof {
                assert forall|v: int| 0 <= v < n && #[trigger] marks@[v] implies depends(
                    sched,
                    vid.0 as int,
                    v,
                ) by {
                    if !was[v] {
                        lemma_depends_operand(
                            sched,
                            vid.0 as int,
                            i as int,
                            ValueId(v as u32),
                        );
                    }
                }
                assert forall|a: int, o: ValueId|
                    i <= a < n && marks@[a] && #[trigger] sched[a].1.reads(o) implies
                    marks@[o.0 as int] by {
                    assert(entry_ok(sched[a], a));
                    assert(ValueId(o.0) == o);
                    if a > i {
                        assert(was[a]);
                        assert(was[o.0 as int]);
                    }
                }
            }
        }
    }
    proof {
        assert forall|v: int| 0 <= v < n implies #[trigger] marks@[v] == depends(
            sched,
            vid.0 as int,
            v,
        ) by {
            if depends(sched, vid.0 as int, v) {
                lemma_closed_depends(sched, marks@, vid.0 as int, v);
            }
        }
    }
    marks
}

/// Which values the arm alone needs, and which are needed otherwise: those from `v` on
/// are settled, and what the others among them read is marked.
spec fn settled_from(
    sched: Seq<(ValueId, ScheduledOp)>,
    i: int,
    arm: ValueId,
    other: ValueId,
    mask: ValueId,
    own: Seq<bool>,
    outside: Seq<bool>,
    v: int,
) -> bool {
    &&& own.len() == sched.len()
    &&& outside.len() == sched.len()
    &&& forall|u: int|
        v <= u < sched.len() ==> #[trigger] own[u] == exclusive(sched, i, arm, other, mask, u)
    &&& forall|u: int|
        0 <= u < sched.len() ==> (#[trigger] outside[u] <==> exists|c: int|
            v <= c < sched.len() && #[trigger] sched[c].1.reads(ValueId(u as u32)) && c != i
                && !own[c])
}

/// Which values the arm alone needs.
fn own_values(
    schedule: &[(ValueId, ScheduledOp)],
    i: usize,
    arm: &Vec<bool>,
    other: &Vec<bool>,
    mask: &Vec<bool>,
    Ghost(a): Ghost<ValueId>,
    Ghost(o): Ghost<ValueId>,
    Ghost(m): Ghost<ValueId>,
) -> (own: Vec<bool>)
    requires
        dense(schedule@),
        schedule@.len() <= u32::MAX + 1,
        arm@.len() == schedule@.len(),
        other@.len() == schedule@.len(),
        mask@.len() == schedule@.len(),
        forall|v: int|
            0 <= v < arm@.len() ==> #[trigger] arm@[v] == depends(schedule@, a.0 as int, v),
        forall|v: int|
            0 <= v < other@.len() ==> #[trigger] other@[v] == depends(schedule@, o.0 as int, v),
        forall|v: int|
            0 <= v < mask@.len() ==> #[trigger] mask@[v] == depends(schedule@, m.0 as int, v),
    ensures
        own@.len() == schedule@.len(),
        forall|v: int|
            0 <= v < own@.len() ==> #[trigger] own@[v] == exclusive(
                schedule@,
                i as int,
                a,
                o,
                m,
                v,
            ),
{
    let ghost sched = schedule@;
    let ghost ii = i as int;
    let n: usize = schedule.len();
    let mut own: Vec<bool> = Vec::new();
    let mut outside: Vec<bool> = Vec::new();
    while own.len() < n
        invariant
            own@.len() <= n,
            outside@.len() == own@.len(),
            forall|v: int| 0 <= v < own@.len() ==> !outside@[v],
        decreases n - own@.len(),
    {
        own.push(false);
        outside.push(false);
    }
    let mut v: usize = n;
    while v > 0
        invariant
            v <= n,
            n == sched.len(),
            n <= u32::MAX + 1,
            sched == schedule@,
            dense(sched),
            ii == i,
            arm@.len() == n,
            other@.len() == n,
            mask@.len() == n,
            forall|v: int|
                0 <= v < n ==> #[trigger] arm@[v] == depends(sched, a.0 as int, v),
            forall|v: int|
                0 <= v < n ==> #[trigger] other@[v] == depends(sched, o.0 as int, v),
            forall|v: int|
                0 <= v < n ==> #[trigger] mask@[v] == depends(sched, m.0 as int, v),
            settled_from(sched, ii, a, o, m, own@, outside@, v as int),
        decreases v,
    {
        v -= 1;
        let ghost vv = v as int;
        let ghost before = own@;
        let ghost marked = outside@;
        let b: bool = arm[v] && !mask[v] && !other[v] && !outside[v];
        proof {
            assert(entry_ok(sched[vv], vv));
            assert(arm@[vv] == depends(sched, a.0 as int, vv));
            assert(other@[vv] == depends(sched, o.0 as int, vv));
            assert(mask@[vv] == depends(sched, m.0 as int, vv));
            assert(b == exclusive(sched, ii, a, o, m, vv)) by {
                assert forall|c: int|
                    0 <= c < sched.len() && #[trigger] sched[c].1.reads(
                        ValueId(vv as u32),
                    ) implies vv < c by {
                    assert(entry_ok(sched[c], c));
                }
                if outside@[vv] {
                    let c = choose|c: int|
                        vv + 1 <= c < sched.len() && #[trigger] sched[c].1.reads(
                            ValueId(vv as u32),
                        ) && c != ii && !own@[c];
                    assert(own@[c] == exclusive(sched, ii, a, o, m, c));
                    assert(sched[c].1.reads(ValueId(vv as u32)));
                } else {
                    assert forall|c: int|
                        0 <= c < sched.len() && #[trigger] sched[c].1.reads(
                            ValueId(vv as u32),
                        ) implies c == ii || (vv < c && exclusive(sched, ii, a, o, m, c)) by {
                        assert(own@[c] == exclusive(sched, ii, a, o, m, c));
                    }
                }
            }
        }
        own.set(v, b);
        if v != i && !b {
            mark_operands(&mut outside, schedule[v].1);
        }
        proof {
            assert forall|u: int| 0 <= u < sched.len() implies (#[trigger] outside@[u]
                <==> exists|c: int|
                vv <= c < sched.len() && #[trigger] sched[c].1.reads(ValueId(u as u32)) && c != ii
                    && !own@[c]) by {
                assert(marked[u] <==> exists|c: int|
                    vv + 1 <= c < sched.len() && #[trigger] sched[c].1.reads(ValueId(u as u32))
                        && c != ii && !before[c]);
                if marked[u] {
                    let c = choose|c: int|
                        vv + 1 <= c < sched.len() && #[trigger] sched[c].1.reads(
                            ValueId(u as u32),
                        ) && c != ii && !before[c];
                    assert(sched[c].1.reads(ValueId(u as u32)) && !own@[c]);
                }
                if outside@[u] && !marked[u] {
                    assert(sched[vv].1.reads(ValueId(u as u32)) && !own@[vv]);
                }
                if exists|c: int|
                    vv <= c < sched.len() && #[trigger] sched[c].1.reads(ValueId(u as u32)) && c
                        != ii && !own@[c] {
                    let c = choose|c: int|
                        vv <= c < sched.len() && #[trigger] sched[c].1.reads(ValueId(u as u32))
                            && c != ii && !own@[c];
                    if c > vv {
                        assert(sched[c].1.reads(ValueId(u as u32)) && !before[c]);
                    }
                }
            }
        }
    }
    own
}

/// The run of entries an arm can skip.
fn skippable(
    schedule: &[(ValueId, ScheduledOp)],
    i: usize,
    arm: &Vec<bool>,
    other: &Vec<bool>,
    mask: &Vec<bool>,
    m: ValueId,
    Ghost(a): Ghost<ValueId>,
    Ghost(o): Ghost<ValueId>,
) -> (r: (usize, usize))
    requires
        dense(schedule@),
        schedule@.len() <= u32::MAX + 1,
        i < schedule@.len(),
        a.0 < i,
        arm@.len() == schedule@.len(),
        other@.len() == schedule@.len(),
        mask@.len() == schedule@.len(),
        forall|v: int|
            0 <= v < arm@.len() ==> #[trigger] arm@[v] == depends(schedule@, a.0 as int, v),
        forall|v: int|
            0 <= v < other@.len() ==> #[trigger] other@[v] == depends(schedule@, o.0 as int, v),
        forall|v: int|
            0 <= v < mask@.len() ==> #[trigger] mask@[v] == depends(schedule@, m.0 as int, v),
    ensures
        (r.0 as int, r.1 as int) == arm_range(schedule@, i as int, a, o, m),
        r.0 <= r.1 <= i,
{
    let ghost sched = schedule@;
    let ghost ii = i as int;
    let n: usize = schedule.len();
    let own = own_values(schedule, i, arm, other, mask, Ghost(a), Ghost(o), Ghost(m));
    let mut start: usize = n;
    let mut end: usize = 0;
    let mut v: usize = 0;
    while v < n
        invariant
            v <= n,
            own@.len() == n,
            start <= n,
            end <= v,
            start == n ==> end == 0 && forall|u: int| 0 <= u < v ==> !(#[trigger] own@[u]),
            start < n ==> {
                &&& start < end
                &&& own@[start as int]
                &&& own@[end - 1]
                &&& forall|u: int| 0 <= u < start ==> !(#[trigger] own@[u])
                &&& forall|u: int| end <= u < v ==> !(#[trigger] own@[u])
            },
        decreases n - v,
    {
        if own[v] {
            if start == n {
                start = v;
            }
            end = v + 1;
        }
        v += 1;
    }
    if start == n {
        proof {
            if exists|s: int, e: int| exclusive_run(sched, ii, a, o, m, s, e) {
                let (s, e) = choose|s: int, e: int| exclusive_run(sched, ii, a, o, m, s, e);
                assert(exclusive(sched, ii, a, o, m, s));
                assert(own@[s]);
            }
        }
        return (i, i);
    }
    let mut v: usize = start;
    let mut whole: bool = true;
    while v < end
        invariant
            start <= v <= end <= n,
            own@.len() == n,
            whole ==> forall|u: int| start <= u < v ==> #[trigger] own@[u],
            !whole ==> exists|u: int| start <= u < v && !#[trigger] own@[u],
        decreases end - v,
    {
        if !own[v] {
            whole = false;
        }
        v += 1;
    }
    if whole && (m.0 as usize) < start {
        proof {
            assert forall|u: int| 0 <= u < n implies (#[trigger] exclusive(
                sched,
                ii,
                a,
                o,
                m,
                u,
            ) <==> start <= u < end) by {
                assert(own@[u] == exclusive(sched, ii, a, o, m, u));
            }
            assert(exclusive_run(sched, ii, a, o, m, start as int, end as int));
            let (s, e) = choose|s: int, e: int| exclusive_run(sched, ii, a, o, m, s, e);
            lemma_run_unique(sched, ii, a, o, m, s, e, start as int, end as int);
            assert(own@[end - 1] == exclusive(sched, ii, a, o, m, end - 1));
            lemma_depends_below(sched, a.0 as int, end - 1);
        }
        (start, end)
    } else {
        proof {
            if exists|s: int, e: int| exclusive_run(sched, ii, a, o, m, s, e) {
                let (s, e) = choose|s: int, e: int| exclusive_run(sched, ii, a, o, m, s, e);
                assert(own@[start as int] == exclusive(sched, ii, a, o, m, start as int));
                assert(own@[end - 1] == exclusive(sched, ii, a, o, m, end - 1));
                assert(own@[s] == exclusive(sched, ii, a, o, m, s));
                if !whole {
                    let u = choose|u: int| start <= u < end && !#[trigger] own@[u];
                    assert(own@[u] == exclusive(sched, ii, a, o, m, u));
                }
            }
        }
        (i, i)
    }
}

proof fn lemma_run_unique(
    sched: Seq<(ValueId, ScheduledOp)>,
    i: int,
    a: ValueId,
    o: ValueId,
    m: ValueId,
    s: int,
    e: int,
    t: int,
    f: int,
)
    requires
        exclusive_run(sched, i, a, o, m, s, e),
        exclusive_run(sched, i, a, o, m, t, f),
    ensures
        s == t,
        e == f,
{
    assert(exclusive(sched, i, a, o, m, s));
    assert(exclusive(sched, i, a, o, m, t));
    assert(exclusive(sched, i, a, o, m, e - 1));
    assert(exclusive(sched, i, a, o, m, f - 1));
}

/// Find what the `Select` operations of a schedule can skip, in schedule order.
pub fn analyze_select_guards(schedule: &[(ValueId, ScheduledOp)]) -> (guards: Vec<SelectGuard>)
    requires
        dense(schedule@),
        schedule@.len() <= u32::MAX + 1,
    ensures
        guards@ == guards_of(schedule@),
{
    let ghost sched = schedule@;
    let n: usize = schedule.len();
    let mut guards: Vec<SelectGuard> = Vec::new();
    let mut i: usize = 0;
    while i < n
        invariant
            i <= n,
            n == sched.len(),
            n <= u32::MAX + 1,
            sched == schedule@,
            dense(sched),
            guards@ == guards_below(sched, i as int),
        decreases n - i,
    {
        assert(entry_ok(sched[i as int], i as int));
        if let ScheduledOp::Ternary(op, mask_vid, true_vid, false_vid) = schedule[i].1 {
            if let OpKind::Select = op {
                proof {
                    let op = sched[i as int].1;
                    assert(op.reads(mask_vid) && op.reads(true_vid) && op.reads(false_vid));
                }
                let mask = transitive_deps(mask_vid, schedule);
                let yes = transitive_deps(true_vid, schedule);
                let no = transitive_deps(false_vid, schedule);
                let true_range = skippable(
                    schedule,
                    i,
                    &yes,
                    &no,
                    &mask,
                    mask_vid,
                    Ghost(true_vid),
                    Ghost(false_vid),
                );
                let false_range = skippable(
                    schedule,
                    i,
                    &no,
                    &yes,
                    &mask,
                    mask_vid,
                    Ghost(false_vid),
                    Ghost(true_vid),
                );
                if true_range.0 != true_range.1 || false_range.0 != false_range.1 {
                    guards.push(SelectGuard { select_idx: i, mask_vid, true_range, false_range });
                }
            }
        }
        i += 1;
    }
    guards
}

/// Whatever reads a value of a guarded run is the `Select` itself or in the run, which
/// lies between the mask and the `Select`. The mask and the other arm do not need it.
pub proof fn guarded_values_are_private(sched: Seq<(ValueId, ScheduledOp)>, k: int)
    requires
        dense(sched),
        sched.len() <= u32::MAX + 1,
        sched.len() <= usize::MAX,
        0 <= k < guards_of(sched).len(),
    ensures
        ({
            let g = guards_of(sched)[k];
            let i = g.select_idx as int;
            &&& 0 <= i < sched.len()
            &&& g.true_range.0 != g.true_range.1 || g.false_range.0 != g.false_range.1
            &&& sched[i].1 matches ScheduledOp::Ternary(op, mask, t, f) && op is Select && g.mask_vid
                == mask && arm_private(sched, i, t, f, mask, g.true_range) && arm_private(
                sched,
                i,
                f,
                t,
                mask,
                g.false_range,
            )
        }),
{
    lemma_guard_source(sched, sched.len() as int, k);
    let g = guards_of(sched)[k];
    let i = choose|i: int| 0 <= i < sched.len() && #[trigger] guard_at(sched, i) == Some(g);
    assert(entry_ok(sched[i], i));
    match sched[i].1 {
        ScheduledOp::Ternary(op, mask, t, f) => {
            assert(sched[i].1.reads(t) && sched[i].1.reads(f));
            lemma_range_private(sched, i, t, f, mask);
            lemma_range_private(sched, i, f, t, mask);
        },
        _ => {},
    }
}

/// Every entry of the run is exclusive to the arm, and read in the run or by the
/// `Select`; the run is empty or lies between the mask and the `Select`.
pub open spec fn arm_private(
    sched: Seq<(ValueId, ScheduledOp)>,
    i: int,
    arm: ValueId,
    other: ValueId,
    mask: ValueId,
    range: (usize, usize),
) -> bool {
    &&& range.0 <= range.1 <= i
    &&& range.0 < range.1 ==> mask.0 < range.0
    &&& forall|v: int|
        range.0 <= v < range.1 ==> #[trigger] exclusive(sched, i, arm, other, mask, v)
    &&& forall|v: int, c: int|
        range.0 <= v < range.1 && 0 <= c < sched.len() && #[trigger] sched[c].1.reads(
            ValueId(v as u32),
        ) ==> c == i || range.0 <= c < range.1
}

proof fn lemma_range_private(
    sched: Seq<(ValueId, ScheduledOp)>,
    i: int,
    arm: ValueId,
    other: ValueId,
    mask: ValueId,
)
    requires
        dense(sched),
        0 <= i < sched.len(),
        sched.len() <= usize::MAX,
        arm.0 < i,
    ensures
        ({
            let r = arm_range(sched, i, arm, other, mask);
            &&& 0 <= r.0 <= r.1 <= i
            &&& arm_private(sched, i, arm, other, mask, (r.0 as usize, r.1 as usize))
        }),
{
    if exists|s: int, e: int| exclusive_run(sched, i, arm, other, mask, s, e) {
        let (s, e) = choose|s: int, e: int| exclusive_run(sched, i, arm, other, mask, s, e);
        assert(exclusive(sched, i, arm, other, mask, e - 1));
        lemma_depends_below(sched, arm.0 as int, e - 1);
        assert forall|v: int, c: int|
            s <= v < e && 0 <= c < sched.len() && #[trigger] sched[c].1.reads(
                ValueId(v as u32),
            ) implies c == i || s <= c < e by {
            assert(exclusive(sched, i, arm, other, mask, v));
            assert(c == i || exclusive(sched, i, arm, other, mask, c));
        }
    }
}

proof fn lemma_guard_source(sched: Seq<(ValueId, ScheduledOp)>, n: int, k: int)
    requires
        0 <= n <= sched.len(),
        0 <= k < guards_below(sched, n).len(),
    ensures
        exists|i: int|
            0 <= i < n && #[trigger] guard_at(sched, i) == Some(guards_below(sched, n)[k]),
    decreases n,
{
    if n > 0 {
        let before = guards_below(sched, n - 1);
        if k < before.len() {
            lemma_guard_source(sched, n - 1, k);
            let i = choose|i: int|
                0 <= i < n - 1 && #[trigger] guard_at(sched, i) == Some(before[k]);
            assert(guard_at(sched, i) == Some(guards_below(sched, n)[k]));
        } else {
            assert(guard_at(sched, n - 1) == Some(guards_below(sched, n)[k]));
        }
    }
}

} // verus!
