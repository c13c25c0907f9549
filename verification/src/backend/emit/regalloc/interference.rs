//! Interference from a schedule, by backward liveness.

use crate::backend::emit::regalloc::{with_value, InterferenceGraph, ValueId};
use vstd::prelude::*;

verus! {

/// The values of a schedule, last first.
pub open spec fn backward<D>(schedule: Seq<(ValueId, D)>) -> Seq<ValueId> {
    Seq::new(schedule.len(), |t: int| schedule[schedule.len() - 1 - t].0)
}

/// One more than the greatest number of `ids`, at least one.
pub open spec fn live_limit(ids: Seq<ValueId>) -> int
    decreases ids.len(),
{
    if ids.len() == 0 {
        1
    } else {
        let rest = live_limit(ids.drop_last());
        if ids.last().0 + 1 > rest {
            ids.last().0 + 1
        } else {
            rest
        }
    }
}

/// `s` with each value of `more` appended, unless it is there.
pub open spec fn with_values(s: Seq<ValueId>, more: Seq<ValueId>) -> Seq<ValueId>
    decreases more.len(),
{
    if more.len() == 0 {
        s
    } else {
        with_value(with_values(s, more.drop_last()), more.last())
    }
}

/// `live` with the values of `used` that are below `cap` appended, unless there.
pub open spec fn with_used(live: Seq<ValueId>, used: Seq<ValueId>, cap: int) -> Seq<ValueId>
    decreases used.len(),
{
    if used.len() == 0 {
        live
    } else {
        let before = with_used(live, used.drop_last(), cap);
        if used.last().0 < cap {
            with_value(before, used.last())
        } else {
            before
        }
    }
}

/// `s` without `v`.
pub open spec fn without(s: Seq<ValueId>, v: ValueId) -> Seq<ValueId>
    decreases s.len(),
{
    if s.len() == 0 {
        s
    } else if s.last() == v {
        without(s.drop_last(), v)
    } else {
        without(s.drop_last(), v).push(s.last())
    }
}

/// The values live before the first `t` of `ids`, walked backward: what they use,
/// each up to its definition.
pub open spec fn live_after(
    ids: Seq<ValueId>,
    uses: Seq<Vec<ValueId>>,
    cap: int,
    t: nat,
) -> Seq<ValueId>
    decreases t,
{
    if t == 0 {
        Seq::empty()
    } else {
        let live = live_after(ids, uses, cap, (t - 1) as nat);
        with_used(without(live, ids[t - 1]), uses[t - 1]@, cap)
    }
}

/// One of the first `t` values is one of the pair, and the other is live there.
pub open spec fn interferes(
    ids: Seq<ValueId>,
    uses: Seq<Vec<ValueId>>,
    cap: int,
    t: nat,
    a: ValueId,
    b: ValueId,
) -> bool {
    a != b && exists|s: nat|
        s < t && meets(ids[s as int], #[trigger] live_after(ids, uses, cap, s), a, b)
}

/// `v` is one of the pair and the other is in `live`.
pub open spec fn meets(v: ValueId, live: Seq<ValueId>, a: ValueId, b: ValueId) -> bool {
    (a == v && live.contains(b)) || (b == v && live.contains(a))
}

/// The values of the graph after `t` steps: those of the schedule in order,
/// then what is live at the steps.
pub open spec fn graph_values<D>(
    schedule: Seq<(ValueId, D)>,
    uses: Seq<Vec<ValueId>>,
    cap: int,
    t: nat,
) -> Seq<ValueId>
    decreases t,
{
    let ids = backward(schedule);
    if t == 0 {
        with_values(Seq::empty(), ids.reverse())
    } else {
        with_values(
            graph_values(schedule, uses, cap, (t - 1) as nat),
            live_after(ids, uses, cap, (t - 1) as nat),
        )
    }
}

/// `g` has the values and the edges of a schedule whose values, last first,
/// use `uses`.
pub open spec fn built_from<D>(
    schedule: Seq<(ValueId, D)>,
    uses: Seq<Vec<ValueId>>,
    g: InterferenceGraph,
) -> bool {
    let ids = backward(schedule);
    let cap = live_limit(ids);
    &&& uses.len() == ids.len()
    &&& g.vals() == graph_values(schedule, uses, cap, ids.len())
    &&& forall|a: ValueId, b: ValueId| #[trigger]
        g.adj(a).contains(b) <==> interferes(ids, uses, cap, ids.len(), a, b)
}

proof fn lemma_with_values(s: Seq<ValueId>, more: Seq<ValueId>)
    ensures
        forall|v: ValueId| #[trigger]
            with_values(s, more).contains(v) <==> s.contains(v) || more.contains(v),
    decreases more.len(),
{
    if more.len() > 0 {
        let front = more.drop_last();
        lemma_with_values(s, front);
        let before = with_values(s, front);
        assert forall|v: ValueId| #[trigger] with_values(s, more).contains(v) <==> s.contains(v)
            || more.contains(v) by {
            lemma_with_one(before, more.last(), v);
            if more.contains(v) && v != more.last() {
                let i = more.index_of(v);
                assert(front[i] == v);
            }
            if front.contains(v) {
                let i = front.index_of(v);
                assert(more[i] == v);
            }
            if v == more.last() {
                assert(more[more.len() - 1] == v);
            }
        }
    }
}

proof fn lemma_with_one(s: Seq<ValueId>, v: ValueId, u: ValueId)
    ensures
        with_value(s, v).contains(u) <==> s.contains(u) || u == v,
{
    if s.contains(u) {
        assert(s.push(v)[s.index_of(u)] == u);
    }
    if u == v {
        assert(s.push(v)[s.len() as int] == u);
    }
    if s.push(v).contains(u) && u != v {
        let i = s.push(v).index_of(u);
        assert(s[i] == u);
    }
}

/// What was walked does not depend on what is walked later.
proof fn lemma_live_prefix(
    ids: Seq<ValueId>,
    uses: Seq<Vec<ValueId>>,
    more: Seq<Vec<ValueId>>,
    cap: int,
    t: nat,
)
    requires
        t <= uses.len(),
        t <= more.len(),
        forall|s: int| 0 <= s < t ==> uses[s] == more[s],
    ensures
        live_after(ids, uses, cap, t) == live_after(ids, more, cap, t),
    decreases t,
{
    if t > 0 {
        lemma_live_prefix(ids, uses, more, cap, (t - 1) as nat);
    }
}

proof fn lemma_values_prefix<D>(
    schedule: Seq<(ValueId, D)>,
    uses: Seq<Vec<ValueId>>,
    more: Seq<Vec<ValueId>>,
    cap: int,
    t: nat,
)
    requires
        t <= uses.len(),
        t <= more.len(),
        forall|s: int| 0 <= s < t ==> uses[s] == more[s],
    ensures
        graph_values(schedule, uses, cap, t) == graph_values(schedule, more, cap, t),
    decreases t,
{
    if t > 0 {
        lemma_values_prefix(schedule, uses, more, cap, (t - 1) as nat);
        lemma_live_prefix(backward(schedule), uses, more, cap, (t - 1) as nat);
    }
}

proof fn lemma_interferes_prefix(
    ids: Seq<ValueId>,
    uses: Seq<Vec<ValueId>>,
    more: Seq<Vec<ValueId>>,
    cap: int,
    t: nat,
    a: ValueId,
    b: ValueId,
)
    requires
        t <= uses.len(),
        t <= more.len(),
        forall|s: int| 0 <= s < t ==> uses[s] == more[s],
    ensures
        interferes(ids, uses, cap, t, a, b) == interferes(ids, more, cap, t, a, b),
{
    assert forall|s: nat| s < t implies #[trigger] live_after(ids, uses, cap, s) == live_after(
        ids,
        more,
        cap,
        s,
    ) by {
        lemma_live_prefix(ids, uses, more, cap, s);
    }
    if interferes(ids, uses, cap, t, a, b) {
        let s = choose|s: nat|
            s < t && meets(ids[s as int], #[trigger] live_after(ids, uses, cap, s), a, b);
        assert(meets(ids[s as int], live_after(ids, more, cap, s), a, b));
    }
    if interferes(ids, more, cap, t, a, b) {
        let s = choose|s: nat|
            s < t && meets(ids[s as int], #[trigger] live_after(ids, more, cap, s), a, b);
        assert(meets(ids[s as int], live_after(ids, uses, cap, s), a, b));
    }
}

proof fn lemma_interferes_step(
    ids: Seq<ValueId>,
    uses: Seq<Vec<ValueId>>,
    cap: int,
    t: nat,
    a: ValueId,
    b: ValueId,
)
    ensures
        interferes(ids, uses, cap, t + 1, a, b) == (interferes(ids, uses, cap, t, a, b) || (a != b
            && meets(ids[t as int], live_after(ids, uses, cap, t), a, b))),
{
    if interferes(ids, uses, cap, t + 1, a, b) {
        let s = choose|s: nat|
            s < t + 1 && meets(ids[s as int], #[trigger] live_after(ids, uses, cap, s), a, b);
        if s < t {
            assert(meets(ids[s as int], live_after(ids, uses, cap, s), a, b));
        }
    }
    if interferes(ids, uses, cap, t, a, b) {
        let s = choose|s: nat|
            s < t && meets(ids[s as int], #[trigger] live_after(ids, uses, cap, s), a, b);
        assert(meets(ids[s as int], live_after(ids, uses, cap, s), a, b));
    }
    if a != b && meets(ids[t as int], live_after(ids, uses, cap, t), a, b) {
        assert(meets(ids[t as int], live_after(ids, uses, cap, t), a, b));
    }
}

/// Drops a value from a list.
fn drop_value(s: &Vec<ValueId>, v: ValueId) -> (r: Vec<ValueId>)
    ensures
        r@ == without(s@, v),
{
    let mut r: Vec<ValueId> = Vec::new();
    let mut i: usize = 0;
    assert(without(s@.take(0), v) =~= Seq::<ValueId>::empty());
    while i < s.len()
        invariant
            i <= s@.len(),
            r@ == without(s@.take(i as int), v),
        decreases s@.len() - i,
    {
        assert(s@.take(i as int + 1).drop_last() =~= s@.take(i as int));
        if s[i].0 != v.0 {
            r.push(s[i]);
        }
        i += 1;
    }
    assert(s@.take(i as int) =~= s@);
    r
}

/// True if `s` holds `v`.
fn listed(s: &Vec<ValueId>, v: ValueId) -> (b: bool)
    ensures
        b == s@.contains(v),
{
    let mut i: usize = 0;
    while i < s.len()
        invariant
            i <= s@.len(),
            forall|j: int| 0 <= j < i ==> s@[j] != v,
        decreases s@.len() - i,
    {
        if s[i].0 == v.0 {
            assert(s@[i as int] == v);
            return true;
        }
        i += 1;
    }
    false
}

/// Edges and values after the first `k` of the live values have been joined to `v`.
spec fn joined(
    g: InterferenceGraph,
    base_edge: spec_fn(ValueId, ValueId) -> bool,
    base_vals: Seq<ValueId>,
    v: ValueId,
    live: Seq<ValueId>,
) -> bool {
    &&& g.wf()
    &&& g.vals() == with_values(base_vals, live)
    &&& forall|a: ValueId, b: ValueId| #[trigger]
        g.adj(a).contains(b) <==> (base_edge(a, b) || (a != b && meets(v, live, a, b)))
    &&& forall|u: ValueId| (#[trigger] g.color(u)) is None
}

/// Join `v` to every live value.
fn join_live(
    graph: &mut InterferenceGraph,
    v: ValueId,
    live: &Vec<ValueId>,
    Ghost(base_edge): Ghost<spec_fn(ValueId, ValueId) -> bool>,
)
    requires
        old(graph).wf(),
        old(graph).vals().contains(v),
        v.0 < usize::MAX,
        forall|i: int| 0 <= i < live@.len() ==> (#[trigger] live@[i]).0 < usize::MAX,
        forall|a: ValueId, b: ValueId| #[trigger]
            old(graph).adj(a).contains(b) <==> base_edge(a, b),
        forall|u: ValueId| (#[trigger] old(graph).color(u)) is None,
    ensures
        joined(*final(graph), base_edge, old(graph).vals(), v, live@),
{
    let mut k: usize = 0;
    while k < live.len()
        invariant
            k <= live@.len(),
            v.0 < usize::MAX,
            old(graph).vals().contains(v),
            forall|i: int| 0 <= i < live@.len() ==> (#[trigger] live@[i]).0 < usize::MAX,
            joined(*graph, base_edge, old(graph).vals(), v, live@.take(k as int)),
        decreases live@.len() - k,
    {
        let other: ValueId = live[k];
        let ghost was = *graph;
        let ghost front = live@.take(k as int);
        graph.add_edge(v, other);
        proof {
            let now = live@.take(k as int + 1);
            assert(now.drop_last() =~= front);
            assert(now.last() == other);
            lemma_with_values(old(graph).vals(), front);
            assert(was.vals().contains(v));
            assert(graph.vals() =~= with_values(old(graph).vals(), now));
            assert forall|a: ValueId, b: ValueId| #[trigger]
                graph.adj(a).contains(b) <==> (base_edge(a, b) || (a != b && meets(
                    v,
                    now,
                    a,
                    b,
                ))) by {
                assert(was.adj(a).contains(b) <==> (base_edge(a, b) || (a != b && meets(
                    v,
                    front,
                    a,
                    b,
                ))));
                lemma_take_contains(live@, k as int, a);
                lemma_take_contains(live@, k as int, b);
                lemma_pushed(was.adj(a), other, b);
                lemma_pushed(was.adj(a), v, b);
            }
        }
        k += 1;
    }
    assert(live@.take(k as int) =~= live@);
}

proof fn lemma_pushed(s: Seq<ValueId>, v: ValueId, u: ValueId)
    ensures
        s.push(v).contains(u) <==> s.contains(u) || u == v,
{
    if s.contains(u) {
        assert(s.push(v)[s.index_of(u)] == u);
    }
    if u == v {
        assert(s.push(v)[s.len() as int] == u);
    }
    if s.push(v).contains(u) && u != v {
        let i = s.push(v).index_of(u);
        assert(s[i] == u);
    }
}

proof fn lemma_take_contains(s: Seq<ValueId>, k: int, v: ValueId)
    requires
        0 <= k < s.len(),
    ensures
        s.take(k + 1).contains(v) <==> s.take(k).contains(v) || v == s[k],
{
    assert(s.take(k + 1) =~= s.take(k).push(s[k]));
    lemma_pushed(s.take(k), s[k], v);
}

/// Build the interference graph of a schedule.
///
/// The schedule is walked backward. Each value interferes with every value live at
/// its definition; before that it is not live, and what it uses is. `uses_of` gives
/// the values a value uses; those numbered above every scheduled value are ignored.
pub fn build_interference_graph<D, F>(schedule: &[(ValueId, D)], uses_of: F) -> (g:
    InterferenceGraph) where F: Fn(ValueId) -> Vec<ValueId>
    requires
        forall|v: ValueId| call_requires(uses_of, (v,)),
        forall|i: int| 0 <= i < schedule@.len() ==> (#[trigger] schedule@[i]).0.0 < usize::MAX,
    ensures
        g.wf(),
        forall|v: ValueId| (#[trigger] g.color(v)) is None,
        forall|v: ValueId, i: int, j: int|
            0 <= i < j < g.adj(v).len() ==> #[trigger] g.adj(v)[i].0 < #[trigger] g.adj(v)[j].0,
        exists|uses: Seq<Vec<ValueId>>| #[trigger]
            built_from(schedule@, uses, g) && forall|t: int|
                0 <= t < uses.len() ==> call_ensures(
                    uses_of,
                    (backward(schedule@)[t],),
                    #[trigger] uses[t],
                ),
{
    let n: usize = schedule.len();
    let ghost ids = backward(schedule@);
    let ghost cap = live_limit(ids);
    let mut graph = InterferenceGraph::new();
    let mut i: usize = 0;
    let ghost fwd = ids.reverse();
    assert(with_values(Seq::empty(), fwd.take(0)) =~= Seq::<ValueId>::empty());
    while i < n
        invariant
            i <= n,
            n == schedule@.len(),
            ids == backward(schedule@),
            fwd == ids.reverse(),
            forall|i: int| 0 <= i < schedule@.len() ==> (#[trigger] schedule@[i]).0.0 < usize::MAX,
            graph.wf(),
            graph.vals() == with_values(Seq::empty(), fwd.take(i as int)),
            forall|v: ValueId| (#[trigger] graph.adj(v)).len() == 0,
            forall|v: ValueId| (#[trigger] graph.color(v)) is None,
        decreases n - i,
    {
        graph.add_value(schedule[i].0);
        assert(fwd.take(i as int + 1).drop_last() =~= fwd.take(i as int));
        assert(fwd[i as int] == schedule@[i as int].0);
        i += 1;
    }
    assert(fwd.take(n as int) =~= fwd);
    let mut limit: u32 = 0;
    let mut t: usize = 0;
    assert(live_limit(ids.take(0)) == 1);
    while t < n
        invariant
            t <= n,
            n == schedule@.len(),
            ids == backward(schedule@),
            limit + 1 == live_limit(ids.take(t as int)),
            limit < usize::MAX || limit == 0,
            forall|i: int| 0 <= i < schedule@.len() ==> (#[trigger] schedule@[i]).0.0 < usize::MAX,
        decreases n - t,
    {
        let v: ValueId = schedule[n - 1 - t].0;
        assert(ids.take(t as int + 1).drop_last() =~= ids.take(t as int));
        assert(ids.take(t as int + 1).last() == v);
        if v.0 > limit {
            limit = v.0;
        }
        t += 1;
    }
    assert(ids.take(n as int) =~= ids);
    let mut live: Vec<ValueId> = Vec::new();
    let ghost mut uses: Seq<Vec<ValueId>> = Seq::empty();
    let mut t: usize = 0;
    proof {
        assert forall|a: ValueId, b: ValueId| #[trigger]
            graph.adj(a).contains(b) <==> interferes(ids, uses, cap, 0, a, b) by {}
    }
    while t < n
        invariant
            t <= n,
            n == schedule@.len(),
            ids == backward(schedule@),
            cap == limit + 1,
            cap == live_limit(ids),
            forall|v: ValueId| call_requires(uses_of, (v,)),
            forall|i: int| 0 <= i < schedule@.len() ==> (#[trigger] schedule@[i]).0.0 < usize::MAX,
            uses.len() == t,
            forall|s: int|
                0 <= s < t ==> call_ensures(uses_of, (ids[s],), #[trigger] uses[s]),
            live@ == live_after(ids, uses, cap, t as nat),
            limit < usize::MAX,
            forall|i: int| 0 <= i < live@.len() ==> (#[trigger] live@[i]).0 < usize::MAX,
            graph.wf(),
            graph.vals() == graph_values(schedule@, uses, cap, t as nat),
            forall|a: ValueId, b: ValueId| #[trigger]
                graph.adj(a).contains(b) <==> interferes(ids, uses, cap, t as nat, a, b),
            forall|v: ValueId| (#[trigger] graph.color(v)) is None,
        decreases n - t,
    {
        let v: ValueId = schedule[n - 1 - t].0;
        assert(v == ids[t as int]);
        proof {
            lemma_scheduled_is_value(schedule@, uses, cap, t as nat, t as int);
        }
        let ghost edge = |a: ValueId, b: ValueId| interferes(ids, uses, cap, t as nat, a, b);
        join_live(&mut graph, v, &live, Ghost(edge));
        live = drop_value(&live, v);
        proof {
            lemma_without_ids(live_after(ids, uses, cap, t as nat), v);
        }
        let used = uses_of(v);
        let ghost before = uses;
        proof {
            uses = uses.push(used);
            lemma_live_prefix(ids, before, uses, cap, t as nat);
            lemma_values_prefix(schedule@, before, uses, cap, t as nat);
        }
        let ghost start = live@;
        let mut k: usize = 0;
        while k < used.len()
            invariant
                k <= used@.len(),
                cap == limit + 1,
                limit < usize::MAX,
                live@ == with_used(start, used@.take(k as int), cap),
                forall|i: int| 0 <= i < live@.len() ==> (#[trigger] live@[i]).0 < usize::MAX,
            decreases used@.len() - k,
        {
            let u: ValueId = used[k];
            assert(used@.take(k as int + 1).drop_last() =~= used@.take(k as int));
            if u.0 <= limit && !listed(&live, u) {
                live.push(u);
            }
            k += 1;
        }
        proof {
            assert(used@.take(k as int) =~= used@);
            assert forall|a: ValueId, b: ValueId| #[trigger]
                graph.adj(a).contains(b) <==> interferes(
                    ids,
                    uses,
                    cap,
                    (t + 1) as nat,
                    a,
                    b,
                ) by {
                lemma_interferes_step(ids, uses, cap, t as nat, a, b);
                lemma_interferes_prefix(ids, before, uses, cap, t as nat, a, b);
                assert(edge(a, b) == interferes(ids, before, cap, t as nat, a, b));
            }
        }
        t += 1;
    }
    let ghost full = graph;
    graph.dedup_edges();
    proof {
        assert forall|a: ValueId, b: ValueId| #[trigger]
            graph.adj(a).contains(b) <==> interferes(ids, uses, cap, n as nat, a, b) by {
            assert(crate::backend::emit::regalloc::sorted_set(graph.adj(a), full.adj(a)));
            assert(full.adj(a).contains(b) <==> interferes(ids, uses, cap, n as nat, a, b));
        }
        assert forall|v: ValueId, i: int, j: int| 0 <= i < j < graph.adj(v).len() implies (
        #[trigger] graph.adj(v)[i]).0 < (#[trigger] graph.adj(v)[j]).0 by {
            assert(crate::backend::emit::regalloc::sorted_set(graph.adj(v), full.adj(v)));
        }
        assert(built_from(schedule@, uses, graph));
    }
    graph
}

/// Scheduled values are in the graph from the start.
proof fn lemma_scheduled_is_value<D>(
    schedule: Seq<(ValueId, D)>,
    uses: Seq<Vec<ValueId>>,
    cap: int,
    t: nat,
    s: int,
)
    requires
        0 <= s < schedule.len(),
    ensures
        graph_values(schedule, uses, cap, t).contains(backward(schedule)[s]),
    decreases t,
{
    let ids = backward(schedule);
    if t == 0 {
        lemma_with_values(Seq::empty(), ids.reverse());
        assert(ids.reverse()[ids.len() - 1 - s] == ids[s]);
    } else {
        lemma_scheduled_is_value(schedule, uses, cap, (t - 1) as nat, s);
        lemma_with_values(
            graph_values(schedule, uses, cap, (t - 1) as nat),
            live_after(ids, uses, cap, (t - 1) as nat),
        );
    }
}

proof fn lemma_without(s: Seq<ValueId>, v: ValueId, u: ValueId)
    ensures
        without(s, v).contains(u) <==> s.contains(u) && u != v,
    decreases s.len(),
{
    if s.len() > 0 {
        let front = s.drop_last();
        lemma_without(front, v, u);
        lemma_pushed(without(front, v), s.last(), u);
        assert(s =~= front.push(s.last()));
        lemma_pushed(front, s.last(), u);
    }
}

proof fn lemma_without_ids(s: Seq<ValueId>, v: ValueId)
    requires
        forall|i: int| 0 <= i < s.len() ==> (#[trigger] s[i]).0 < usize::MAX,
    ensures
        forall|i: int|
            0 <= i < without(s, v).len() ==> (#[trigger] without(s, v)[i]).0 < usize::MAX,
{
    let t = without(s, v);
    assert forall|i: int| 0 <= i < t.len() implies (#[trigger] t[i]).0 < usize::MAX by {
        assert(t.contains(t[i]));
        lemma_without(s, v, t[i]);
        let j = s.index_of(t[i]);
        assert(s[j] == t[i]);
    }
}

proof fn lemma_with_used(live: Seq<ValueId>, used: Seq<ValueId>, cap: int, u: ValueId)
    ensures
        with_used(live, used, cap).contains(u) <==> live.contains(u) || (used.contains(u) && u.0
            < cap),
    decreases used.len(),
{
    if used.len() > 0 {
        let front = used.drop_last();
        lemma_with_used(live, front, cap, u);
        lemma_with_one(with_used(live, front, cap), used.last(), u);
        assert(used =~= front.push(used.last()));
        lemma_pushed(front, used.last(), u);
    }
}

/// A value is live after `t` steps if one of them uses it and no later one defines it.
proof fn lemma_live(
    ids: Seq<ValueId>,
    uses: Seq<Vec<ValueId>>,
    cap: int,
    t: nat,
    v: ValueId,
)
    requires
        v.0 < cap,
    ensures
        live_after(ids, uses, cap, t).contains(v) <==> exists|p: int|
            0 <= p < t && #[trigger] uses[p]@.contains(v) && forall|q: int|
                p < q < t ==> #[trigger] ids[q] != v,
    decreases t,
{
    if t > 0 {
        let k = t - 1;
        let live = live_after(ids, uses, cap, k as nat);
        lemma_live(ids, uses, cap, k as nat, v);
        lemma_without(live, ids[k], v);
        lemma_with_used(without(live, ids[k]), uses[k]@, cap, v);
        if live_after(ids, uses, cap, t).contains(v) {
            if uses[k]@.contains(v) {
                assert(uses[k]@.contains(v));
            } else {
                let p = choose|p: int|
                    0 <= p < k && #[trigger] uses[p]@.contains(v) && forall|q: int|
                        p < q < k ==> #[trigger] ids[q] != v;
                assert(uses[p]@.contains(v));
            }
        }
    }
}

/// A live value was used.
pub(crate) proof fn lemma_live_is_used(
    ids: Seq<ValueId>,
    uses: Seq<Vec<ValueId>>,
    cap: int,
    t: nat,
    v: ValueId,
) -> (p: int)
    requires
        live_after(ids, uses, cap, t).contains(v),
    ensures
        0 <= p < t,
        uses[p]@.contains(v),
    decreases t,
{
    let k = t - 1;
    let live = live_after(ids, uses, cap, k as nat);
    lemma_without(live, ids[k], v);
    lemma_with_used(without(live, ids[k]), uses[k]@, cap, v);
    if uses[k]@.contains(v) {
        k
    } else {
        lemma_live_is_used(ids, uses, cap, k as nat, v)
    }
}

proof fn lemma_live_limit(ids: Seq<ValueId>, k: int)
    requires
        0 <= k < ids.len(),
    ensures
        ids[k].0 < live_limit(ids),
    decreases ids.len(),
{
    if k < ids.len() - 1 {
        lemma_live_limit(ids.drop_last(), k);
    }
}

/// Every value is defined once, and uses only values defined before it.
pub open spec fn in_order<D>(schedule: Seq<(ValueId, D)>, uses: Seq<Vec<ValueId>>) -> bool {
    let ids = backward(schedule);
    &&& uses.len() == ids.len()
    &&& ids.no_duplicates()
    &&& forall|p: int, v: ValueId|
        0 <= p < ids.len() && #[trigger] uses[p]@.contains(v) ==> exists|q: int|
            p < q < ids.len() && #[trigger] ids[q] == v
}

/// Value `v` is used after entry `t`.
pub open spec fn used_after<D>(
    schedule: Seq<(ValueId, D)>,
    uses: Seq<Vec<ValueId>>,
    v: ValueId,
    t: int,
) -> bool {
    exists|p: int| 0 <= p < schedule.len() - 1 - t && #[trigger] uses[p]@.contains(v)
}

/// Two values of a schedule interfere if and only if their live ranges overlap: the
/// one defined first is still used after the definition of the other.
pub proof fn overlapping_live_ranges_interfere<D>(
    schedule: Seq<(ValueId, D)>,
    uses: Seq<Vec<ValueId>>,
    s: int,
    t: int,
)
    requires
        in_order(schedule, uses),
        0 <= s < t < schedule.len(),
    ensures
        interferes(
            backward(schedule),
            uses,
            live_limit(backward(schedule)),
            schedule.len(),
            schedule[s].0,
            schedule[t].0,
        ) <==> used_after(schedule, uses, schedule[s].0, t),
{
    let ids = backward(schedule);
    let cap = live_limit(ids);
    let n = schedule.len();
    let x = n - 1 - s;
    let y = n - 1 - t;
    let a = schedule[s].0;
    let b = schedule[t].0;
    assert(ids[x] == a && ids[y] == b);
    assert(a != b);
    lemma_live_limit(ids, x);
    lemma_live_limit(ids, y);
    if used_after(schedule, uses, a, t) {
        let p = choose|p: int| 0 <= p < y && #[trigger] uses[p]@.contains(a);
        lemma_live(ids, uses, cap, y as nat, a);
        assert forall|q: int| p < q < y implies #[trigger] ids[q] != a by {
            assert(ids[q] != ids[x]);
        }
        assert(live_after(ids, uses, cap, y as nat).contains(a));
        assert(meets(ids[y], live_after(ids, uses, cap, y as nat), a, b));
    }
    if interferes(ids, uses, cap, n, a, b) {
        let w = choose|w: nat|
            w < n && meets(ids[w as int], #[trigger] live_after(ids, uses, cap, w), a, b);
        if ids[w as int] == b && live_after(ids, uses, cap, w).contains(a) {
            assert(w == y);
            lemma_live(ids, uses, cap, w, a);
            let p = choose|p: int|
                0 <= p < w && #[trigger] uses[p]@.contains(a) && forall|q: int|
                    p < q < w ==> #[trigger] ids[q] != a;
            assert(uses[p]@.contains(a));
        } else {
            assert(w == x);
            lemma_live(ids, uses, cap, w, b);
            let p = choose|p: int|
                0 <= p < w && #[trigger] uses[p]@.contains(b) && forall|q: int|
                    p < q < w ==> #[trigger] ids[q] != b;
            let q = choose|q: int| p < q < ids.len() && #[trigger] ids[q] == b;
            assert(q == y);
            assert(ids[y] != b);
        }
    }
}

} // verus!
