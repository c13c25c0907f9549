//! Greedy coloring along a maximum cardinality search order.

use crate::backend::emit::regalloc::{InterferenceGraph, RegAllocation, ValueId};
use crate::backend::emit::Reg;
use std::collections::BTreeMap;
use vstd::prelude::*;

verus! {

broadcast use vstd::std_specs::btree::group_btree_axioms;

/// How often `v` occurs in `s`.
pub open spec fn times(s: Seq<ValueId>, v: ValueId) -> nat
    decreases s.len(),
{
    if s.len() == 0 {
        0
    } else {
        times(s.drop_last(), v) + if s.last() == v {
            1nat
        } else {
            0nat
        }
    }
}

/// How many edges lead from the picked values to `v`.
pub open spec fn weight(g: InterferenceGraph, picked: Seq<ValueId>, v: ValueId) -> nat
    decreases picked.len(),
{
    if picked.len() == 0 {
        0
    } else {
        weight(g, picked.drop_last(), v) + times(g.adj(picked.last()), v)
    }
}

/// `v` is still to be picked.
pub open spec fn remaining(g: InterferenceGraph, picked: Seq<ValueId>, v: ValueId) -> bool {
    g.vals().contains(v) && !picked.contains(v)
}

/// `v` comes before `u`: greater weight, or the same weight and no smaller number.
pub open spec fn beats(g: InterferenceGraph, picked: Seq<ValueId>, v: ValueId, u: ValueId) -> bool {
    weight(g, picked, v) > weight(g, picked, u) || (weight(g, picked, v) == weight(g, picked, u)
        && v.0 >= u.0)
}

/// `v` is the value to pick next.
pub open spec fn is_pick(g: InterferenceGraph, picked: Seq<ValueId>, v: ValueId) -> bool {
    &&& remaining(g, picked, v)
    &&& forall|u: ValueId| #[trigger] remaining(g, picked, u) ==> beats(g, picked, v, u)
}

/// The first `k` values of the maximum cardinality search.
pub open spec fn search_order(g: InterferenceGraph, k: nat) -> Seq<ValueId>
    decreases k,
{
    if k == 0 {
        Seq::empty()
    } else {
        let picked = search_order(g, (k - 1) as nat);
        picked.push(choose|v: ValueId| is_pick(g, picked, v))
    }
}

/// The elimination order: the search order, last first.
pub open spec fn elimination_order(g: InterferenceGraph) -> Seq<ValueId> {
    search_order(g, g.vals().len()).reverse()
}

/// The order in which values are colored: the reverse of elimination.
pub open spec fn coloring_order(g: InterferenceGraph) -> Seq<ValueId> {
    search_order(g, g.vals().len())
}

/// A neighbor of `v` holds register `c`.
pub open spec fn taken(g: InterferenceGraph, assigned: Map<u32, Reg>, v: ValueId, c: int) -> bool {
    exists|u: ValueId| #[trigger]
        g.adj(v).contains(u) && assigned.contains_key(u.0) && assigned[u.0].0 == c
}

/// The first register from `c` on, below `hi`, that no neighbor of `v` holds.
pub open spec fn first_free(
    g: InterferenceGraph,
    assigned: Map<u32, Reg>,
    v: ValueId,
    c: int,
    hi: int,
) -> Option<u8>
    decreases hi - c,
{
    if c >= hi {
        None
    } else if !taken(g, assigned, v, c) {
        Some(c as u8)
    } else {
        first_free(g, assigned, v, c + 1, hi)
    }
}

/// A coloring under construction.
#[verifier::ext_equal]
pub struct Coloring {
    /// Register of each colored value, by number.
    pub assigned: Map<u32, Reg>,
    /// Values for which no register was left.
    pub spilled: Seq<ValueId>,
}

/// The bound registers.
pub open spec fn bound_registers(g: InterferenceGraph) -> Map<u32, Reg> {
    Map::new(
        |id: u32| g.color(ValueId(id)) is Some,
        |id: u32| g.color(ValueId(id))->0,
    )
}

/// `st` with `v` colored, or spilled if no register from `lo` up to `hi` is left.
pub open spec fn color_one(
    g: InterferenceGraph,
    st: Coloring,
    v: ValueId,
    lo: int,
    hi: int,
) -> Coloring {
    if st.assigned.contains_key(v.0) {
        st
    } else {
        match first_free(g, st.assigned, v, lo, hi) {
            Some(c) => Coloring { assigned: st.assigned.insert(v.0, Reg(c)), ..st },
            None => Coloring { spilled: st.spilled.push(v), ..st },
        }
    }
}

/// The coloring after the first `k` values of `order`.
pub open spec fn color_along(
    g: InterferenceGraph,
    order: Seq<ValueId>,
    k: nat,
    lo: int,
    hi: int,
) -> Coloring
    decreases k,
{
    if k == 0 {
        Coloring { assigned: bound_registers(g), spilled: Seq::empty() }
    } else {
        color_one(g, color_along(g, order, (k - 1) as nat, lo, hi), order[k - 1], lo, hi)
    }
}

/// The coloring of a graph with the registers from `lo` up to `hi`.
pub open spec fn coloring(g: InterferenceGraph, lo: int, hi: int) -> Coloring {
    color_along(g, coloring_order(g), g.vals().len(), lo, hi)
}

/// `n` registers from `lo` on cover every assigned register not below `lo`,
/// and no fewer do.
pub open spec fn registers_used(assigned: Map<u32, Reg>, lo: int, n: int) -> bool {
    &&& forall|id: u32| #[trigger]
        assigned.contains_key(id) && assigned[id].0 >= lo ==> assigned[id].0 - lo + 1 <= n
    &&& n > 0 ==> exists|id: u32| #[trigger]
        assigned.contains_key(id) && assigned[id].0 - lo + 1 == n
}

proof fn lemma_times_push(s: Seq<ValueId>, u: ValueId, v: ValueId)
    ensures
        times(s.push(u), v) == times(s, v) + if u == v {
            1nat
        } else {
            0nat
        },
        times(s, v) <= s.len(),
    decreases s.len(),
{
    assert(s.push(u).drop_last() =~= s);
    if s.len() > 0 {
        lemma_times_push(s.drop_last(), s.last(), v);
        assert(s.drop_last().push(s.last()) =~= s);
    }
}

/// The best of the first `j` values that remain.
proof fn lemma_best(g: InterferenceGraph, picked: Seq<ValueId>, j: int) -> (b: Option<ValueId>)
    requires
        0 <= j <= g.vals().len(),
    ensures
        b matches Some(v) ==> remaining(g, picked, v) && forall|i: int|
            0 <= i < j && remaining(g, picked, #[trigger] g.vals()[i]) ==> beats(
                g,
                picked,
                v,
                g.vals()[i],
            ),
        b is None ==> forall|i: int|
            0 <= i < j ==> !remaining(g, picked, #[trigger] g.vals()[i]),
    decreases j,
{
    if j == 0 {
        None
    } else {
        let b = lemma_best(g, picked, j - 1);
        let u = g.vals()[j - 1];
        if remaining(g, picked, u) {
            match b {
                Some(v) => if beats(g, picked, v, u) {
                    Some(v)
                } else {
                    Some(u)
                },
                None => Some(u),
            }
        } else {
            b
        }
    }
}

/// While fewer values are picked than there are, one remains.
proof fn lemma_some_remain(g: InterferenceGraph, picked: Seq<ValueId>)
    requires
        g.vals().no_duplicates(),
        picked.len() < g.vals().len(),
    ensures
        exists|v: ValueId| remaining(g, picked, v),
{
    if forall|v: ValueId| !remaining(g, picked, v) {
        let a = g.vals().to_set();
        let b = picked.to_set();
        assert forall|v: ValueId| #[trigger] a.contains(v) implies b.contains(v) by {
            assert(!remaining(g, picked, v));
        }
        g.vals().unique_seq_to_set();
        picked.lemma_cardinality_of_set();
        vstd::set_lib::lemma_len_subset(a, b);
    }
}

/// The next pick exists and is determined.
pub(crate) proof fn lemma_pick(g: InterferenceGraph, picked: Seq<ValueId>)
    requires
        g.vals().no_duplicates(),
        picked.len() < g.vals().len(),
    ensures
        is_pick(g, picked, choose|v: ValueId| is_pick(g, picked, v)),
{
    lemma_some_remain(g, picked);
    let w = choose|v: ValueId| remaining(g, picked, v);
    let i = g.vals().index_of(w);
    assert(g.vals()[i] == w);
    let b = lemma_best(g, picked, g.vals().len() as int);
    assert(b is Some);
    let v = b->0;
    assert forall|u: ValueId| #[trigger] remaining(g, picked, u) implies beats(g, picked, v, u) by {
        let k = g.vals().index_of(u);
        assert(g.vals()[k] == u);
    }
    assert(is_pick(g, picked, v));
}

proof fn lemma_pick_unique(g: InterferenceGraph, picked: Seq<ValueId>, a: ValueId, b: ValueId)
    requires
        is_pick(g, picked, a),
        is_pick(g, picked, b),
    ensures
        a == b,
{
    assert(beats(g, picked, a, b));
    assert(beats(g, picked, b, a));
}

/// The search picks every value once.
pub proof fn search_picks_each_value_once(g: InterferenceGraph, k: nat)
    requires
        g.wf(),
        k <= g.vals().len(),
    ensures
        search_order(g, k).len() == k,
        search_order(g, k).no_duplicates(),
        forall|v: ValueId| #[trigger] search_order(g, k).contains(v) ==> g.vals().contains(v),
        k == g.vals().len() ==> forall|v: ValueId| #[trigger]
            g.vals().contains(v) ==> search_order(g, k).contains(v),
    decreases k,
{
    if k > 0 {
        let picked = search_order(g, (k - 1) as nat);
        search_picks_each_value_once(g, (k - 1) as nat);
        lemma_pick(g, picked);
        let v = choose|v: ValueId| is_pick(g, picked, v);
        assert(remaining(g, picked, v));
        let now = search_order(g, k);
        assert(now =~= picked.push(v));
        assert forall|u: ValueId| #[trigger] now.contains(u) implies g.vals().contains(u) by {
            let i = now.index_of(u);
            if i < picked.len() {
                assert(picked[i] == u);
                assert(picked.contains(u));
            }
        }
    }
    if k == g.vals().len() {
        let now = search_order(g, k);
        assert forall|v: ValueId| #[trigger] g.vals().contains(v) implies now.contains(v) by {
            if !now.contains(v) {
                let a = now.to_set();
                let b = g.vals().to_set();
                now.unique_seq_to_set();
                g.vals().unique_seq_to_set();
                assert forall|u: ValueId| #[trigger] a.contains(u) implies b.remove(v).contains(
                    u,
                ) by {
                    assert(now.contains(u));
                }
                vstd::set_lib::lemma_len_subset(a, b.remove(v));
                assert(b.contains(v));
            }
        }
    }
}

/// Compute the elimination order by maximum cardinality search: the value with
/// most edges to those picked before it is picked next, the greatest number
/// first among equals. The result is reversed.
fn simplicial_elimination_order(graph: &InterferenceGraph) -> (order: Vec<ValueId>)
    requires
        graph.wf(),
    ensures
        order@ == elimination_order(*graph),
{
    let n: usize = graph.len();
    let values = graph.values();
    let cap: usize = id_limit(graph);
    let mut weights: Vec<u128> = Vec::new();
    let mut rest: Vec<bool> = Vec::new();
    while weights.len() < cap
        invariant
            weights@.len() <= cap,
            rest@.len() == weights@.len(),
            forall|i: int| 0 <= i < weights@.len() ==> weights@[i] == 0,
            forall|i: int| 0 <= i < rest@.len() ==> !rest@[i],
        decreases cap - weights@.len(),
    {
        weights.push(0);
        rest.push(false);
    }
    let mut i: usize = 0;
    while i < n
        invariant
            i <= n,
            n == values@.len(),
            values@ == graph.vals(),
            rest@.len() == cap,
            cap <= u32::MAX + 1,
            ids_below(*graph, cap as int),
            forall|j: int| 0 <= j < i ==> rest@[(#[trigger] values@[j]).0 as int],
            forall|id: int|
                0 <= id < cap && #[trigger] rest@[id] ==> values@.contains(ValueId(id as u32)),
        decreases n - i,
    {
        assert forall|j: int| 0 <= j < n implies (#[trigger] values@[j]).0 < cap by {
            assert(graph.vals().contains(values@[j]));
        }
        rest.set(values[i].0 as usize, true);
        i += 1;
    }
    let mut order: Vec<ValueId> = Vec::new();
    proof {
        assert forall|id: int| 0 <= id < cap implies #[trigger] rest@[id] == remaining(
            *graph,
            order@,
            ValueId(id as u32),
        ) by {
            if graph.vals().contains(ValueId(id as u32)) {
                let j = graph.vals().index_of(ValueId(id as u32));
                assert(values@[j].0 == id as u32);
            }
        }
        assert forall|id: int| 0 <= id < cap implies #[trigger] weights@[id] == weight(
            *graph,
            order@,
            ValueId(id as u32),
        ) by {}
    }
    while order.len() < n
        invariant
            graph.wf(),
            n == values@.len(),
            values@ == graph.vals(),
            n <= u32::MAX + 1,
            order@.len() <= n,
            order@ == search_order(*graph, order@.len()),
            ids_below(*graph, cap as int),
            cap <= u32::MAX + 1,
            rest@.len() == cap,
            weights@.len() == cap,
            forall|id: int|
                0 <= id < cap ==> #[trigger] rest@[id] == remaining(
                    *graph,
                    order@,
                    ValueId(id as u32),
                ),
            forall|id: int|
                0 <= id < cap && rest@[id] ==> #[trigger] weights@[id] == weight(
                    *graph,
                    order@,
                    ValueId(id as u32),
                ),
            forall|id: int|
                0 <= id < cap ==> #[trigger] weights@[id] <= order@.len() * usize::MAX,
        decreases n - order@.len(),
    {
        let ghost picked = order@;
        let mut best: Option<ValueId> = None;
        let mut j: usize = 0;
        while j < n
            invariant
                j <= n,
                n == values@.len(),
                values@ == graph.vals(),
                picked == order@,
                ids_below(*graph, cap as int),
                rest@.len() == cap,
                weights@.len() == cap,
                forall|id: int|
                    0 <= id < cap ==> #[trigger] rest@[id] == remaining(
                        *graph,
                        picked,
                        ValueId(id as u32),
                    ),
                forall|id: int|
                    0 <= id < cap && rest@[id] ==> #[trigger] weights@[id] == weight(
                        *graph,
                        picked,
                        ValueId(id as u32),
                    ),
                best matches Some(v) ==> remaining(*graph, picked, v) && forall|i: int|
                    0 <= i < j && remaining(*graph, picked, #[trigger] values@[i]) ==> beats(
                        *graph,
                        picked,
                        v,
                        values@[i],
                    ),
                best is None ==> forall|i: int|
                    0 <= i < j ==> !remaining(*graph, picked, #[trigger] values@[i]),
            decreases n - j,
        {
            let u: ValueId = values[j];
            assert(graph.vals().contains(u));
            assert(rest@[u.0 as int] == remaining(*graph, picked, ValueId(u.0)));
            if rest[u.0 as usize] {
                match best {
                    Some(v) => {
                        assert(graph.vals().contains(v));
                        assert(rest@[v.0 as int] == remaining(*graph, picked, ValueId(v.0)));
                        let wu: u128 = weights[u.0 as usize];
                        let wv: u128 = weights[v.0 as usize];
                        if !(wv > wu || (wv == wu && v.0 >= u.0)) {
                            best = Some(u);
                        }
                    },
                    None => {
                        best = Some(u);
                    },
                }
            }
            j += 1;
        }
        proof {
            lemma_pick(*graph, picked);
            let p = choose|v: ValueId| is_pick(*graph, picked, v);
            assert(remaining(*graph, picked, p));
            let k = graph.vals().index_of(p);
            assert(values@[k] == p);
            assert(best is Some);
            assert forall|u: ValueId| #[trigger] remaining(*graph, picked, u) implies beats(
                *graph,
                picked,
                best->0,
                u,
            ) by {
                let k = graph.vals().index_of(u);
                assert(values@[k] == u);
            }
            lemma_pick_unique(*graph, picked, p, best->0);
        }
        if let Some(v) = best {
            rest.set(v.0 as usize, false);
            order.push(v);
            assert(order@ =~= search_order(*graph, order@.len()));
            assert(order@.drop_last() =~= picked);
            let ghost before = weights@;
            proof {
                assert forall|id: int| 0 <= id < cap implies #[trigger] rest@[id] == remaining(
                    *graph,
                    order@,
                    ValueId(id as u32),
                ) by {
                    let u = ValueId(id as u32);
                    assert(order@.contains(u) <==> picked.contains(u) || u == v) by {
                        if picked.contains(u) {
                            assert(order@[picked.index_of(u)] == u);
                        }
                        if u == v {
                            assert(order@[picked.len() as int] == u);
                        }
                        if order@.contains(u) && u != v {
                            assert(picked[order@.index_of(u)] == u);
                        }
                    }
                }
            }
            let near = graph.neighbors(v);
            let deg: usize = near.len();
            let mut j: usize = 0;
            while j < deg
                invariant
                    graph.wf(),
                    j <= deg,
                    deg == near@.len(),
                    cap <= u32::MAX + 1,
                    near@ == graph.adj(v),
                    picked.len() < n <= u32::MAX + 1,
                    ids_below(*graph, cap as int),
                    rest@.len() == cap,
                    weights@.len() == cap,
                    before.len() == cap,
                    forall|id: int|
                        0 <= id < cap ==> #[trigger] rest@[id] == remaining(
                            *graph,
                            order@,
                            ValueId(id as u32),
                        ),
                    forall|id: int|
                        0 <= id < cap ==> #[trigger] weights@[id] == before[id] + if rest@[id] {
                            times(near@.take(j as int), ValueId(id as u32))
                        } else {
                            0
                        },
                    forall|id: int|
                        0 <= id < cap ==> #[trigger] before[id] <= picked.len() * usize::MAX,
                decreases near@.len() - j,
            {
                let u: ValueId = near[j];
                proof {
                    assert(near@.contains(u));
                    assert(graph.adj(u).contains(v));
                    assert(graph.vals().contains(u));
                    assert(near@.take(j as int + 1) =~= near@.take(j as int).push(u));
                    assert forall|id: int| 0 <= id < cap implies #[trigger] times(
                        near@.take(j as int + 1),
                        ValueId(id as u32),
                    ) == times(near@.take(j as int), ValueId(id as u32)) + if id == u.0 {
                        1nat
                    } else {
                        0nat
                    } by {
                        lemma_times_push(near@.take(j as int), u, ValueId(id as u32));
                    }
                    lemma_times_push(near@.take(j as int), u, u);
                    assert(before[u.0 as int] <= picked.len() * usize::MAX);
                    assert(picked.len() * usize::MAX <= 0x1_0000_0000 * usize::MAX)
                        by (nonlinear_arith)
                        requires
                            picked.len() <= 0x1_0000_0000,
                    ;
                    assert(weights@[u.0 as int] <= 0x1_0000_0000 * usize::MAX + usize::MAX);
                }
                if rest[u.0 as usize] {
                    let w: u128 = weights[u.0 as usize];
                    weights.set(u.0 as usize, w + 1);
                }
                j += 1;
            }
            proof {
                assert(near@.take(near@.len() as int) =~= near@);
                assert((picked.len() + 1) * usize::MAX == picked.len() * usize::MAX + usize::MAX)
                    by (nonlinear_arith);
                assert forall|id: int| 0 <= id < cap implies #[trigger] weights@[id]
                    <= order@.len() * usize::MAX by {
                    lemma_times_push(near@, v, ValueId(id as u32));
                }
                assert forall|id: int| 0 <= id < cap && rest@[id] implies #[trigger] weights@[id]
                    == weight(*graph, order@, ValueId(id as u32)) by {
                    let u = ValueId(id as u32);
                    assert(remaining(*graph, order@, u));
                    assert(!picked.contains(u)) by {
                        if picked.contains(u) {
                            assert(order@[picked.index_of(u)] == u);
                        }
                    }
                    assert(remaining(*graph, picked, u));
                }
            }
        }
    }
    let mut back: Vec<ValueId> = Vec::new();
    let mut i: usize = n;
    while i > 0
        invariant
            i <= n,
            n == order@.len(),
            back@ == order@.skip(i as int).reverse(),
        decreases i,
    {
        i -= 1;
        let ghost was = order@.skip(i as int + 1);
        back.push(order[i]);
        assert(order@.skip(i as int).reverse() =~= was.reverse().push(order@[i as int]));
    }
    assert(order@.skip(0) =~= order@);
    back
}

/// Every value number is below `cap`.
pub open spec fn ids_below(g: InterferenceGraph, cap: int) -> bool {
    forall|v: ValueId| #[trigger] g.vals().contains(v) ==> v.0 < cap
}

/// One more than the greatest value number.
fn id_limit(graph: &InterferenceGraph) -> (cap: usize)
    requires
        graph.wf(),
    ensures
        ids_below(*graph, cap as int),
        cap <= u32::MAX + 1,
        graph.vals().len() <= u32::MAX + 1,
{
    let values = graph.values();
    let mut cap: usize = 0;
    let mut i: usize = 0;
    while i < values.len()
        invariant
            graph.wf(),
            values@ == graph.vals(),
            i <= values@.len(),
            cap <= u32::MAX + 1,
            forall|j: int| 0 <= j < i ==> (#[trigger] values@[j]).0 < cap,
        decreases values@.len() - i,
    {
        proof {
            graph.lemma_small_ids();
            assert(graph.vals().contains(values@[i as int]));
        }
        let end: usize = values[i].0 as usize + 1;
        if end > cap {
            cap = end;
        }
        i += 1;
    }
    proof {
        assert forall|v: ValueId| #[trigger] graph.vals().contains(v) implies v.0 < cap by {
            let j = graph.vals().index_of(v);
            assert(values@[j] == v);
        }
        let ids = graph.vals().map_values(|v: ValueId| v.0 as int);
        assert(ids.no_duplicates()) by {
            assert forall|a: int, b: int| 0 <= a < ids.len() && 0 <= b < ids.len() && a
                != b implies ids[a] != ids[b] by {
                assert(graph.vals()[a] != graph.vals()[b]);
            }
        }
        ids.unique_seq_to_set();
        let all = vstd::set_lib::set_int_range(0, u32::MAX + 1);
        vstd::set_lib::lemma_int_range(0, u32::MAX + 1);
        vstd::set_lib::lemma_len_subset(ids.to_set(), all);
    }
    cap
}

/// Greedy coloring with the registers from `scratch_base` on.
///
/// Values bound to a register keep it. The others, in reverse elimination order,
/// take the first register that no neighbor holds, or are spilled. On a chordal
/// graph this takes as few registers as any coloring: see
/// [`chordal_graphs_are_colored_optimally`](crate::backend::emit::regalloc::chordal::chordal_graphs_are_colored_optimally).
#[must_use]
pub fn color_graph(graph: &InterferenceGraph, num_regs: u8, scratch_base: u8) -> (r: RegAllocation)
    requires
        graph.wf(),
        scratch_base + num_regs <= 255,
        forall|v: ValueId| (#[trigger] graph.color(v)) matches Some(reg) ==> reg.0 - scratch_base
            < 255,
    ensures
        ({
            let c = coloring(*graph, scratch_base as int, scratch_base + num_regs);
            &&& r.assignment@ == c.assigned
            &&& r.spilled@ == c.spilled
            &&& r.rematerialize@ == Map::<u32, u32>::empty()
            &&& registers_used(c.assigned, scratch_base as int, r.num_regs as int)
        }),
{
    let ghost lo = scratch_base as int;
    let ghost hi = scratch_base + num_regs;
    let cap: usize = id_limit(graph);
    let values = graph.values();
    let mut dense: Vec<Option<Reg>> = Vec::new();
    while dense.len() < cap
        invariant
            dense@.len() <= cap <= u32::MAX + 1,
            forall|id: int|
                0 <= id < dense@.len() ==> #[trigger] dense@[id] == graph.color(
                    ValueId(id as u32),
                ),
        decreases cap - dense@.len(),
    {
        let bound = graph.precolor_of(ValueId(dense.len() as u32));
        dense.push(bound);
    }
    let order = simplicial_elimination_order(graph);
    let ghost ord = coloring_order(*graph);
    proof {
        search_picks_each_value_once(*graph, graph.vals().len());
        let so = search_order(*graph, graph.vals().len());
        assert forall|i: int| 0 <= i < ord.len() implies graph.vals().contains(#[trigger] ord[i]) by {
            assert(so.contains(ord[i]));
        }
    }
    let count: usize = order.len();
    let end: u8 = scratch_base + num_regs;
    let mut spilled: Vec<ValueId> = Vec::new();
    let mut k: usize = 0;
    assert forall|id: int| 0 <= id < cap implies #[trigger] dense@[id] == lookup(
        color_along(*graph, ord, 0, lo, hi).assigned,
        id as u32,
    ) by {}
    while k < count
        invariant
            graph.wf(),
            k <= count == order@.len(),
            order@ == ord.reverse(),
            ids_below(*graph, cap as int),
            cap <= u32::MAX + 1,
            dense@.len() == cap,
            end == hi,
            lo == scratch_base,
            lo <= hi,
            forall|i: int| 0 <= i < ord.len() ==> graph.vals().contains(#[trigger] ord[i]),
            spilled@ == color_along(*graph, ord, k as nat, lo, hi).spilled,
            forall|id: int|
                0 <= id < cap ==> #[trigger] dense@[id] == lookup(
                    color_along(*graph, ord, k as nat, lo, hi).assigned,
                    id as u32,
                ),
        decreases count - k,
    {
        let v: ValueId = order[count - 1 - k];
        assert(v == ord[k as int]);
        let ghost st = color_along(*graph, ord, k as nat, lo, hi);
        assert(graph.vals().contains(ord[k as int]));
        assert(dense@[v.0 as int] == lookup(st.assigned, v.0));
        if dense[v.0 as usize].is_none() {
            let color = free_color(graph, &dense, v, scratch_base, end, Ghost(st.assigned));
            match color {
                Some(c) => {
                    dense.set(v.0 as usize, Some(Reg(c)));
                },
                None => {
                    spilled.push(v);
                },
            }
        }
        k += 1;
        assert forall|id: int| 0 <= id < cap implies #[trigger] dense@[id] == lookup(
            color_along(*graph, ord, k as nat, lo, hi).assigned,
            id as u32,
        ) by {
            assert(ValueId(id as u32) == v <==> id == v.0);
        }
    }
    let ghost fin = coloring(*graph, lo, hi).assigned;
    proof {
        search_picks_each_value_once(*graph, graph.vals().len());
        lemma_assigned_values(*graph, ord, ord.len(), lo, hi);
        lemma_assigned_range(*graph, ord, ord.len(), lo, hi);
    }
    let mut assignment: BTreeMap<u32, Reg> = BTreeMap::new();
    let mut used: u8 = 0;
    let mut i: usize = 0;
    while i < values.len()
        invariant
            i <= values@.len(),
            values@ == graph.vals(),
            ids_below(*graph, cap as int),
            cap <= u32::MAX + 1,
            dense@.len() == cap,
            lo == scratch_base,
            forall|id: int| 0 <= id < cap ==> #[trigger] dense@[id] == lookup(fin, id as u32),
            forall|id: u32| #[trigger] fin.contains_key(id) ==> fin[id].0 - lo < 255,
            forall|id: u32| #[trigger]
                assignment@.contains_key(id) ==> fin.contains_key(id) && assignment@[id] == fin[id],
            forall|j: int|
                0 <= j < i && fin.contains_key((#[trigger] values@[j]).0)
                    ==> assignment@.contains_key(values@[j].0),
            registers_used(assignment@, lo, used as int),
        decreases values@.len() - i,
    {
        let v: ValueId = values[i];
        assert(graph.vals().contains(v));
        assert(dense@[v.0 as int] == lookup(fin, v.0));
        if let Some(reg) = dense[v.0 as usize] {
            let ghost was = assignment@;
            assignment.insert(v.0, reg);
            if reg.0 >= scratch_base && reg.0 - scratch_base + 1 > used {
                used = reg.0 - scratch_base + 1;
                assert(assignment@.contains_key(v.0) && assignment@[v.0].0 - lo + 1 == used);
            } else {
                proof {
                    if used > 0 {
                        let id = choose|id: u32| #[trigger]
                            was.contains_key(id) && was[id].0 - lo + 1 == used;
                        assert(assignment@.contains_key(id) && assignment@[id].0 - lo + 1 == used);
                    }
                }
            }
        }
        i += 1;
    }
    proof {
        assert forall|id: u32| #[trigger] fin.contains_key(id) implies assignment@.contains_key(
            id,
        ) by {
            let j = graph.vals().index_of(ValueId(id));
            assert(values@[j] == ValueId(id));
        }
        assert(assignment@ =~= fin);
    }
    RegAllocation { assignment, spilled, rematerialize: BTreeMap::new(), num_regs: used }
}

/// The register of a value, if it has one.
pub open spec fn lookup(assigned: Map<u32, Reg>, id: u32) -> Option<Reg> {
    if assigned.contains_key(id) {
        Some(assigned[id])
    } else {
        None
    }
}

/// The first register from `base` up to `end` that no neighbor of `v` holds.
fn free_color(
    graph: &InterferenceGraph,
    dense: &Vec<Option<Reg>>,
    v: ValueId,
    base: u8,
    end: u8,
    Ghost(assigned): Ghost<Map<u32, Reg>>,
) -> (r: Option<u8>)
    requires
        graph.wf(),
        base <= end,
        ids_below(*graph, dense@.len() as int),
        dense@.len() <= u32::MAX + 1,
        forall|id: int|
            0 <= id < dense@.len() ==> #[trigger] dense@[id] == lookup(assigned, id as u32),
    ensures
        r == first_free(*graph, assigned, v, base as int, end as int),
{
    let mut used: Vec<bool> = Vec::new();
    while used.len() < end as usize
        invariant
            used@.len() <= end,
            forall|c: int| 0 <= c < used@.len() ==> !used@[c],
        decreases end - used@.len(),
    {
        used.push(false);
    }
    let near = graph.neighbors(v);
    let mut j: usize = 0;
    while j < near.len()
        invariant
            graph.wf(),
            j <= near@.len(),
            near@ == graph.adj(v),
            used@.len() == end,
            ids_below(*graph, dense@.len() as int),
            dense@.len() <= u32::MAX + 1,
            forall|id: int|
                0 <= id < dense@.len() ==> #[trigger] dense@[id] == lookup(assigned, id as u32),
            forall|c: int|
                0 <= c < end && #[trigger] used@[c] ==> taken(*graph, assigned, v, c),
            forall|i: int|
                0 <= i < j && assigned.contains_key((#[trigger] near@[i]).0)
                    && assigned[near@[i].0].0 < end ==> used@[assigned[near@[i].0].0 as int],
        decreases near@.len() - j,
    {
        let u: ValueId = near[j];
        proof {
            assert(graph.adj(v).contains(u));
            assert(graph.adj(u).contains(v));
            assert(graph.vals().contains(u));
            assert(dense@[u.0 as int] == lookup(assigned, u.0));
        }
        if let Some(reg) = dense[u.0 as usize] {
            if reg.0 < end {
                assert(taken(*graph, assigned, v, reg.0 as int));
                used.set(reg.0 as usize, true);
            }
        }
        j += 1;
    }
    assert forall|c: int| 0 <= c < end implies #[trigger] used@[c] == taken(
        *graph,
        assigned,
        v,
        c,
    ) by {
        if taken(*graph, assigned, v, c) {
            let u = choose|u: ValueId| #[trigger]
                graph.adj(v).contains(u) && assigned.contains_key(u.0) && assigned[u.0].0 == c;
            let i = near@.index_of(u);
            assert(near@[i] == u);
        }
    }
    let mut c: u8 = base;
    while c < end
        invariant
            base <= c <= end,
            used@.len() == end,
            forall|c: int|
                0 <= c < end ==> #[trigger] used@[c] == taken(*graph, assigned, v, c),
            first_free(*graph, assigned, v, c as int, end as int) == first_free(
                *graph,
                assigned,
                v,
                base as int,
                end as int,
            ),
        decreases end - c,
    {
        assert(used@[c as int] == taken(*graph, assigned, v, c as int));
        if !used[c as usize] {
            return Some(c);
        }
        c += 1;
    }
    None
}

proof fn lemma_first_free(
    g: InterferenceGraph,
    assigned: Map<u32, Reg>,
    v: ValueId,
    c: int,
    hi: int,
)
    requires
        0 <= c,
        hi <= 256,
    ensures
        match first_free(g, assigned, v, c, hi) {
            Some(r) => c <= r < hi && !taken(g, assigned, v, r as int),
            None => forall|r: int| c <= r < hi ==> #[trigger] taken(g, assigned, v, r),
        },
    decreases hi - c,
{
    if c < hi && taken(g, assigned, v, c) {
        lemma_first_free(g, assigned, v, c + 1, hi);
    }
}

/// Only values of the graph are colored.
proof fn lemma_assigned_values(
    g: InterferenceGraph,
    order: Seq<ValueId>,
    k: nat,
    lo: int,
    hi: int,
)
    requires
        g.wf(),
        k <= order.len(),
        forall|i: int| 0 <= i < order.len() ==> g.vals().contains(#[trigger] order[i]),
    ensures
        forall|id: u32| #[trigger]
            color_along(g, order, k, lo, hi).assigned.contains_key(id) ==> g.vals().contains(
                ValueId(id),
            ),
    decreases k,
{
    let st = color_along(g, order, k, lo, hi).assigned;
    if k > 0 {
        lemma_assigned_values(g, order, (k - 1) as nat, lo, hi);
        assert(g.vals().contains(order[k - 1]));
        assert(ValueId(order[k - 1].0) == order[k - 1]);
        let was = color_along(g, order, (k - 1) as nat, lo, hi).assigned;
        assert forall|id: u32| #[trigger] st.contains_key(id) implies g.vals().contains(
            ValueId(id),
        ) by {
            assert(was.contains_key(id) || id == order[k - 1].0);
        }
    } else {
        assert forall|id: u32| #[trigger] st.contains_key(id) implies g.vals().contains(
            ValueId(id),
        ) by {
            assert(g.color(ValueId(id)) is Some);
        }
    }
}

/// Assigned registers are bound ones or from the range.
proof fn lemma_assigned_range(
    g: InterferenceGraph,
    order: Seq<ValueId>,
    k: nat,
    lo: int,
    hi: int,
)
    requires
        k <= order.len(),
        0 <= lo,
        hi <= 255,
        forall|v: ValueId| (#[trigger] g.color(v)) matches Some(reg) ==> reg.0 - lo < 255,
    ensures
        forall|id: u32| #[trigger]
            color_along(g, order, k, lo, hi).assigned.contains_key(id) ==> color_along(
                g,
                order,
                k,
                lo,
                hi,
            ).assigned[id].0 - lo < 255,
    decreases k,
{
    if k > 0 {
        lemma_assigned_range(g, order, (k - 1) as nat, lo, hi);
        lemma_first_free(
            g,
            color_along(g, order, (k - 1) as nat, lo, hi).assigned,
            order[k - 1],
            lo,
            hi,
        );
    }
}

/// Interfering values with the same register.
spec fn clash(g: InterferenceGraph, assigned: Map<u32, Reg>, a: ValueId, b: ValueId) -> bool {
    &&& g.adj(a).contains(b)
    &&& assigned.contains_key(a.0)
    &&& assigned.contains_key(b.0)
    &&& assigned[a.0] == assigned[b.0]
    &&& !(g.color(a) is Some && g.color(b) is Some)
}

proof fn lemma_no_clash(g: InterferenceGraph, order: Seq<ValueId>, k: nat, lo: int, hi: int)
    requires
        g.wf(),
        0 <= lo,
        hi <= 256,
        k <= order.len(),
    ensures
        forall|a: ValueId, b: ValueId|
            !#[trigger] clash(g, color_along(g, order, k, lo, hi).assigned, a, b),
        forall|v: ValueId| (#[trigger] g.color(v)) matches Some(r) ==> color_along(
            g,
            order,
            k,
            lo,
            hi,
        ).assigned.contains_key(v.0) && color_along(g, order, k, lo, hi).assigned[v.0] == r,
    decreases k,
{
    let st = color_along(g, order, k, lo, hi).assigned;
    if k == 0 {
        assert forall|v: ValueId| (#[trigger] g.color(v)) is Some implies st.contains_key(v.0)
            && st[v.0] == g.color(v)->0 by {
            assert(ValueId(v.0) == v);
        }
        assert forall|a: ValueId, b: ValueId| !#[trigger] clash(g, st, a, b) by {
            assert(ValueId(a.0) == a && ValueId(b.0) == b);
        }
    } else {
        lemma_no_clash(g, order, (k - 1) as nat, lo, hi);
        let was = color_along(g, order, (k - 1) as nat, lo, hi).assigned;
        let v = order[k - 1];
        lemma_first_free(g, was, v, lo, hi);
        assert forall|a: ValueId, b: ValueId| !#[trigger] clash(g, st, a, b) by {
            assert(!clash(g, was, a, b));
            if clash(g, st, a, b) {
                assert(g.adj(b).contains(a));
                assert(ValueId(a.0) == a && ValueId(b.0) == b && ValueId(v.0) == v);
                if a == v && !was.contains_key(v.0) {
                    assert(g.adj(v).contains(b) && was.contains_key(b.0));
                } else if b == v && !was.contains_key(v.0) {
                    assert(g.adj(v).contains(a) && was.contains_key(a.0));
                }
            }
        }
    }
}

/// Interfering values get different registers, unless both were bound
/// beforehand; bound values keep their register.
pub proof fn interfering_values_differ(g: InterferenceGraph, lo: int, hi: int)
    requires
        g.wf(),
        0 <= lo,
        hi <= 256,
    ensures
        forall|a: ValueId, b: ValueId| #[trigger]
            g.adj(a).contains(b) && coloring(g, lo, hi).assigned.contains_key(a.0) && coloring(
                g,
                lo,
                hi,
            ).assigned.contains_key(b.0) && !(g.color(a) is Some && g.color(b) is Some)
                ==> coloring(g, lo, hi).assigned[a.0] != coloring(g, lo, hi).assigned[b.0],
        forall|v: ValueId| (#[trigger] g.color(v)) matches Some(r) ==> coloring(
            g,
            lo,
            hi,
        ).assigned.contains_key(v.0) && coloring(g, lo, hi).assigned[v.0] == r,
{
    search_picks_each_value_once(g, g.vals().len());
    lemma_no_clash(g, coloring_order(g), g.vals().len(), lo, hi);
    let st = coloring(g, lo, hi).assigned;
    assert forall|a: ValueId, b: ValueId| #[trigger]
        g.adj(a).contains(b) && st.contains_key(a.0) && st.contains_key(b.0) && !(g.color(
            a,
        ) is Some && g.color(b) is Some) implies st[a.0] != st[b.0] by {
        assert(!clash(g, st, a, b));
    }
}

proof fn lemma_coverage(g: InterferenceGraph, order: Seq<ValueId>, k: nat, lo: int, hi: int)
    requires
        g.wf(),
        0 <= lo,
        hi <= 256,
        k <= order.len(),
        order.no_duplicates(),
    ensures
        ({
            let st = color_along(g, order, k, lo, hi);
            &&& forall|i: int|
                0 <= i < k ==> st.assigned.contains_key((#[trigger] order[i]).0)
                    || st.spilled.contains(order[i])
            &&& forall|v: ValueId| #[trigger]
                st.spilled.contains(v) ==> !st.assigned.contains_key(v.0) && exists|i: int|
                    0 <= i < k && order[i] == v
            &&& forall|v: ValueId, c: int|
                st.spilled.contains(v) && lo <= c < hi ==> #[trigger] taken(g, st.assigned, v, c)
        }),
    decreases k,
{
    let st = color_along(g, order, k, lo, hi);
    if k > 0 {
        lemma_coverage(g, order, (k - 1) as nat, lo, hi);
        let was = color_along(g, order, (k - 1) as nat, lo, hi);
        let v = order[k - 1];
        lemma_first_free(g, was.assigned, v, lo, hi);
        assert forall|u: ValueId| #[trigger] st.spilled.contains(u) implies was.spilled.contains(u)
            || (u == v && !was.assigned.contains_key(v.0) && first_free(
            g,
            was.assigned,
            v,
            lo,
            hi,
        ) is None) by {
            let i = st.spilled.index_of(u);
            if i < was.spilled.len() {
                assert(was.spilled[i] == u);
            }
        }
        assert forall|u: ValueId| #[trigger] was.spilled.contains(u) implies st.spilled.contains(
            u,
        ) by {
            let i = was.spilled.index_of(u);
            assert(st.spilled[i] == u);
        }
        assert forall|u: ValueId| #[trigger] st.spilled.contains(u) implies
            !st.assigned.contains_key(u.0) && exists|i: int| 0 <= i < k && order[i] == u by {
            if was.spilled.contains(u) {
                let i = choose|i: int| 0 <= i < k - 1 && order[i] == u;
                assert(order[i] == u);
                assert(u != v);
                assert(ValueId(u.0) == u && ValueId(v.0) == v);
            } else {
                assert(order[k - 1] == u);
            }
        }
        assert forall|i: int| 0 <= i < k implies st.assigned.contains_key((#[trigger] order[i]).0)
            || st.spilled.contains(order[i]) by {
            if i < k - 1 {
                assert(was.assigned.contains_key(order[i].0) || was.spilled.contains(order[i]));
            } else if st.spilled.len() > was.spilled.len() {
                assert(st.spilled[was.spilled.len() as int] == v);
            }
        }
        assert forall|u: ValueId, c: int|
            st.spilled.contains(u) && lo <= c < hi implies #[trigger] taken(
            g,
            st.assigned,
            u,
            c,
        ) by {
            if was.spilled.contains(u) {
                assert(taken(g, was.assigned, u, c));
                let w = choose|w: ValueId| #[trigger]
                    g.adj(u).contains(w) && was.assigned.contains_key(w.0) && was.assigned[w.0].0
                        == c;
                assert(g.adj(u).contains(w) && st.assigned.contains_key(w.0)
                    && st.assigned[w.0].0 == c);
            } else {
                assert(taken(g, was.assigned, v, c));
            }
        }
    }
}

/// Every value is either colored or spilled, and it is spilled only if its
/// neighbors hold every register.
pub proof fn every_value_is_placed(g: InterferenceGraph, lo: int, hi: int)
    requires
        g.wf(),
        0 <= lo,
        hi <= 256,
    ensures
        forall|v: ValueId| #[trigger]
            g.vals().contains(v) ==> coloring(g, lo, hi).assigned.contains_key(v.0) != coloring(
                g,
                lo,
                hi,
            ).spilled.contains(v),
        forall|v: ValueId, c: int|
            coloring(g, lo, hi).spilled.contains(v) && lo <= c < hi ==> #[trigger] taken(
                g,
                coloring(g, lo, hi).assigned,
                v,
                c,
            ),
{
    let n = g.vals().len();
    search_picks_each_value_once(g, n);
    let so = search_order(g, n);
    lemma_coverage(g, so, n, lo, hi);
    assert forall|v: ValueId| #[trigger] g.vals().contains(v) implies coloring(
        g,
        lo,
        hi,
    ).assigned.contains_key(v.0) != coloring(g, lo, hi).spilled.contains(v) by {
        assert(so.contains(v));
        let i = so.index_of(v);
        assert(so[i] == v);
    }
}

} // verus!
