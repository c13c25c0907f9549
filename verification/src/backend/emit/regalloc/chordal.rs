//! Chordal graphs take no more registers than they have to.

use crate::backend::emit::regalloc::coloring::{
    beats, color_along, coloring, first_free, is_pick, lemma_pick, remaining,
    search_order, search_picks_each_value_once, taken, times, weight,
};
use crate::backend::emit::regalloc::interference::{
    backward, built_from, in_order, interferes, lemma_live_is_used, live_after, live_limit, meets,
    overlapping_live_ranges_interfere, used_after,
};
use crate::backend::emit::regalloc::{InterferenceGraph, ValueId};
use crate::backend::emit::Reg;
use vstd::prelude::*;

verus! {

/// `a` and `b` interfere.
pub open spec fn near(g: InterferenceGraph, a: ValueId, b: ValueId) -> bool {
    g.adj(a).contains(b)
}

/// No edge is listed twice.
pub open spec fn simple(g: InterferenceGraph) -> bool {
    forall|v: ValueId| (#[trigger] g.adj(v)).no_duplicates()
}

/// Four or more values in a ring, where each interferes with the next, the last with
/// the first, and no others with each other.
pub open spec fn chordless_ring(g: InterferenceGraph, c: Seq<ValueId>) -> bool {
    &&& c.len() >= 4
    &&& c.no_duplicates()
    &&& forall|i: int, j: int|
        0 <= i < j < c.len() ==> (#[trigger] near(g, c[i], c[j]) <==> (j == i + 1 || (i == 0 && j
            == c.len() - 1)))
}

/// Every ring of four or more values has a chord.
pub open spec fn chordal(g: InterferenceGraph) -> bool {
    forall|c: Seq<ValueId>| !#[trigger] chordless_ring(g, c)
}

/// A path on which only neighbors interfere, longer than an edge.
spec fn bare_path(g: InterferenceGraph, p: Seq<ValueId>) -> bool {
    &&& p.len() >= 3
    &&& p.no_duplicates()
    &&& forall|i: int, j: int|
        0 <= i < j < p.len() ==> (#[trigger] near(g, p[i], p[j]) <==> j == i + 1)
}

proof fn lemma_times_once(s: Seq<ValueId>, v: ValueId)
    requires
        s.no_duplicates(),
    ensures
        times(s, v) == if s.contains(v) {
            1nat
        } else {
            0nat
        },
    decreases s.len(),
{
    if s.len() > 0 {
        let front = s.drop_last();
        lemma_times_once(front, v);
        if s.last() == v {
            assert(s[s.len() - 1] == v);
            assert(!front.contains(v)) by {
                if front.contains(v) {
                    assert(s[front.index_of(v)] == v);
                }
            }
        } else if s.contains(v) {
            assert(front[s.index_of(v)] == v);
        } else if front.contains(v) {
            assert(s[front.index_of(v)] == v);
        }
    }
}

/// If whatever is near `x` is near `y` too, `y` weighs at least as much as `x`, and
/// more if value `a` is near `y` alone.
proof fn lemma_weights(
    g: InterferenceGraph,
    picked: Seq<ValueId>,
    x: ValueId,
    y: ValueId,
    a: int,
)
    requires
        simple(g),
        forall|d: int|
            0 <= d < picked.len() && #[trigger] near(g, picked[d], x) ==> near(g, picked[d], y),
    ensures
        weight(g, picked, x) <= weight(g, picked, y),
        0 <= a < picked.len() && near(g, picked[a], y) && !near(g, picked[a], x) ==> weight(
            g,
            picked,
            x,
        ) < weight(g, picked, y),
    decreases picked.len(),
{
    if picked.len() > 0 {
        let front = picked.drop_last();
        assert forall|d: int| 0 <= d < front.len() && #[trigger] near(g, front[d], x) implies near(
            g,
            front[d],
            y,
        ) by {
            assert(near(g, picked[d], x));
        }
        lemma_weights(g, front, x, y, a);
        let last = picked.last();
        lemma_times_once(g.adj(last), x);
        lemma_times_once(g.adj(last), y);
        assert(near(g, picked[picked.len() - 1], x) ==> near(g, picked[picked.len() - 1], y));
        if a < front.len() && 0 <= a {
            assert(front[a] == picked[a]);
        }
    }
}

proof fn lemma_search_prefix(g: InterferenceGraph, k: nat, n: nat)
    requires
        g.wf(),
        k <= n <= g.vals().len(),
    ensures
        search_order(g, n).take(k as int) == search_order(g, k),
    decreases n,
{
    search_picks_each_value_once(g, n);
    search_picks_each_value_once(g, k);
    if k < n {
        lemma_search_prefix(g, k, (n - 1) as nat);
        search_picks_each_value_once(g, (n - 1) as nat);
        assert(search_order(g, n).take(k as int) =~= search_order(g, (n - 1) as nat).take(
            k as int,
        ));
    } else {
        assert(search_order(g, n).take(k as int) =~= search_order(g, k));
    }
}

/// The search order of all values.
spec fn found(g: InterferenceGraph) -> Seq<ValueId> {
    search_order(g, g.vals().len())
}

/// Value `b` is picked before `c`, though an earlier value is near `c` and not near
/// `b`: then another is near `b` and not near `c`.
proof fn lemma_made_up_for(g: InterferenceGraph, a: int, b: int, c: int) -> (d: int)
    requires
        g.wf(),
        simple(g),
        0 <= a < b < c < g.vals().len(),
        near(g, found(g)[a], found(g)[c]),
        !near(g, found(g)[a], found(g)[b]),
    ensures
        0 <= d < b,
        near(g, found(g)[d], found(g)[b]),
        !near(g, found(g)[d], found(g)[c]),
{
    let n = g.vals().len();
    let all = found(g);
    let picked = search_order(g, b as nat);
    let x = all[b];
    let y = all[c];
    search_picks_each_value_once(g, n);
    search_picks_each_value_once(g, b as nat);
    lemma_search_prefix(g, b as nat, n);
    lemma_search_prefix(g, (b + 1) as nat, n);
    search_picks_each_value_once(g, (b + 1) as nat);
    assert(all.take(b + 1)[b] == x);
    lemma_pick(g, picked);
    assert(search_order(g, (b + 1) as nat)[b] == x);
    assert(is_pick(g, picked, x));
    assert(!picked.contains(y)) by {
        if picked.contains(y) {
            let i = picked.index_of(y);
            assert(all.take(b)[i] == y);
            assert(all[i] == all[c]);
        }
    }
    assert(all.contains(y));
    assert(remaining(g, picked, y));
    assert(beats(g, picked, x, y));
    assert forall|d: int| 0 <= d < b implies #[trigger] picked[d] == all[d] by {
        assert(all.take(b)[d] == all[d]);
    }
    if forall|d: int|
        0 <= d < b && #[trigger] near(g, picked[d], x) ==> near(g, picked[d], y) {
        lemma_weights(g, picked, x, y, a);
        assert(picked[a] == all[a]);
        assert(false);
    }
    let d = choose|d: int|
        0 <= d < b && #[trigger] near(g, picked[d], x) && !near(g, picked[d], y);
    assert(picked[d] == all[d]);
    d
}

/// The first value of the path, from the `i`-th on, that is near `x`.
proof fn lemma_first_near(g: InterferenceGraph, p: Seq<ValueId>, x: ValueId, i: int) -> (j: int)
    requires
        0 <= i < p.len(),
        near(g, p.last(), x),
    ensures
        i <= j < p.len(),
        near(g, p[j], x),
        forall|k: int| i <= k < j ==> !near(g, #[trigger] p[k], x),
    decreases p.len() - i,
{
    if near(g, p[i], x) || i == p.len() - 1 {
        i
    } else {
        lemma_first_near(g, p, x, i + 1)
    }
}

/// Where a value stands in the search order.
spec fn stands(g: InterferenceGraph, v: ValueId) -> int {
    found(g).index_of(v)
}

/// A bare path from a value to a later one over values that are later still.
spec fn arch(g: InterferenceGraph, p: Seq<ValueId>) -> bool {
    &&& bare_path(g, p)
    &&& forall|i: int| 0 <= i < p.len() ==> found(g).contains(#[trigger] p[i])
    &&& stands(g, p[0]) < stands(g, p.last())
    &&& forall|i: int| 0 < i < p.len() - 1 ==> stands(g, p.last()) < stands(g, #[trigger] p[i])
}

/// A chordal graph has no such path.
proof fn lemma_no_arch(g: InterferenceGraph, p: Seq<ValueId>)
    requires
        g.wf(),
        simple(g),
        chordal(g),
    ensures
        !arch(g, p),
    decreases stands(g, p.last()),
{
    if arch(g, p) {
        lemma_lower_arch(g, p);
        let q = choose|q: Seq<ValueId>| #[trigger]
            arch(g, q) && stands(g, q.last()) < stands(g, p.last());
        search_picks_each_value_once(g, g.vals().len());
        assert(found(g).contains(q[q.len() - 1]));
        lemma_no_arch(g, q);
    }
}

/// Such a path leads to another that ends earlier.
proof fn lemma_lower_arch(g: InterferenceGraph, p: Seq<ValueId>)
    requires
        g.wf(),
        simple(g),
        chordal(g),
        arch(g, p),
    ensures
        exists|q: Seq<ValueId>| #[trigger] arch(g, q) && stands(g, q.last()) < stands(g, p.last()),
{
    let all = found(g);
    let end = p.len() - 1;
    search_picks_each_value_once(g, g.vals().len());
    let a = stands(g, p[0]);
    let b = stands(g, p[end]);
    let c = stands(g, p[1]);
    assert(all[a] == p[0] && all[b] == p[end] && all[c] == p[1]);
    assert(near(g, p[0], p[1]));
    assert(!near(g, p[0], p[end]));
    let d = lemma_made_up_for(g, a, b, c);
    let x = all[d];
    assert(g.adj(p[end]).contains(x));
    assert(!near(g, p[1], x)) by {
        if near(g, p[1], x) {
            assert(g.adj(x).contains(p[1]));
        }
    }
    let j = lemma_first_near(g, p, x, 1);
    assert(j >= 2);
    let q = p.take(j + 1).push(x);
    assert forall|i: int| 0 <= i <= j implies #[trigger] q[i] == p[i] by {}
    assert(q[j + 1] == x);
    assert(stands(g, x) == d) by {
        assert(all.contains(x));
        assert(all[stands(g, x)] == all[d]);
    }
    assert forall|i: int| 0 <= i < p.len() implies p[i] != x by {
        if p[i] == x {
            assert(stands(g, p[i]) == d);
            if i == 0 {
                assert(near(g, p[0], p[end]));
            }
        }
    }
    assert(q.no_duplicates()) by {
        assert forall|i: int, k: int| 0 <= i < q.len() && 0 <= k < q.len() && i != k implies q[i]
            != q[k] by {
            if i <= j && k <= j {
                assert(p[i] != p[k]);
            }
        }
    }
    assert forall|i: int, k: int| 0 <= i < k < q.len() && i > 0 implies (#[trigger] near(
        g,
        q[i],
        q[k],
    ) <==> k == i + 1) by {
        if k <= j {
            assert(near(g, p[i], p[k]) <==> k == i + 1);
        } else if i < j {
            assert(!near(g, p[i], x));
        }
    }
    assert forall|k: int| 0 < k <= j implies (#[trigger] near(g, q[0], q[k]) <==> k == 1) by {
        assert(near(g, p[0], p[k]) <==> k == 1);
    }
    if near(g, p[0], x) {
        assert forall|i: int, k: int| 0 <= i < k < q.len() implies (#[trigger] near(
            g,
            q[i],
            q[k],
        ) <==> (k == i + 1 || (i == 0 && k == q.len() - 1))) by {}
        assert(chordless_ring(g, q));
    } else {
        assert forall|i: int, k: int| 0 <= i < k < q.len() implies (#[trigger] near(
            g,
            q[i],
            q[k],
        ) <==> k == i + 1) by {}
        assert(bare_path(g, q));
        assert forall|i: int| 0 < i < q.len() - 1 implies a < stands(g, #[trigger] q[i]) && d
            < stands(g, q[i]) by {
            assert(q[i] == p[i]);
        }
        assert forall|i: int| 0 <= i < q.len() implies all.contains(#[trigger] q[i]) by {
            if i <= j {
                assert(all.contains(p[i]));
            }
        }
        assert(a != d) by {
            if a == d {
                assert(p[0] == x);
            }
        }
        if a < d {
            assert(arch(g, q));
        } else {
            let r = q.reverse();
            let m = q.len();
            assert forall|i: int| 0 <= i < m implies #[trigger] r[i] == q[m - 1 - i] by {}
            assert(r.no_duplicates()) by {
                assert forall|i: int, k: int| 0 <= i < m && 0 <= k < m && i != k implies r[i]
                    != r[k] by {
                    assert(q[m - 1 - i] != q[m - 1 - k]);
                }
            }
            assert forall|i: int, k: int| 0 <= i < k < m implies (#[trigger] near(g, r[i], r[k])
                <==> k == i + 1) by {
                assert(near(g, q[m - 1 - k], q[m - 1 - i]) <==> k == i + 1);
                assert(g.adj(r[i]).contains(r[k]) <==> g.adj(r[k]).contains(r[i]));
            }
            assert forall|i: int| 0 <= i < m implies all.contains(#[trigger] r[i]) by {
                assert(all.contains(q[m - 1 - i]));
            }
            assert forall|i: int| 0 < i < m - 1 implies stands(g, r.last()) < stands(
                g,
                #[trigger] r[i],
            ) by {
                assert(a < stands(g, q[m - 1 - i]));
            }
            assert(arch(g, r));
        }
    }
}

/// On a chordal graph the search finds a perfect elimination order, last first: those
/// found before a value that interfere with it interfere with each other.
pub proof fn searches_eliminate_perfectly(g: InterferenceGraph, i: int, j: int, k: int)
    requires
        g.wf(),
        simple(g),
        chordal(g),
        0 <= i < j < k < g.vals().len(),
        near(g, search_order(g, g.vals().len())[i], search_order(g, g.vals().len())[k]),
        near(g, search_order(g, g.vals().len())[j], search_order(g, g.vals().len())[k]),
    ensures
        near(g, search_order(g, g.vals().len())[i], search_order(g, g.vals().len())[j]),
{
    let all = found(g);
    search_picks_each_value_once(g, g.vals().len());
    if !near(g, all[i], all[j]) {
        let p = seq![all[i], all[k], all[j]];
        assert forall|s: int| 0 <= s < all.len() implies stands(g, #[trigger] all[s]) == s by {
            assert(all.contains(all[s]));
            assert(all[stands(g, all[s])] == all[s]);
        }
        assert(g.adj(all[k]).contains(all[j]));
        assert(all[i] != all[j] && all[i] != all[k] && all[j] != all[k]);
        assert(p[0] == all[i] && p[1] == all[k] && p[2] == all[j]);
        assert forall|s: int, t: int| 0 <= s < t < p.len() implies (#[trigger] near(
            g,
            p[s],
            p[t],
        ) <==> t == s + 1) by {
            assert(s == 0 && (t == 1 || t == 2) || s == 1 && t == 2);
        }
        assert(bare_path(g, p));
        lemma_no_arch(g, p);
    }
}

proof fn lemma_below_taken(
    g: InterferenceGraph,
    assigned: Map<u32, Reg>,
    v: ValueId,
    c: int,
    hi: int,
    r: int,
)
    requires
        0 <= c <= r,
        hi <= 256,
        match first_free(g, assigned, v, c, hi) {
            Some(f) => r < f,
            None => r < hi,
        },
    ensures
        taken(g, assigned, v, r),
    decreases r - c,
{
    if c < r {
        lemma_below_taken(g, assigned, v, c + 1, hi, r);
    }
}

/// A value not bound beforehand has its register from one of the first `k` steps.
proof fn lemma_colored_before(
    g: InterferenceGraph,
    order: Seq<ValueId>,
    k: nat,
    lo: int,
    hi: int,
    u: ValueId,
) -> (i: int)
    requires
        k <= order.len(),
        g.color(u) is None,
        color_along(g, order, k, lo, hi).assigned.contains_key(u.0),
    ensures
        0 <= i < k,
        order[i] == u,
    decreases k,
{
    assert(ValueId(u.0) == u);
    if color_along(g, order, (k - 1) as nat, lo, hi).assigned.contains_key(u.0) && k > 0 {
        lemma_colored_before(g, order, (k - 1) as nat, lo, hi, u)
    } else {
        k - 1
    }
}

/// A coloring of the values that are not bound beforehand with `m` colors.
pub open spec fn proper(g: InterferenceGraph, f: spec_fn(ValueId) -> int, m: int) -> bool {
    &&& forall|v: ValueId| #[trigger]
        g.vals().contains(v) && g.color(v) is None ==> 0 <= f(v) < m
    &&& forall|a: ValueId, b: ValueId| #[trigger]
        near(g, a, b) && g.color(a) is None && g.color(b) is None ==> f(a) != f(b)
}

/// Values that all interfere take as many colors as they are.
proof fn lemma_clique(g: InterferenceGraph, q: Seq<ValueId>, f: spec_fn(ValueId) -> int, m: int)
    requires
        proper(g, f, m),
        0 <= m,
        forall|i: int|
            0 <= i < q.len() ==> g.vals().contains(#[trigger] q[i]) && g.color(q[i]) is None,
        forall|i: int, j: int| 0 <= i < j < q.len() ==> #[trigger] near(g, q[i], q[j]),
    ensures
        q.len() <= m,
{
    let colors = q.map_values(|v: ValueId| f(v));
    assert(colors.no_duplicates()) by {
        assert forall|i: int, j: int|
            0 <= i < colors.len() && 0 <= j < colors.len() && i != j implies colors[i]
            != colors[j] by {
            if i < j {
                assert(near(g, q[i], q[j]));
            } else {
                assert(near(g, q[j], q[i]));
            }
        }
    }
    colors.unique_seq_to_set();
    let range = vstd::set_lib::set_int_range(0, m);
    vstd::set_lib::lemma_int_range(0, m);
    assert forall|x: int| #[trigger] colors.to_set().contains(x) implies range.contains(x) by {
        let i = colors.index_of(x);
        assert(g.vals().contains(q[i]));
    }
    vstd::set_lib::lemma_len_subset(colors.to_set(), range);
}

/// The neighbor of `v` that holds register `c`.
spec fn holder(
    g: InterferenceGraph,
    assigned: Map<u32, Reg>,
    v: ValueId,
    c: int,
) -> ValueId {
    choose|u: ValueId| #[trigger]
        g.adj(v).contains(u) && assigned.contains_key(u.0) && assigned[u.0].0 == c
}

/// A value whose neighbors hold the first `n` registers, with fewer than `n + 1`
/// colors needed.
proof fn lemma_step_fits(
    g: InterferenceGraph,
    k: nat,
    lo: int,
    hi: int,
    f: spec_fn(ValueId) -> int,
    m: int,
    n: int,
)
    requires
        g.wf(),
        simple(g),
        chordal(g),
        0 <= lo <= hi <= 256,
        0 <= m,
        proper(g, f, m),
        forall|v: ValueId| (#[trigger] g.color(v)) matches Some(r) ==> !(lo <= r.0 < hi),
        0 < k <= g.vals().len(),
        g.color(search_order(g, g.vals().len())[k - 1]) is None,
        0 <= n <= hi - lo,
        forall|c: int|
            lo <= c < lo + n ==> #[trigger] taken(
                g,
                color_along(
                    g,
                    search_order(g, g.vals().len()),
                    (k - 1) as nat,
                    lo,
                    hi,
                ).assigned,
                search_order(g, g.vals().len())[k - 1],
                c,
            ),
    ensures
        n < m,
{
    let order = search_order(g, g.vals().len());
    let was = color_along(g, order, (k - 1) as nat, lo, hi).assigned;
    let v = order[k - 1];
    search_picks_each_value_once(g, g.vals().len());
    lemma_bound_kept(g, order, (k - 1) as nat, lo, hi);
    let hold = Seq::new(n as nat, |r: int| holder(g, was, v, lo + r));
    assert forall|r: int| 0 <= r < n implies near(g, v, #[trigger] hold[r]) && was.contains_key(
        hold[r].0,
    ) && was[hold[r].0].0 == lo + r && g.color(hold[r]) is None by {
        assert(taken(g, was, v, lo + r));
        let u = hold[r];
        assert(g.adj(v).contains(u) && was.contains_key(u.0) && was[u.0].0 == lo + r);
        if g.color(u) is Some {
            assert(was[u.0] == g.color(u)->0);
        }
    }
    let q = hold.push(v);
    assert(order.contains(v));
    assert forall|i: int| 0 <= i < q.len() implies g.vals().contains(#[trigger] q[i]) && g.color(
        q[i],
    ) is None by {
        if i < n {
            assert(near(g, v, hold[i]));
            assert(g.adj(hold[i]).contains(v));
        }
    }
    assert forall|i: int, j: int| 0 <= i < j < q.len() implies #[trigger] near(g, q[i], q[j]) by {
        assert(near(g, v, hold[i]));
        assert(g.adj(hold[i]).contains(v));
        if j < n {
            assert(near(g, v, hold[j]));
            assert(g.adj(hold[j]).contains(v));
            let s = lemma_colored_before(g, order, (k - 1) as nat, lo, hi, hold[i]);
            let t = lemma_colored_before(g, order, (k - 1) as nat, lo, hi, hold[j]);
            assert(was[hold[i].0].0 != was[hold[j].0].0);
            assert(s != t);
            if s < t {
                searches_eliminate_perfectly(g, s, t, k - 1);
            } else {
                searches_eliminate_perfectly(g, t, s, k - 1);
                assert(g.adj(hold[j]).contains(hold[i]));
                assert(g.adj(hold[i]).contains(hold[j]));
            }
        }
    }
    lemma_clique(g, q, f, m);
}

/// Bound values keep their register.
proof fn lemma_bound_kept(
    g: InterferenceGraph,
    order: Seq<ValueId>,
    k: nat,
    lo: int,
    hi: int,
)
    requires
        k <= order.len(),
    ensures
        forall|v: ValueId| (#[trigger] g.color(v)) matches Some(r) ==> color_along(
            g,
            order,
            k,
            lo,
            hi,
        ).assigned.contains_key(v.0) && color_along(g, order, k, lo, hi).assigned[v.0] == r,
    decreases k,
{
    if k > 0 {
        lemma_bound_kept(g, order, (k - 1) as nat, lo, hi);
    } else {
        assert forall|v: ValueId| (#[trigger] g.color(v)) is Some implies color_along(
            g,
            order,
            k,
            lo,
            hi,
        ).assigned.contains_key(v.0) && color_along(g, order, k, lo, hi).assigned[v.0] == g.color(
            v,
        )->0 by {
            assert(ValueId(v.0) == v);
        }
    }
}

proof fn lemma_colored_within(
    g: InterferenceGraph,
    k: nat,
    lo: int,
    hi: int,
    f: spec_fn(ValueId) -> int,
    m: int,
)
    requires
        g.wf(),
        simple(g),
        chordal(g),
        0 <= lo <= hi <= 256,
        0 <= m,
        proper(g, f, m),
        forall|v: ValueId| (#[trigger] g.color(v)) matches Some(r) ==> !(lo <= r.0 < hi),
        k <= g.vals().len(),
    ensures
        ({
            let st = color_along(g, search_order(g, g.vals().len()), k, lo, hi);
            &&& forall|v: ValueId|
                (#[trigger] g.color(v)) is None && st.assigned.contains_key(v.0)
                    ==> lo <= st.assigned[v.0].0 < lo + m
            &&& m <= hi - lo ==> st.spilled.len() == 0
        }),
    decreases k,
{
    let order = search_order(g, g.vals().len());
    let st = color_along(g, order, k, lo, hi);
    search_picks_each_value_once(g, g.vals().len());
    if k == 0 {
        assert forall|v: ValueId|
            (#[trigger] g.color(v)) is None && st.assigned.contains_key(v.0) implies lo
            <= st.assigned[v.0].0 < lo + m by {
            assert(ValueId(v.0) == v);
        }
    } else {
        lemma_colored_within(g, (k - 1) as nat, lo, hi, f, m);
        let was = color_along(g, order, (k - 1) as nat, lo, hi);
        let v = order[k - 1];
        assert(ValueId(v.0) == v);
        if !was.assigned.contains_key(v.0) {
            lemma_bound_kept(g, order, (k - 1) as nat, lo, hi);
            assert(g.color(v) is None);
            let c = first_free(g, was.assigned, v, lo, hi);
            lemma_free_range(g, was.assigned, v, lo, hi);
            let n: int = match c {
                Some(r) => r - lo,
                None => hi - lo,
            };
            assert forall|r: int| lo <= r < lo + n implies #[trigger] taken(
                g,
                was.assigned,
                v,
                r,
            ) by {
                lemma_below_taken(g, was.assigned, v, lo, hi, r);
            }
            lemma_step_fits(g, k, lo, hi, f, m, n);
            assert forall|u: ValueId|
                (#[trigger] g.color(u)) is None && st.assigned.contains_key(u.0) implies lo
                <= st.assigned[u.0].0 < lo + m by {
                assert(ValueId(u.0) == u);
                if u != v {
                    assert(was.assigned.contains_key(u.0));
                }
            }
        }
    }
}

proof fn lemma_free_range(
    g: InterferenceGraph,
    assigned: Map<u32, Reg>,
    v: ValueId,
    c: int,
    hi: int,
)
    requires
        0 <= c,
        hi <= 256,
    ensures
        first_free(g, assigned, v, c, hi) matches Some(r) ==> c <= r < hi,
    decreases hi - c,
{
    if c < hi && taken(g, assigned, v, c) {
        lemma_free_range(g, assigned, v, c + 1, hi);
    }
}

/// A chordal graph is colored with as few registers as any coloring takes: if `m`
/// colors suffice, no value gets a register beyond the first `m`, and nothing is
/// spilled if there are as many. Values bound beforehand are outside the range.
pub proof fn chordal_graphs_are_colored_optimally(
    g: InterferenceGraph,
    lo: int,
    hi: int,
    f: spec_fn(ValueId) -> int,
    m: int,
)
    requires
        g.wf(),
        simple(g),
        chordal(g),
        0 <= lo <= hi <= 256,
        0 <= m,
        proper(g, f, m),
        forall|v: ValueId| (#[trigger] g.color(v)) matches Some(r) ==> !(lo <= r.0 < hi),
    ensures
        forall|v: ValueId|
            (#[trigger] g.color(v)) is None && coloring(g, lo, hi).assigned.contains_key(v.0) ==> lo
                <= coloring(g, lo, hi).assigned[v.0].0 < lo + m,
        m <= hi - lo ==> coloring(g, lo, hi).spilled.len() == 0,
{
    lemma_colored_within(g, g.vals().len(), lo, hi, f, m);
}

/// Two values that interfere, the first defined before the second.
proof fn lemma_edge<D>(
    schedule: Seq<(ValueId, D)>,
    uses: Seq<Vec<ValueId>>,
    g: InterferenceGraph,
    s: int,
    t: int,
)
    requires
        built_from(schedule, uses, g),
        in_order(schedule, uses),
        0 <= s < t < schedule.len(),
    ensures
        near(g, schedule[s].0, schedule[t].0) <==> used_after(schedule, uses, schedule[s].0, t),
        near(g, schedule[t].0, schedule[s].0) <==> used_after(schedule, uses, schedule[s].0, t),
{
    let ids = backward(schedule);
    let cap = live_limit(ids);
    let a = schedule[s].0;
    let b = schedule[t].0;
    overlapping_live_ranges_interfere(schedule, uses, s, t);
    assert(g.adj(a).contains(b) <==> interferes(ids, uses, cap, ids.len(), a, b));
    assert(g.adj(b).contains(a) <==> interferes(ids, uses, cap, ids.len(), b, a));
    assert(interferes(ids, uses, cap, ids.len(), a, b) == interferes(
        ids,
        uses,
        cap,
        ids.len(),
        b,
        a,
    )) by {
        if interferes(ids, uses, cap, ids.len(), a, b) {
            let w = choose|w: nat|
                w < ids.len() && meets(
                    ids[w as int],
                    #[trigger] live_after(ids, uses, cap, w),
                    a,
                    b,
                );
            assert(meets(ids[w as int], live_after(ids, uses, cap, w), b, a));
        }
        if interferes(ids, uses, cap, ids.len(), b, a) {
            let w = choose|w: nat|
                w < ids.len() && meets(
                    ids[w as int],
                    #[trigger] live_after(ids, uses, cap, w),
                    b,
                    a,
                );
            assert(meets(ids[w as int], live_after(ids, uses, cap, w), a, b));
        }
    }
}

/// Where a value of the graph is defined.
proof fn lemma_defined<D>(
    schedule: Seq<(ValueId, D)>,
    uses: Seq<Vec<ValueId>>,
    g: InterferenceGraph,
    a: ValueId,
    b: ValueId,
) -> (s: int)
    requires
        built_from(schedule, uses, g),
        in_order(schedule, uses),
        near(g, a, b),
    ensures
        0 <= s < schedule.len(),
        schedule[s].0 == a,
{
    let ids = backward(schedule);
    let cap = live_limit(ids);
    assert(g.adj(a).contains(b));
    let w = choose|w: nat|
        w < ids.len() && meets(ids[w as int], #[trigger] live_after(ids, uses, cap, w), a, b);
    if ids[w as int] == a {
        schedule.len() - 1 - w
    } else {
        let p = lemma_live_is_used(ids, uses, cap, w, a);
        let q = choose|q: int| p < q < ids.len() && #[trigger] ids[q] == a;
        schedule.len() - 1 - q
    }
}

/// The place on the ring of the value defined last among the first `k`.
proof fn lemma_last_defined(at: Seq<int>, k: int) -> (i: int)
    requires
        0 < k <= at.len(),
    ensures
        0 <= i < k,
        forall|j: int| 0 <= j < k ==> #[trigger] at[j] <= at[i],
    decreases k,
{
    if k == 1 {
        0
    } else {
        let i = lemma_last_defined(at, k - 1);
        if at[k - 1] > at[i] {
            k - 1
        } else {
            i
        }
    }
}

/// The interference graph of a schedule is chordal, so that it is colored with as few
/// registers as any coloring takes.
pub proof fn schedules_give_chordal_graphs<D>(
    schedule: Seq<(ValueId, D)>,
    uses: Seq<Vec<ValueId>>,
    g: InterferenceGraph,
)
    requires
        g.wf(),
        built_from(schedule, uses, g),
        in_order(schedule, uses),
    ensures
        chordal(g),
{
    assert forall|c: Seq<ValueId>| !#[trigger] chordless_ring(g, c) by {
        if chordless_ring(g, c) {
            lemma_no_ring(schedule, uses, g, c);
        }
    }
}

/// The value on a ring that is defined last has two neighbors there, both live at its
/// definition, so that they interfere.
proof fn lemma_no_ring<D>(
    schedule: Seq<(ValueId, D)>,
    uses: Seq<Vec<ValueId>>,
    g: InterferenceGraph,
    c: Seq<ValueId>,
)
    requires
        g.wf(),
        built_from(schedule, uses, g),
        in_order(schedule, uses),
    ensures
        !chordless_ring(g, c),
{
    if chordless_ring(g, c) {
        let n = c.len() as int;
        let at = Seq::new(
            n as nat,
            |i: int| choose|s: int| 0 <= s < schedule.len() && (#[trigger] schedule[s]).0 == c[i],
        );
        assert forall|i: int| 0 <= i < n implies 0 <= #[trigger] at[i] < schedule.len()
            && schedule[at[i]].0 == c[i] by {
            if i < n - 1 {
                assert(near(g, c[i], c[i + 1]));
                let s = lemma_defined(schedule, uses, g, c[i], c[i + 1]);
                assert(schedule[s].0 == c[i]);
            } else {
                assert(near(g, c[0], c[i]));
                assert(g.adj(c[i]).contains(c[0]));
                let s = lemma_defined(schedule, uses, g, c[i], c[0]);
                assert(schedule[s].0 == c[i]);
            }
        }
        let k = lemma_last_defined(at, n);
        let a: int = if k == 0 {
            n - 1
        } else {
            k - 1
        };
        let b: int = if k == n - 1 {
            0
        } else {
            k + 1
        };
        assert(near(g, c[a], c[k]) || near(g, c[k], c[a]));
        assert(near(g, c[b], c[k]) || near(g, c[k], c[b]));
        assert(c[a] != c[k] && c[b] != c[k] && c[a] != c[b]);
        assert(at[a] < at[k]) by {
            assert(at[a] <= at[k]);
        }
        assert(at[b] < at[k]) by {
            assert(at[b] <= at[k]);
        }
        lemma_edge(schedule, uses, g, at[a], at[k]);
        lemma_edge(schedule, uses, g, at[b], at[k]);
        let (lo, hi) = if at[a] < at[b] {
            (a, b)
        } else {
            (b, a)
        };
        assert(at[a] != at[b]);
        assert(used_after(schedule, uses, c[lo], at[hi])) by {
            assert(used_after(schedule, uses, c[lo], at[k]));
            let p = choose|p: int|
                0 <= p < schedule.len() - 1 - at[k] && #[trigger] uses[p]@.contains(c[lo]);
            assert(uses[p]@.contains(c[lo]));
        }
        lemma_edge(schedule, uses, g, at[lo], at[hi]);
        assert(near(g, c[a], c[b]) && near(g, c[b], c[a]));
    }
}

} // verus!
