//! Questions asked of the expression at a node: depth, size, what occurs in
//! it, and structural equality.

use crate::arena::model::{
    lemma_term_kids, lemma_weight_expand, ArenaModel, Head, Term,
};
use crate::arena::{ExprArena, ExprId, ExprNode, RETIRED_COORD_FIRST, RETIRED_COORD_LAST};
use crate::kind::OpKind;
use vstd::prelude::*;

verus! {

/// Some listed node denotes an expression with a subexpression satisfying `p`.
spec fn any_in(m: ArenaModel, ids: Seq<ExprId>, p: spec_fn(Term) -> bool) -> bool {
    exists|k: int| 0 <= k < ids.len() && m.term((#[trigger] ids[k]).0 as int).any(p)
}

/// All listed ids name nodes.
spec fn all_in(m: ArenaModel, ids: Seq<ExprId>) -> bool {
    forall|k: int| 0 <= k < ids.len() ==> m.has(#[trigger] ids[k])
}

/// Replacing the last id by its operands keeps the search going, as long as
/// its own root does not satisfy `p`.
proof fn lemma_any_expand(m: ArenaModel, s: Seq<ExprId>, p: spec_fn(Term) -> bool)
    requires
        m.wf(),
        s.len() > 0,
        all_in(m, s),
    ensures
        all_in(m, s.drop_last() + m.kids(s.last().0 as int)),
        p(m.term(s.last().0 as int)) ==> any_in(m, s, p),
        !p(m.term(s.last().0 as int)) ==> any_in(m, s, p) == any_in(
            m,
            s.drop_last() + m.kids(s.last().0 as int),
            p,
        ),
{
    let x = s.last();
    let i = x.0 as int;
    let base = s.drop_last();
    let kids = m.kids(i);
    let t = base + kids;
    lemma_term_kids(m, i);
    assert(m.has(s[s.len() - 1]));
    assert forall|k: int| 0 <= k < t.len() implies m.has(#[trigger] t[k]) by {
        if k < base.len() {
            assert(t[k] == s[k]);
        } else {
            assert(t[k] == kids[k - base.len()]);
        }
    }
    if p(m.term(i)) {
        assert(m.term(s[s.len() - 1].0 as int).any(p));
    } else {
        if any_in(m, s, p) {
            let k = choose|k: int| 0 <= k < s.len() && m.term((#[trigger] s[k]).0 as int).any(p);
            if k < base.len() {
                assert(t[k] == s[k]);
            } else {
                let j = choose|j: int|
                    0 <= j < m.term(i).kids.len() && (#[trigger] m.term(i).kids[j]).any(p);
                assert(m.term(i).kids[j] == m.term(kids[j].0 as int));
                assert(t[base.len() + j] == kids[j]);
            }
            assert(any_in(m, t, p));
        }
        if any_in(m, t, p) {
            let k = choose|k: int| 0 <= k < t.len() && m.term((#[trigger] t[k]).0 as int).any(p);
            if k < base.len() {
                assert(t[k] == s[k]);
            } else {
                let j = k - base.len();
                assert(t[k] == kids[j]);
                assert(m.term(i).kids[j].any(p));
                assert(m.term(i).any(p));
                assert(m.term(s[s.len() - 1].0 as int).any(p));
            }
            assert(any_in(m, s, p));
        }
    }
}

/// The depth an expression at distance `d` from the root reaches.
spec fn reach_depth(m: ArenaModel, e: (ExprId, usize)) -> int {
    e.1 + m.term(e.0.0 as int).depth() - 1
}

/// The greatest depth a list of pending nodes reaches; zero if empty.
spec fn pending_depth(m: ArenaModel, s: Seq<(ExprId, usize)>) -> int
    decreases s.len(),
{
    if s.len() == 0 {
        0
    } else if pending_depth(m, s.drop_last()) >= reach_depth(m, s.last()) {
        pending_depth(m, s.drop_last())
    } else {
        reach_depth(m, s.last())
    }
}

/// The ids of a list of pending nodes.
spec fn firsts<T>(s: Seq<(ExprId, T)>) -> Seq<ExprId> {
    Seq::new(s.len(), |k: int| s[k].0)
}

/// The first `n` operands of node `i`, each paired with `d`.
spec fn at_depth(m: ArenaModel, i: int, n: int, d: usize) -> Seq<(ExprId, usize)> {
    Seq::new(n as nat, |j: int| (m.kids(i)[j], d))
}

proof fn lemma_pending_kids(
    m: ArenaModel,
    base: Seq<(ExprId, usize)>,
    i: int,
    n: int,
    d: usize,
)
    requires
        m.wf(),
        0 <= i < m.nodes.len(),
        0 < n <= m.kids(i).len(),
        d >= 1,
    ensures
        ({
            let got = pending_depth(m, base + at_depth(m, i, n, d));
            let own = d - 1 + Term::depths(m.term(i).kids.take(n));
            got == if pending_depth(m, base) >= own {
                pending_depth(m, base)
            } else {
                own
            }
        }),
    decreases n,
{
    lemma_term_kids(m, i);
    let s = base + at_depth(m, i, n, d);
    assert(s.drop_last() =~= base + at_depth(m, i, n - 1, d));
    assert(s.last() == (m.kids(i)[n - 1], d));
    let ts = m.term(i).kids.take(n);
    assert(ts.drop_last() =~= m.term(i).kids.take(n - 1));
    assert(ts.last() == m.term(i).kids[n - 1]);
    if n == 1 {
        assert(base + at_depth(m, i, 0, d) =~= base);
        assert(m.term(i).kids.take(0) =~= Seq::<Term>::empty());
    } else {
        lemma_pending_kids(m, base, i, n - 1, d);
    }
}

/// An expression is no deeper than its position allows.
proof fn lemma_depth_bound(m: ArenaModel, i: int)
    requires
        m.wf(),
        0 <= i < m.nodes.len(),
    ensures
        m.term(i).depth() <= i + 1,
    decreases i, m.kids(i).len() + 1,
{
    lemma_term_kids(m, i);
    lemma_depths_bound(m, i, m.kids(i).len() as int);
    assert(m.term(i).kids.take(m.kids(i).len() as int) =~= m.term(i).kids);
}

proof fn lemma_depths_bound(m: ArenaModel, i: int, n: int)
    requires
        m.wf(),
        0 <= i < m.nodes.len(),
        0 <= n <= m.kids(i).len(),
    ensures
        Term::depths(m.term(i).kids.take(n)) <= i,
    decreases i, n,
{
    lemma_term_kids(m, i);
    if n > 0 {
        lemma_depths_bound(m, i, n - 1);
        let ts = m.term(i).kids.take(n);
        assert(ts.drop_last() =~= m.term(i).kids.take(n - 1));
        assert(ts.last() == m.term(i).kids[n - 1]);
        lemma_depth_bound(m, m.kids(i)[n - 1].0 as int);
    }
}

/// The expressions a list of ids denotes.
spec fn terms(m: ArenaModel, ids: Seq<ExprId>) -> Seq<Term> {
    Seq::new(ids.len(), |k: int| m.term(ids[k].0 as int))
}

/// Searching a concatenation looks at its second part first.
proof fn lemma_first_var_concat(a: Seq<Term>, b: Seq<Term>, lo: u8, hi: u8)
    ensures
        Term::first_var_in(a + b, lo, hi) == match Term::first_var_in(b, lo, hi) {
            Some(i) => Some(i),
            None => Term::first_var_in(a, lo, hi),
        },
    decreases b.len(),
{
    if b.len() == 0 {
        assert(a + b =~= a);
    } else {
        assert((a + b).drop_last() =~= a + b.drop_last());
        assert((a + b).last() == b.last());
        lemma_first_var_concat(a, b.drop_last(), lo, hi);
    }
}

/// The longest tail of `ids` whose members are all below `k`.
spec fn top_below(ids: Seq<ExprId>, k: int) -> Seq<ExprId>
    decreases ids.len(),
{
    if ids.len() == 0 || ids.last().0 >= k {
        Seq::empty()
    } else {
        top_below(ids.drop_last(), k).push(ids.last())
    }
}

proof fn lemma_top_below_concat(a: Seq<ExprId>, b: Seq<ExprId>, k: int)
    requires
        forall|j: int| 0 <= j < b.len() ==> (#[trigger] b[j]).0 < k,
    ensures
        top_below(a + b, k) =~= top_below(a, k) + b,
    decreases b.len(),
{
    if b.len() == 0 {
        assert(a + b =~= a);
    } else {
        assert((a + b).drop_last() =~= a + b.drop_last());
        assert((a + b).last() == b.last());
        assert(b[b.len() - 1].0 < k);
        lemma_top_below_concat(a, b.drop_last(), k);
    }
}

/// Every visited node is either free of matches, or its unvisited operands are
/// the tail of the work list below it.
spec fn visited_ok(m: ArenaModel, seen: Seq<bool>, s: Seq<ExprId>, lo: u8, hi: u8) -> bool {
    forall|k: int|
        #![trigger seen[k]]
        0 <= k < seen.len() && seen[k] ==> {
            Term::first_var_in(terms(m, top_below(s, k)), lo, hi) is None ==> m.term(k).first_var(
                lo,
                hi,
            ) is None
        }
}

/// Dropping a visited node from the work list changes nothing.
proof fn lemma_skip_seen(m: ArenaModel, seen: Seq<bool>, s: Seq<ExprId>, lo: u8, hi: u8)
    requires
        m.wf(),
        s.len() > 0,
        all_in(m, s),
        seen.len() == m.nodes.len(),
        seen[s.last().0 as int],
        visited_ok(m, seen, s, lo, hi),
    ensures
        visited_ok(m, seen, s.drop_last(), lo, hi),
        Term::first_var_in(terms(m, s.drop_last()), lo, hi) == Term::first_var_in(
            terms(m, s),
            lo,
            hi,
        ),
{
    let x = s.last().0 as int;
    assert(m.has(s[s.len() - 1]));
    assert(top_below(s, x) =~= Seq::<ExprId>::empty());
    assert(terms(m, top_below(s, x)) =~= Seq::<Term>::empty());
    assert(m.term(x).first_var(lo, hi) is None);
    assert(terms(m, s).drop_last() =~= terms(m, s.drop_last()));
    assert(terms(m, s).last() == m.term(x));
    assert forall|k: int|
        #![trigger seen[k]]
        0 <= k < seen.len() && seen[k] && Term::first_var_in(
            terms(m, top_below(s.drop_last(), k)),
            lo,
            hi,
        ) is None implies m.term(k).first_var(lo, hi) is None by {
        let tail = top_below(s, k);
        if x < k {
            assert(terms(m, tail).drop_last() =~= terms(m, top_below(s.drop_last(), k)));
            assert(terms(m, tail).last() == m.term(x));
        } else {
            assert(terms(m, tail) =~= Seq::<Term>::empty());
        }
    }
}

/// Visiting a node whose root does not match replaces it by its operands.
proof fn lemma_visit(m: ArenaModel, seen: Seq<bool>, s: Seq<ExprId>, lo: u8, hi: u8)
    requires
        m.wf(),
        s.len() > 0,
        all_in(m, s),
        seen.len() == m.nodes.len(),
        visited_ok(m, seen, s, lo, hi),
        !(m.term(s.last().0 as int).head matches Head::Var(i) && lo <= i <= hi),
    ensures
        ({
            let t = s.drop_last() + m.kids(s.last().0 as int);
            &&& visited_ok(m, seen.update(s.last().0 as int, true), t, lo, hi)
            &&& Term::first_var_in(terms(m, t), lo, hi) == Term::first_var_in(
                terms(m, s),
                lo,
                hi,
            )
        }),
{
    let x = s.last().0 as int;
    let base = s.drop_last();
    let kids = m.kids(x);
    let t = base + kids;
    let seen2 = seen.update(x, true);
    assert(m.has(s[s.len() - 1]));
    lemma_term_kids(m, x);
    assert(terms(m, kids) =~= m.term(x).kids);
    assert(m.term(x).first_var(lo, hi) == Term::first_var_in(m.term(x).kids, lo, hi));
    assert(terms(m, t) =~= terms(m, base) + terms(m, kids));
    lemma_first_var_concat(terms(m, base), terms(m, kids), lo, hi);
    assert(terms(m, s).drop_last() =~= terms(m, base));
    assert(terms(m, s).last() == m.term(x));
    assert forall|k: int|
        #![trigger seen2[k]]
        0 <= k < seen2.len() && seen2[k] && Term::first_var_in(
            terms(m, top_below(t, k)),
            lo,
            hi,
        ) is None implies m.term(k).first_var(lo, hi) is None by {
        if x <= k {
            lemma_top_below_concat(base, kids, k);
            assert(terms(m, top_below(t, k)) =~= terms(m, top_below(base, k)) + terms(m, kids));
            lemma_first_var_concat(terms(m, top_below(base, k)), terms(m, kids), lo, hi);
        }
        if k != x {
            assert(seen[k]);
            let tail = top_below(s, k);
            if x < k {
                assert(terms(m, tail).drop_last() =~= terms(m, top_below(base, k)));
                assert(terms(m, tail).last() == m.term(x));
            } else {
                assert(terms(m, tail) =~= Seq::<Term>::empty());
            }
        }
    }
}

/// All listed pairs denote equal expressions.
spec fn all_equal(a: ArenaModel, b: ArenaModel, s: Seq<(ExprId, ExprId)>) -> bool {
    forall|k: int|
        0 <= k < s.len() ==> a.term((#[trigger] s[k]).0.0 as int) == b.term(s[k].1.0 as int)
}

/// All listed pairs name nodes of their arenas.
spec fn pairs_in(a: ArenaModel, b: ArenaModel, s: Seq<(ExprId, ExprId)>) -> bool {
    forall|k: int| 0 <= k < s.len() ==> a.has((#[trigger] s[k]).0) && b.has(s[k].1)
}

/// The operands of two nodes, pairwise.
spec fn zip_kids(a: ArenaModel, i: int, b: ArenaModel, j: int) -> Seq<(ExprId, ExprId)> {
    Seq::new(a.kids(i).len(), |k: int| (a.kids(i)[k], b.kids(j)[k]))
}

proof fn lemma_equal_expand(a: ArenaModel, b: ArenaModel, s: Seq<(ExprId, ExprId)>)
    requires
        a.wf(),
        b.wf(),
        s.len() > 0,
        pairs_in(a, b, s),
    ensures
        ({
            let i = s.last().0.0 as int;
            let j = s.last().1.0 as int;
            let t = s.drop_last() + zip_kids(a, i, b, j);
            let same = a.head_of(a.nodes[i]) == b.head_of(b.nodes[j]) && a.kids(i).len() == b.kids(
                j,
            ).len();
            &&& !same ==> !all_equal(a, b, s)
            &&& same ==> pairs_in(a, b, t)
            &&& same ==> (all_equal(a, b, t) == all_equal(a, b, s))
        }),
{
    let i = s.last().0.0 as int;
    let j = s.last().1.0 as int;
    let base = s.drop_last();
    let z = zip_kids(a, i, b, j);
    let t = base + z;
    assert(a.has(s[s.len() - 1].0) && b.has(s[s.len() - 1].1));
    lemma_term_kids(a, i);
    lemma_term_kids(b, j);
    if a.head_of(a.nodes[i]) == b.head_of(b.nodes[j]) && a.kids(i).len() == b.kids(j).len() {
        assert forall|k: int| 0 <= k < t.len() implies a.has((#[trigger] t[k]).0) && b.has(
            t[k].1,
        ) by {
            if k < base.len() {
                assert(t[k] == s[k]);
            } else {
                assert(t[k] == z[k - base.len()]);
                assert(a.kids(i)[k - base.len()].0 < i);
                assert(b.kids(j)[k - base.len()].0 < j);
            }
        }
        if all_equal(a, b, t) {
            assert forall|k: int| 0 <= k < s.len() implies a.term((#[trigger] s[k]).0.0 as int)
                == b.term(s[k].1.0 as int) by {
                if k < base.len() {
                    assert(t[k] == s[k]);
                } else {
                    assert forall|n: int| 0 <= n < a.kids(i).len() implies a.term(i).kids[n]
                        == b.term(j).kids[n] by {
                        assert(t[base.len() + n] == z[n]);
                    }
                    assert(a.term(i).kids =~= b.term(j).kids);
                }
            }
        }
        if all_equal(a, b, s) {
            assert(a.term(s[s.len() - 1].0.0 as int) == b.term(s[s.len() - 1].1.0 as int));
            assert forall|k: int| 0 <= k < t.len() implies a.term((#[trigger] t[k]).0.0 as int)
                == b.term(t[k].1.0 as int) by {
                if k < base.len() {
                    assert(t[k] == s[k]);
                } else {
                    let n = k - base.len();
                    assert(t[k] == z[n]);
                    assert(a.term(i).kids[n] == b.term(j).kids[n]);
                }
            }
        }
    } else {
        assert(a.term(s[s.len() - 1].0.0 as int) != b.term(s[s.len() - 1].1.0 as int));
    }
}

impl ExprArena {
    /// Are operands listed before the nodes that use them, and do all table references
    /// resolve? An arena that is built by pushing is well-formed; one put together
    /// from raw parts may not be.
    pub fn is_well_formed(&self) -> (b: bool)
        ensures
            b == self@.wf(),
    {
        let n: usize = self.nodes.len();
        if n as u64 > u32::MAX as u64 + 1 {
            return false;
        }
        let mut i: usize = 0;
        while i < n
            invariant
                i <= n,
                n == self@.nodes.len(),
                n <= u32::MAX + 1,
                forall|k: int| 0 <= k < i ==> self@.node_ok(k, #[trigger] self@.nodes[k]),
            decreases n - i,
        {
            if !self.is_node_ok(ExprId(i as u32)) {
                assert(!self@.node_ok(i as int, self@.nodes[i as int]));
                return false;
            }
            i += 1;
        }
        true
    }

    /// May the node stand where it does?
    fn is_node_ok(&self, id: ExprId) -> (b: bool)
        requires
            self@.has(id),
        ensures
            b == self@.node_ok(id.0 as int, self@.nodes[id.0 as int]),
    {
        let resolves: bool = match self.nodes[id.0 as usize] {
            ExprNode::Nary(_, start, len) => start as u64 + len as u64
                <= self.nary_children.len() as u64,
            ExprNode::Buffer(b) => (b.0 as usize) < self.buffers.len(),
            ExprNode::Uniform(u) => (u.0 as usize) < self.uniforms.len(),
            _ => true,
        };
        if !resolves {
            return false;
        }
        let kids = self.children(id).collect();
        let mut j: usize = 0;
        while j < kids.len()
            invariant
                j <= kids@.len(),
                kids@ == self@.kids(id.0 as int),
                forall|k: int|
                    0 <= k < j ==> (#[trigger] self@.kids_of(self@.nodes[id.0 as int])[k]).0 < id.0,
            decreases kids@.len() - j,
        {
            if kids[j].0 >= id.0 {
                assert(self@.kids_of(self@.nodes[id.0 as int])[j as int].0 >= id.0);
                return false;
            }
            j += 1;
        }
        true
    }

    /// Appends the operands of `id` to a work list.
    pub(crate) fn push_children(&self, id: ExprId, stack: &mut Vec<ExprId>)
        requires
            self@.wf(),
            self@.has(id),
        ensures
            final(stack)@ == old(stack)@ + self@.kids(id.0 as int),
    {
        assert(self@.node_ok(id.0 as int, self@.nodes[id.0 as int]));
        let children = self.children(id).collect();
        let mut i: usize = 0;
        while i < children.len()
            invariant
                children@ == self@.kids(id.0 as int),
                i <= children@.len(),
                stack@ =~= old(stack)@ + children@.take(i as int),
            decreases children@.len() - i,
        {
            stack.push(children[i]);
            i += 1;
        }
        assert(children@.take(i as int) =~= children@);
    }

    /// The first variable with index in `lo..=hi` reachable from `root`.
    fn find_var(&self, root: ExprId, lo: u8, hi: u8) -> (r: Option<u8>)
        requires
            self@.wf(),
            self@.has(root),
        ensures
            r == self@.term(root.0 as int).first_var(lo, hi),
    {
        let n: usize = self.len();
        let mut seen: Vec<bool> = vec![false; n];
        let mut stack: Vec<ExprId> = Vec::new();
        stack.push(root);
        let ghost m = self@;
        proof {
            assert(terms(m, stack@) =~= seq![m.term(root.0 as int)]);
            assert(seq![m.term(root.0 as int)].drop_last() =~= Seq::<Term>::empty());
            assert(Term::first_var_in(Seq::<Term>::empty(), lo, hi) is None);
        }
        while stack.len() > 0
            invariant
                m == self@,
                m.wf(),
                all_in(m, stack@),
                seen@.len() == m.nodes.len(),
                visited_ok(m, seen@, stack@, lo, hi),
                Term::first_var_in(terms(m, stack@), lo, hi) == m.term(root.0 as int).first_var(
                    lo,
                    hi,
                ),
            decreases m.weight(stack@),
        {
            let ghost s = stack@;
            let id: ExprId = match stack.pop() {
                Some(x) => x,
                None => ExprId(0),
            };
            proof {
                assert(s[s.len() - 1] == id);
                assert(m.has(s[s.len() - 1]));
                lemma_weight_expand(m, s);
                lemma_any_expand(m, s, |t: Term| false);
                assert(terms(m, s).last() == m.term(id.0 as int));
                lemma_term_kids(m, id.0 as int);
            }
            if seen[id.0 as usize] {
                proof {
                    lemma_skip_seen(m, seen@, s, lo, hi);
                }
            } else {
                seen.set(id.0 as usize, true);
                if let ExprNode::Var(i) = self.nodes[id.0 as usize] {
                    if lo <= i && i <= hi {
                        return Some(i);
                    }
                }
                proof {
                    lemma_visit(m, seen@.update(id.0 as int, false), s, lo, hi);
                }
                self.push_children(id, &mut stack);
                assert(seen@.update(id.0 as int, false).update(id.0 as int, true) =~= seen@);
            }
        }
        assert(terms(m, stack@) =~= Seq::<Term>::empty());
        None
    }

    /// The retired coordinate axis reachable from `root`, if any. Nodes that
    /// `root` does not reach are not looked at.
    pub fn retired_axis(&self, root: ExprId) -> (r: Option<u8>)
        requires
            self@.wf(),
            self@.has(root),
        ensures
            r == self@.term(root.0 as int).first_var(RETIRED_COORD_FIRST, RETIRED_COORD_LAST),
    {
        self.find_var(root, RETIRED_COORD_FIRST, RETIRED_COORD_LAST)
    }

    /// The first `Var(i)` with `i >= floor` reachable from `root`, if any.
    pub fn free_var_at_or_above(&self, root: ExprId, floor: u8) -> (r: Option<u8>)
        requires
            self@.wf(),
            self@.has(root),
        ensures
            r == self@.term(root.0 as int).first_var(floor, u8::MAX),
    {
        self.find_var(root, floor, u8::MAX)
    }

    /// The depth of the expression at `root`.
    pub fn depth(&self, root: ExprId) -> (d: usize)
        requires
            self@.wf(),
            self@.has(root),
        ensures
            d == self@.term(root.0 as int).depth(),
    {
        let mut stack: Vec<(ExprId, usize)> = Vec::new();
        stack.push((root, 1));
        let mut max_depth: usize = 0;
        let ghost m = self@;
        let ghost full = m.term(root.0 as int).depth() as int;
        let n: usize = self.len();
        proof {
            assert(stack@.drop_last() =~= Seq::<(ExprId, usize)>::empty());
            assert(pending_depth(m, Seq::<(ExprId, usize)>::empty()) == 0);
            lemma_depth_bound(m, root.0 as int);
        }
        while stack.len() > 0
            invariant
                m == self@,
                m.wf(),
                n == m.nodes.len(),
                full <= n,
                full == m.term(root.0 as int).depth(),
                all_in(m, firsts(stack@)),
                forall|k: int| 0 <= k < stack@.len() ==> (#[trigger] stack@[k]).1 >= 1,
                full == if max_depth >= pending_depth(m, stack@) {
                    max_depth as int
                } else {
                    pending_depth(m, stack@)
                },
            decreases m.weight(firsts(stack@)),
        {
            let ghost s = stack@;
            let (id, d): (ExprId, usize) = match stack.pop() {
                Some(x) => x,
                None => (ExprId(0), 1),
            };
            proof {
                assert(s[s.len() - 1] == (id, d));
                assert(firsts(s)[s.len() - 1] == id);
                assert(m.has(id));
                assert(firsts(s).drop_last() =~= firsts(s.drop_last()));
                lemma_weight_expand(m, firsts(s));
                lemma_any_expand(m, firsts(s), |t: Term| false);
                lemma_term_kids(m, id.0 as int);
                assert(m.node_ok(id.0 as int, m.nodes[id.0 as int]));
            }
            let children = self.children(id).collect();
            if children.len() == 0 {
                proof {
                    assert(Term::depths(m.term(id.0 as int).kids) == 0);
                    assert(firsts(s).drop_last() + m.kids(id.0 as int) =~= firsts(stack@));
                }
                if d > max_depth {
                    max_depth = d;
                }
            } else {
                let ghost base = stack@;
                proof {
                    let ts = m.term(id.0 as int).kids;
                    assert(ts.take(children@.len() as int) =~= ts);
                    assert(ts.last().depth() >= 1);
                    assert(Term::depths(ts) >= 1);
                    assert(reach_depth(m, s.last()) <= pending_depth(m, s) <= full);
                    lemma_pending_kids(
                        m,
                        base,
                        id.0 as int,
                        children@.len() as int,
                        (d + 1) as usize,
                    );
                }
                let mut i: usize = 0;
                while i < children.len()
                    invariant
                        m == self@,
                        children@ == m.kids(id.0 as int),
                        i <= children@.len(),
                        d < n,
                        base == s.drop_last(),
                        forall|k: int| 0 <= k < s.len() ==> (#[trigger] s[k]).1 >= 1,
                        stack@ =~= base + at_depth(m, id.0 as int, i as int, (d + 1) as usize),
                    decreases children@.len() - i,
                {
                    stack.push((children[i], d + 1));
                    i += 1;
                }
                proof {
                    assert(firsts(stack@) =~= firsts(s).drop_last() + m.kids(id.0 as int));
                    assert forall|k: int| 0 <= k < stack@.len() implies (
                    #[trigger] stack@[k]).1 >= 1 by {
                        if k < base.len() {
                            assert(stack@[k] == s[k]);
                        }
                    }
                }
            }
        }
        max_depth
    }

    /// Whether a variable occurs in the expression at `root`.
    pub fn has_var(&self, root: ExprId) -> (b: bool)
        requires
            self@.wf(),
            self@.has(root),
        ensures
            b == self@.term(root.0 as int).any(|t: Term| t.head is Var),
    {
        let mut stack: Vec<ExprId> = Vec::new();
        stack.push(root);
        let ghost m = self@;
        let ghost p = |t: Term| t.head is Var;
        assert(stack@[0] == root);
        while stack.len() > 0
            invariant
                m == self@,
                m.wf(),
                p == (|t: Term| t.head is Var),
                all_in(m, stack@),
                any_in(m, stack@, p) == m.term(root.0 as int).any(p),
            decreases m.weight(stack@),
        {
            let ghost s = stack@;
            let id: ExprId = match stack.pop() {
                Some(x) => x,
                None => ExprId(0),
            };
            proof {
                assert(m.has(s[s.len() - 1]));
                lemma_weight_expand(m, s);
                lemma_any_expand(m, s, p);
                lemma_term_kids(m, id.0 as int);
            }
            if let ExprNode::Var(_) = self.nodes[id.0 as usize] {
                return true;
            }
            self.push_children(id, &mut stack);
        }
        false
    }

    /// Whether node `id` is a constant equal to positive or negative zero.
    fn is_zero_const(&self, id: ExprId) -> (b: bool)
        requires
            self@.wf(),
            self@.has(id),
        ensures
            b == self@.term(id.0 as int).is_zero_const(),
    {
        proof {
            lemma_term_kids(self@, id.0 as int);
        }
        match self.nodes[id.0 as usize] {
            ExprNode::Const(v) => v & 0x7FFF_FFFF == 0,
            _ => false,
        }
    }

    /// Whether the expression at `root` contains a NaN or infinite constant,
    /// `recip(0)`, or a division by zero.
    pub fn has_degenerate(&self, root: ExprId) -> (b: bool)
        requires
            self@.wf(),
            self@.has(root),
        ensures
            b == self@.term(root.0 as int).any(|t: Term| t.degenerate_root()),
    {
        let mut stack: Vec<ExprId> = Vec::new();
        stack.push(root);
        let ghost m = self@;
        let ghost p = |t: Term| t.degenerate_root();
        assert(stack@[0] == root);
        while stack.len() > 0
            invariant
                m == self@,
                m.wf(),
                p == (|t: Term| t.degenerate_root()),
                all_in(m, stack@),
                any_in(m, stack@, p) == m.term(root.0 as int).any(p),
            decreases m.weight(stack@),
        {
            let ghost s = stack@;
            let id: ExprId = match stack.pop() {
                Some(x) => x,
                None => ExprId(0),
            };
            proof {
                assert(m.has(s[s.len() - 1]));
                lemma_weight_expand(m, s);
                lemma_any_expand(m, s, p);
                lemma_term_kids(m, id.0 as int);
                if m.kids(id.0 as int).len() > 0 {
                    assert(m.term(id.0 as int).kids[0] == m.term(m.kids(id.0 as int)[0].0 as int));
                }
                if m.kids(id.0 as int).len() > 1 {
                    assert(m.term(id.0 as int).kids[1] == m.term(m.kids(id.0 as int)[1].0 as int));
                }
            }
            match self.nodes[id.0 as usize] {
                ExprNode::Const(v) => {
                    if v & 0x7F80_0000 == 0x7F80_0000 {
                        return true;
                    }
                },
                ExprNode::Unary(op, a) => {
                    assert(m.kids(id.0 as int)[0] == a);
                    if op == OpKind::Recip && self.is_zero_const(a) {
                        return true;
                    }
                },
                ExprNode::Binary(op, _, b) => {
                    assert(m.kids(id.0 as int)[1] == b);
                    if op == OpKind::Div && self.is_zero_const(b) {
                        return true;
                    }
                },
                _ => {},
            }
            assert(!p(m.term(id.0 as int)));
            self.push_children(id, &mut stack);
        }
        false
    }

    /// Number of tree nodes in the expression at `root`: a shared
    /// subexpression counts once per reference.
    pub fn node_count_subtree(&self, root: ExprId) -> (n: usize)
        requires
            self@.wf(),
            self@.has(root),
            self@.term(root.0 as int).size() <= usize::MAX,
        ensures
            n == self@.term(root.0 as int).size(),
    {
        let mut stack: Vec<ExprId> = Vec::new();
        stack.push(root);
        let mut count: usize = 0;
        let ghost m = self@;
        let ghost full = m.term(root.0 as int).size();
        assert(stack@.drop_last() =~= Seq::<ExprId>::empty());
        assert(m.weight(Seq::<ExprId>::empty()) == 0);
        while stack.len() > 0
            invariant
                m == self@,
                m.wf(),
                full <= usize::MAX,
                all_in(m, stack@),
                count + m.weight(stack@) == full,
            decreases m.weight(stack@),
        {
            let ghost s = stack@;
            let id: ExprId = match stack.pop() {
                Some(x) => x,
                None => ExprId(0),
            };
            proof {
                assert(m.has(s[s.len() - 1]));
                lemma_weight_expand(m, s);
                lemma_any_expand(m, s, |t: Term| false);
            }
            count += 1;
            self.push_children(id, &mut stack);
        }
        count
    }

    /// Whether two nodes agree in everything but their operands, and have
    /// equally many of those.
    fn same_head(&self, s: ExprNode, other: &ExprArena, o: ExprNode) -> (b: bool)
        requires
            self@.slot_ok(s),
            other@.slot_ok(o),
            self@.range_ok(s),
            other@.range_ok(o),
        ensures
            b == (self@.head_of(s) == other@.head_of(o) && self@.kids_of(s).len() == other@.kids_of(
                o,
            ).len()),
    {
        match (s, o) {
            (ExprNode::Var(si), ExprNode::Var(oi)) => si == oi,
            (ExprNode::Const(sv), ExprNode::Const(ov)) => sv == ov,
            (ExprNode::Param(si), ExprNode::Param(oi)) => si == oi,
            (ExprNode::Buffer(sb), ExprNode::Buffer(ob)) => {
                sb == ob && self.buffers[sb.0 as usize] == other.buffers[ob.0 as usize]
            },
            (ExprNode::Uniform(su), ExprNode::Uniform(ou)) => {
                su == ou && self.uniforms[su.0 as usize] == other.uniforms[ou.0 as usize]
            },
            (ExprNode::Ref(sk), ExprNode::Ref(ok)) => sk == ok,
            (ExprNode::Unary(s_op, _), ExprNode::Unary(o_op, _)) => s_op == o_op,
            (ExprNode::Binary(s_op, _, _), ExprNode::Binary(o_op, _, _)) => s_op == o_op,
            (ExprNode::Ternary(s_op, _, _, _), ExprNode::Ternary(o_op, _, _, _)) => s_op == o_op,
            (ExprNode::Nary(s_op, _, s_len), ExprNode::Nary(o_op, _, o_len)) => {
                s_op == o_op && s_len == o_len
            },
            (
                ExprNode::Reduce { fold: s_fold, body: _ },
                ExprNode::Reduce { fold: o_fold, body: _ },
            ) => s_fold == o_fold,
            _ => false,
        }
    }

    /// Compare two expressions for structural equality. Constants compare by
    /// bits; buffer and uniform leaves by slot and declaration.
    pub fn subtree_eq(&self, a: ExprId, other: &ExprArena, b: ExprId) -> (r: bool)
        requires
            self@.wf(),
            other@.wf(),
            self@.has(a),
            other@.has(b),
        ensures
            r == (self@.term(a.0 as int) == other@.term(b.0 as int)),
    {
        let mut stack: Vec<(ExprId, ExprId)> = Vec::with_capacity(16);
        stack.push((a, b));
        let ghost m = self@;
        let ghost o = other@;
        assert(stack@[0] == (a, b));
        while stack.len() > 0
            invariant
                m == self@,
                o == other@,
                m.wf(),
                o.wf(),
                pairs_in(m, o, stack@),
                all_equal(m, o, stack@) == (m.term(a.0 as int) == o.term(b.0 as int)),
            decreases m.weight(firsts(stack@)),
        {
            let ghost s = stack@;
            let (s_id, o_id): (ExprId, ExprId) = match stack.pop() {
                Some(x) => x,
                None => (a, b),
            };
            proof {
                assert(m.has(s[s.len() - 1].0) && o.has(s[s.len() - 1].1));
                assert(firsts(s).last() == s_id);
                assert(firsts(s).drop_last() =~= firsts(s.drop_last()));
                lemma_weight_expand(m, firsts(s));
                lemma_equal_expand(m, o, s);
                lemma_term_kids(m, s_id.0 as int);
                lemma_term_kids(o, o_id.0 as int);
                assert(m.node_ok(s_id.0 as int, m.nodes[s_id.0 as int]));
                assert(o.node_ok(o_id.0 as int, o.nodes[o_id.0 as int]));
            }
            let s_node: ExprNode = self.nodes[s_id.0 as usize];
            let o_node: ExprNode = other.nodes[o_id.0 as usize];
            if !self.same_head(s_node, other, o_node) {
                return false;
            }
            let s_kids = self.children(s_id).collect();
            let o_kids = other.children(o_id).collect();
            let ghost base = stack@;
            let ghost z = zip_kids(m, s_id.0 as int, o, o_id.0 as int);
            let mut i: usize = 0;
            while i < s_kids.len()
                invariant
                    i <= s_kids@.len(),
                    s_kids@.len() == o_kids@.len(),
                    z.len() == s_kids@.len(),
                    forall|k: int| 0 <= k < z.len() ==> #[trigger] z[k] == (s_kids@[k], o_kids@[k]),
                    stack@ =~= base + z.take(i as int),
                decreases s_kids@.len() - i,
            {
                stack.push((s_kids[i], o_kids[i]));
                i += 1;
            }
            proof {
                assert(z.take(i as int) =~= z);
                assert(firsts(stack@) =~= firsts(s).drop_last() + m.kids(s_id.0 as int));
            }
        }
        true
    }
}

} // verus!
