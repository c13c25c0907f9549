//! Which coordinates an expression depends on.

use crate::arena::model::{lemma_term_kids, Head, Term};
use crate::arena::{ExprArena, ExprId, ExprNode};
use vstd::prelude::*;

verus! {

/// The variables an expression depends on: the four coordinates one by one,
/// and any other variable.
#[derive(Clone, Copy, PartialEq, Eq, Structural, Debug, Hash)]
pub struct Variance {
    /// Depends on `Var(0)`.
    pub x: bool,
    /// Depends on `Var(1)`.
    pub y: bool,
    /// Depends on `Var(2)`.
    pub z: bool,
    /// Depends on `Var(3)`.
    pub w: bool,
    /// Depends on another variable.
    pub other: bool,
}

impl Variance {
    /// True if the expression does not depend on X.
    #[inline]
    pub fn is_x_invariant(self) -> (b: bool)
        ensures
            b == !self.x,
    {
        !self.x
    }

    /// True if the expression does not depend on Y.
    #[inline]
    pub fn is_y_invariant(self) -> (b: bool)
        ensures
            b == !self.y,
    {
        !self.y
    }

    /// True if the expression depends on no variable.
    #[inline]
    pub fn is_const(self) -> (b: bool)
        ensures
            b == (!self.x && !self.y && !self.z && !self.w && !self.other),
    {
        !self.x && !self.y && !self.z && !self.w && !self.other
    }

    /// Depends on what either depends on.
    pub open spec fn joined(self, o: Variance) -> Variance {
        Variance {
            x: self.x || o.x,
            y: self.y || o.y,
            z: self.z || o.z,
            w: self.w || o.w,
            other: self.other || o.other,
        }
    }

    /// Depends on what either depends on.
    pub fn join(self, o: Variance) -> (r: Variance)
        ensures
            r == self.joined(o),
    {
        Variance {
            x: self.x || o.x,
            y: self.y || o.y,
            z: self.z || o.z,
            w: self.w || o.w,
            other: self.other || o.other,
        }
    }
}

/// The expression mentions variable `i`.
pub open spec fn mentions(t: Term, i: u8) -> bool
    decreases t,
{
    t.head == Head::Var(i) || exists|j: int|
        0 <= j < t.kids.len() && mentions(#[trigger] t.kids[j], i)
}

/// The expression mentions a variable that is no coordinate.
pub open spec fn mentions_other(t: Term) -> bool
    decreases t,
{
    (t.head matches Head::Var(i) && i > 3) || exists|j: int|
        0 <= j < t.kids.len() && mentions_other(#[trigger] t.kids[j])
}

/// The variables an expression mentions.
pub open spec fn variance_of(t: Term) -> Variance {
    Variance {
        x: mentions(t, 0),
        y: mentions(t, 1),
        z: mentions(t, 2),
        w: mentions(t, 3),
        other: mentions_other(t),
    }
}

/// What the first `k` operands mention.
spec fn kids_variance(ts: Seq<Term>, k: int, v: Variance) -> bool {
    &&& v.x == exists|j: int| 0 <= j < k && mentions(#[trigger] ts[j], 0)
    &&& v.y == exists|j: int| 0 <= j < k && mentions(#[trigger] ts[j], 1)
    &&& v.z == exists|j: int| 0 <= j < k && mentions(#[trigger] ts[j], 2)
    &&& v.w == exists|j: int| 0 <= j < k && mentions(#[trigger] ts[j], 3)
    &&& v.other == exists|j: int| 0 <= j < k && mentions_other(#[trigger] ts[j])
}

proof fn lemma_kids_step(ts: Seq<Term>, k: int, v: Variance)
    requires
        0 <= k < ts.len(),
        kids_variance(ts, k, v),
    ensures
        kids_variance(ts, k + 1, v.joined(variance_of(ts[k]))),
{
    assert forall|i: u8|
        (exists|j: int| 0 <= j < k + 1 && mentions(#[trigger] ts[j], i)) == ((exists|j: int|
            0 <= j < k && mentions(#[trigger] ts[j], i)) || #[trigger] mentions(ts[k], i)) by {
        if exists|j: int| 0 <= j < k + 1 && mentions(#[trigger] ts[j], i) {
            let j = choose|j: int| 0 <= j < k + 1 && mentions(#[trigger] ts[j], i);
            assert(j < k ==> mentions(ts[j], i));
        }
        if mentions(ts[k], i) {
            assert(0 <= k < k + 1 && mentions(ts[k], i));
        }
    }
    assert(mentions(ts[k], 0) || !mentions(ts[k], 0));
    assert(mentions(ts[k], 1) || !mentions(ts[k], 1));
    assert(mentions(ts[k], 2) || !mentions(ts[k], 2));
    assert(mentions(ts[k], 3) || !mentions(ts[k], 3));
    if exists|j: int| 0 <= j < k + 1 && mentions_other(#[trigger] ts[j]) {
        let j = choose|j: int| 0 <= j < k + 1 && mentions_other(#[trigger] ts[j]);
        assert(j < k ==> mentions_other(ts[j]));
    }
    if mentions_other(ts[k]) {
        assert(0 <= k < k + 1 && mentions_other(ts[k]));
    }
}

/// The variance of every node of an arena.
pub fn compute_arena_variance(arena: &ExprArena) -> (table: Vec<Variance>)
    requires
        arena@.wf(),
    ensures
        table@.len() == arena@.nodes.len(),
        forall|i: int|
            0 <= i < table@.len() ==> #[trigger] table@[i] == variance_of(arena@.term(i)),
{
    let ghost m = arena@;
    let n: usize = arena.len();
    let mut table: Vec<Variance> = Vec::new();
    let mut i: usize = 0;
    while i < n
        invariant
            i <= n,
            m == arena@,
            m.wf(),
            n == m.nodes.len(),
            table@.len() == i,
            forall|j: int| 0 <= j < i ==> #[trigger] table@[j] == variance_of(m.term(j)),
        decreases n - i,
    {
        let id = ExprId(i as u32);
        proof {
            assert(m.node_ok(i as int, m.nodes[i as int]));
            lemma_term_kids(m, i as int);
        }
        let node: ExprNode = *arena.node(id);
        let v: Variance = match node {
            ExprNode::Var(k) => {
                assert(m.term(i as int).kids.len() == 0);
                Variance { x: k == 0, y: k == 1, z: k == 2, w: k == 3, other: k > 3 }
            },
            _ => {
                let kids = arena.children(id).collect();
                let ghost ts = m.term(i as int).kids;
                let mut v = Variance { x: false, y: false, z: false, w: false, other: false };
                let mut k: usize = 0;
                while k < kids.len()
                    invariant
                        k <= kids@.len(),
                        i < n,
                        n == m.nodes.len(),
                        kids@ == m.kids(i as int),
                        ts == m.term(i as int).kids,
                        ts.len() == kids@.len(),
                        table@.len() == i,
                        forall|j: int|
                            0 <= j < i ==> #[trigger] table@[j] == variance_of(m.term(j)),
                        forall|j: int|
                            0 <= j < kids@.len() ==> 0 <= (#[trigger] m.kids(i as int)[j]).0 < i,
                        forall|j: int|
                            0 <= j < kids@.len() ==> #[trigger] ts[j] == m.term(
                                m.kids(i as int)[j].0 as int,
                            ),
                        kids_variance(ts, k as int, v),
                    decreases kids@.len() - k,
                {
                    let c: ExprId = kids[k];
                    assert(m.kids(i as int)[k as int].0 < i);
                    assert(ts[k as int] == m.term(c.0 as int));
                    proof {
                        lemma_kids_step(ts, k as int, v);
                    }
                    v = v.join(table[c.0 as usize]);
                    k += 1;
                }
                v
            },
        };
        table.push(v);
        i += 1;
    }
    table
}

} // verus!
