//! Register allocation by graph coloring and by linear scan.
//!
//! Coloring: values that are live together interfere; a maximum cardinality
//! search orders them, and each takes the first register that no interfering
//! value holds. Linear scan: one walk over a schedule with farthest-use
//! eviction, see [`linear`].

use crate::backend::emit::Reg;
use std::collections::BTreeMap;
use vstd::prelude::*;

pub mod chordal;
pub mod coloring;
pub mod interference;
pub mod linear;

pub use crate::backend::emit::regalloc::coloring::color_graph;
pub use crate::backend::emit::regalloc::interference::build_interference_graph;
pub use crate::backend::emit::regalloc::linear::linear_scan;

verus! {

broadcast use vstd::std_specs::btree::group_btree_axioms;

/// A value of the program, defined once.
#[derive(Copy, Clone, Debug, PartialEq, Eq, Structural, PartialOrd, Ord, Hash)]
pub struct ValueId(pub u32);

/// Result of register allocation, keyed by value number.
#[derive(Debug)]
pub struct RegAllocation {
    /// Register of each value that has one.
    pub assignment: BTreeMap<u32, Reg>,
    /// Values kept on the stack.
    pub spilled: Vec<ValueId>,
    /// Values rebuilt from their constant at each use.
    pub rematerialize: BTreeMap<u32, u32>,
    /// Number of registers used.
    pub num_regs: u8,
}

/// Interference graph: which values are live together. An edge holds both ways.
#[derive(Debug)]
pub struct InterferenceGraph {
    values: Vec<ValueId>,
    neighbors: Vec<Vec<ValueId>>,
    precolored: Vec<Option<Reg>>,
}

/// `s` with `v` appended, unless it is there.
pub open spec fn with_value(s: Seq<ValueId>, v: ValueId) -> Seq<ValueId> {
    if s.contains(v) {
        s
    } else {
        s.push(v)
    }
}

/// `t` lists the elements of `s` once each, in increasing order.
pub open spec fn sorted_set(t: Seq<ValueId>, s: Seq<ValueId>) -> bool {
    &&& forall|i: int, j: int| 0 <= i < j < t.len() ==> #[trigger] t[i].0 < #[trigger] t[j].0
    &&& forall|v: ValueId| #[trigger] t.contains(v) <==> s.contains(v)
}

impl InterferenceGraph {
    /// The values, in order of insertion.
    pub closed spec fn vals(&self) -> Seq<ValueId> {
        self.values@
    }

    /// The neighbors of a value, in order of insertion.
    pub closed spec fn adj(&self, v: ValueId) -> Seq<ValueId> {
        if v.0 < self.neighbors@.len() {
            self.neighbors@[v.0 as int]@
        } else {
            Seq::empty()
        }
    }

    /// The register a value is bound to beforehand.
    pub closed spec fn color(&self, v: ValueId) -> Option<Reg> {
        if v.0 < self.precolored@.len() {
            self.precolored@[v.0 as int]
        } else {
            None
        }
    }

    /// The tables cover every value.
    pub closed spec fn covered(&self) -> bool {
        &&& self.neighbors@.len() == self.precolored@.len()
        &&& forall|i: int| 0 <= i < self.values@.len() ==> (#[trigger] self.values@[i]).0
            < self.neighbors@.len()
    }

    /// Values occur once, edges hold both ways between distinct values, and
    /// only values have edges or bound registers.
    pub open spec fn wf(&self) -> bool {
        &&& self.covered()
        &&& self.vals().no_duplicates()
        &&& forall|a: ValueId, b: ValueId| #[trigger]
            self.adj(a).contains(b) ==> a != b && self.adj(b).contains(a) && self.vals().contains(a)
        &&& forall|v: ValueId| (#[trigger] self.color(v)) is Some ==> self.vals().contains(v)
    }

    /// Value numbers leave room for a table.
    pub proof fn lemma_small_ids(&self)
        requires
            self.wf(),
        ensures
            forall|v: ValueId| #[trigger] self.vals().contains(v) ==> v.0 < usize::MAX,
    {
        assert(self.neighbors.len() <= usize::MAX);
        assert forall|v: ValueId| #[trigger] self.vals().contains(v) implies v.0 < usize::MAX by {
            let i = self.vals().index_of(v);
            assert(self.values@[i] == v);
        }
    }

    /// Create an empty interference graph.
    #[must_use]
    pub fn new() -> (g: InterferenceGraph)
        ensures
            g.wf(),
            g.vals() == Seq::<ValueId>::empty(),
            forall|v: ValueId| (#[trigger] g.adj(v)).len() == 0,
            forall|v: ValueId| (#[trigger] g.color(v)) is None,
    {
        InterferenceGraph { values: Vec::new(), neighbors: Vec::new(), precolored: Vec::new() }
    }

    /// Grow the tables to hold `v`.
    fn ensure_capacity(&mut self, v: ValueId)
        requires
            v.0 < usize::MAX,
            old(self).covered(),
        ensures
            final(self).covered(),
            final(self).values@ == old(self).values@,
            v.0 < final(self).neighbors@.len(),
            final(self).neighbors@.len() >= old(self).neighbors@.len(),
            forall|u: ValueId| #[trigger] final(self).adj(u) == old(self).adj(u),
            forall|u: ValueId| #[trigger] final(self).color(u) == old(self).color(u),
    {
        let need: usize = v.0 as usize + 1;
        while self.neighbors.len() < need
            invariant
                need == v.0 + 1,
                self.covered(),
                self.values@ == old(self).values@,
                self.neighbors@.len() >= old(self).neighbors@.len(),
                forall|u: ValueId| #[trigger] self.adj(u) == old(self).adj(u),
                forall|u: ValueId| #[trigger] self.color(u) == old(self).color(u),
            decreases need - self.neighbors@.len(),
        {
            let ghost was = *self;
            self.neighbors.push(Vec::new());
            self.precolored.push(None);
            assert forall|u: ValueId| #[trigger] self.adj(u) == old(self).adj(u) by {
                assert(was.adj(u) == old(self).adj(u));
            }
            assert forall|u: ValueId| #[trigger] self.color(u) == old(self).color(u) by {
                assert(was.color(u) == old(self).color(u));
            }
        }
    }

    /// True if the value is in the graph.
    fn holds(&self, v: ValueId) -> (b: bool)
        ensures
            b == self.values@.contains(v),
    {
        let mut i: usize = 0;
        while i < self.values.len()
            invariant
                i <= self.values@.len(),
                forall|j: int| 0 <= j < i ==> self.values@[j] != v,
            decreases self.values@.len() - i,
        {
            if self.values[i].0 == v.0 {
                assert(self.values@[i as int] == v);
                return true;
            }
            i += 1;
        }
        false
    }

    /// Add a value, with no interferences yet.
    pub fn add_value(&mut self, v: ValueId)
        requires
            old(self).wf(),
            v.0 < usize::MAX,
        ensures
            final(self).wf(),
            final(self).vals() == with_value(old(self).vals(), v),
            forall|u: ValueId| #[trigger] final(self).adj(u) == old(self).adj(u),
            forall|u: ValueId| #[trigger] final(self).color(u) == old(self).color(u),
    {
        self.ensure_capacity(v);
        let ghost grown = *self;
        if !self.holds(v) {
            self.values.push(v);
        }
        proof {
            lemma_with_value(old(self).vals(), v);
            assert forall|u: ValueId| #[trigger] self.adj(u) == old(self).adj(u) by {
                assert(grown.adj(u) == old(self).adj(u));
            }
            assert forall|u: ValueId| #[trigger] self.color(u) == old(self).color(u) by {
                assert(grown.color(u) == old(self).color(u));
            }
        }
    }

    /// Add an interference between two values; a value does not interfere with
    /// itself.
    pub fn add_edge(&mut self, a: ValueId, b: ValueId)
        requires
            old(self).wf(),
            a.0 < usize::MAX,
            b.0 < usize::MAX,
        ensures
            final(self).wf(),
            a == b ==> final(self).vals() == old(self).vals() && forall|u: ValueId|
                #[trigger] final(self).adj(u) == old(self).adj(u),
            a != b ==> {
                &&& final(self).vals() == with_value(with_value(old(self).vals(), a), b)
                &&& forall|u: ValueId| #[trigger]
                    final(self).adj(u) == if u == a {
                        old(self).adj(u).push(b)
                    } else if u == b {
                        old(self).adj(u).push(a)
                    } else {
                        old(self).adj(u)
                    }
            },
            forall|u: ValueId| #[trigger] final(self).color(u) == old(self).color(u),
    {
        if a.0 == b.0 {
            return;
        }
        self.ensure_capacity(a);
        self.ensure_capacity(b);
        let ghost grown = *self;
        let ai: usize = a.0 as usize;
        let bi: usize = b.0 as usize;
        self.neighbors[ai].push(b);
        self.neighbors[bi].push(a);
        if !self.holds(a) {
            self.values.push(a);
        }
        if !self.holds(b) {
            self.values.push(b);
        }
        proof {
            lemma_with_value(old(self).vals(), a);
            lemma_with_value(with_value(old(self).vals(), a), b);
            assert forall|u: ValueId| #[trigger]
                self.adj(u) == if u == a {
                    old(self).adj(u).push(b)
                } else if u == b {
                    old(self).adj(u).push(a)
                } else {
                    old(self).adj(u)
                } by {
                assert(grown.adj(u) == old(self).adj(u));
            }
            assert forall|u: ValueId| #[trigger] self.color(u) == old(self).color(u) by {
                assert(grown.color(u) == old(self).color(u));
            }
            assert forall|u: ValueId, w: ValueId| #[trigger] self.adj(u).contains(w) implies u != w
                && self.adj(w).contains(u) && self.vals().contains(u) by {
                lemma_push_contains(old(self).adj(a), b);
                lemma_push_contains(old(self).adj(b), a);
            }
        }
    }

    /// Bind a value to a register.
    pub fn precolor(&mut self, v: ValueId, reg: Reg)
        requires
            old(self).wf(),
            v.0 < usize::MAX,
        ensures
            final(self).wf(),
            final(self).vals() == with_value(old(self).vals(), v),
            forall|u: ValueId| #[trigger] final(self).adj(u) == old(self).adj(u),
            forall|u: ValueId| #[trigger]
                final(self).color(u) == if u == v {
                    Some(reg)
                } else {
                    old(self).color(u)
                },
    {
        self.add_value(v);
        let ghost added = *self;
        proof {
            lemma_with_value(old(self).vals(), v);
            assert(self.vals().contains(v));
            let i = self.values@.index_of(v);
            assert(self.values@[i] == v);
        }
        self.precolored[v.0 as usize] = Some(reg);
        assert forall|u: ValueId| #[trigger] self.adj(u) == old(self).adj(u) by {
            assert(added.adj(u) == old(self).adj(u));
        }
        assert forall|u: ValueId| #[trigger]
            self.color(u) == if u == v {
                Some(reg)
            } else {
                old(self).color(u)
            } by {
            assert(added.color(u) == old(self).color(u));
        }
    }

    /// Number of interferences of a value, repeated ones counted.
    #[must_use]
    pub fn degree(&self, v: ValueId) -> (n: usize)
        ensures
            n == self.adj(v).len(),
    {
        let idx: usize = v.0 as usize;
        if idx < self.neighbors.len() {
            self.neighbors[idx].len()
        } else {
            0
        }
    }

    /// Sort all neighbor lists and drop repetitions.
    pub fn dedup_edges(&mut self)
        requires
            old(self).wf(),
        ensures
            final(self).wf(),
            final(self).vals() == old(self).vals(),
            forall|u: ValueId| sorted_set(#[trigger] final(self).adj(u), old(self).adj(u)),
            forall|u: ValueId| #[trigger] final(self).color(u) == old(self).color(u),
    {
        let n: usize = self.neighbors.len();
        let mut i: usize = 0;
        while i < n
            invariant
                i <= n,
                n == self.neighbors@.len(),
                n == old(self).neighbors@.len(),
                self.values@ == old(self).values@,
                self.precolored@ == old(self).precolored@,
                forall|j: int|
                    0 <= j < i ==> sorted_set(
                        (#[trigger] self.neighbors@[j])@,
                        old(self).neighbors@[j]@,
                    ),
                forall|j: int|
                    i <= j < n ==> (#[trigger] self.neighbors@[j])@ == old(self).neighbors@[j]@,
            decreases n - i,
        {
            let row = sort_dedup(&self.neighbors[i]);
            self.neighbors[i] = row;
            i += 1;
        }
        proof {
            assert forall|u: ValueId| sorted_set(#[trigger] self.adj(u), old(self).adj(u)) by {
                if u.0 < n {
                    assert(sorted_set(
                        self.neighbors@[u.0 as int]@,
                        old(self).neighbors@[u.0 as int]@,
                    ));
                }
            }
            assert forall|u: ValueId, w: ValueId| #[trigger] self.adj(u).contains(w) implies u != w
                && self.adj(w).contains(u) && self.vals().contains(u) by {
                assert(sorted_set(self.adj(u), old(self).adj(u)));
                assert(sorted_set(self.adj(w), old(self).adj(w)));
            }
            assert forall|u: ValueId| #[trigger] self.color(u) == old(self).color(u) by {}
        }
    }

    /// All values in the graph.
    #[must_use]
    pub fn values(&self) -> (r: &[ValueId])
        ensures
            r@ == self.vals(),
    {
        self.values.as_slice()
    }

    /// The neighbors of a value.
    #[must_use]
    pub fn neighbors(&self, v: ValueId) -> (r: &[ValueId])
        ensures
            r@ == self.adj(v),
    {
        let idx: usize = v.0 as usize;
        if idx < self.neighbors.len() {
            self.neighbors[idx].as_slice()
        } else {
            &[]
        }
    }

    /// True if a value is bound to a register.
    #[must_use]
    pub fn is_precolored(&self, v: ValueId) -> (b: bool)
        ensures
            b == self.color(v) is Some,
    {
        let idx: usize = v.0 as usize;
        idx < self.precolored.len() && self.precolored[idx].is_some()
    }

    /// The register a value is bound to, if any.
    #[must_use]
    pub fn precolor_of(&self, v: ValueId) -> (r: Option<Reg>)
        ensures
            r == self.color(v),
    {
        let idx: usize = v.0 as usize;
        if idx < self.precolored.len() {
            self.precolored[idx]
        } else {
            None
        }
    }

    /// Number of values.
    #[must_use]
    pub fn len(&self) -> (n: usize)
        ensures
            n == self.vals().len(),
    {
        self.values.len()
    }

    /// True if there are no values.
    #[must_use]
    pub fn is_empty(&self) -> (b: bool)
        ensures
            b == (self.vals().len() == 0),
    {
        self.values.len() == 0
    }
}

impl Default for InterferenceGraph {
    fn default() -> (g: InterferenceGraph)
        ensures
            g.wf(),
            g.vals() == Seq::<ValueId>::empty(),
            forall|v: ValueId| (#[trigger] g.adj(v)).len() == 0,
            forall|v: ValueId| (#[trigger] g.color(v)) is None,
    {
        InterferenceGraph::new()
    }
}

proof fn lemma_push_contains(s: Seq<ValueId>, v: ValueId)
    ensures
        forall|u: ValueId| #[trigger] s.push(v).contains(u) <==> s.contains(u) || u == v,
{
    assert forall|u: ValueId| #[trigger] s.push(v).contains(u) <==> s.contains(u) || u == v by {
        if s.contains(u) {
            assert(s.push(v)[s.index_of(u)] == u);
        }
        if u == v {
            assert(s.push(v)[s.len() as int] == u);
        }
        if s.push(v).contains(u) && u != v {
            let i = s.push(v).index_of(u);
            assert(s[i] == u);
        }
    }
}

proof fn lemma_with_value(s: Seq<ValueId>, v: ValueId)
    ensures
        s.no_duplicates() ==> with_value(s, v).no_duplicates(),
        forall|u: ValueId| #[trigger] with_value(s, v).contains(u) <==> s.contains(u) || u == v,
{
    lemma_push_contains(s, v);
}

/// The elements of `s` once each, in increasing order.
fn sort_dedup(s: &Vec<ValueId>) -> (t: Vec<ValueId>)
    ensures
        sorted_set(t@, s@),
{
    let mut t: Vec<ValueId> = Vec::new();
    let mut i: usize = 0;
    assert(sorted_set(t@, s@.take(0)));
    while i < s.len()
        invariant
            i <= s@.len(),
            sorted_set(t@, s@.take(i as int)),
        decreases s@.len() - i,
    {
        let v: ValueId = s[i];
        let mut k: usize = t.len();
        while k > 0 && t[k - 1].0 > v.0
            invariant
                k <= t@.len(),
                forall|j: int| k <= j < t@.len() ==> (#[trigger] t@[j]).0 > v.0,
            decreases k,
        {
            k -= 1;
        }
        let ghost was = t@;
        proof {
            assert(s@.take(i as int + 1) =~= s@.take(i as int).push(v));
            lemma_push_contains(s@.take(i as int), v);
        }
        if k > 0 && t[k - 1].0 == v.0 {
            assert(t@[k as int - 1] == v);
        } else {
            t.insert(k, v);
            proof {
                assert forall|u: ValueId| #[trigger] t@.contains(u) <==> was.contains(u) || u
                    == v by {
                    if was.contains(u) {
                        let j = was.index_of(u);
                        if j < k {
                            assert(t@[j] == u);
                        } else {
                            assert(t@[j + 1] == u);
                        }
                    }
                    if u == v {
                        assert(t@[k as int] == v);
                    }
                    if t@.contains(u) && u != v {
                        let j = t@.index_of(u);
                        if j < k {
                            assert(was[j] == u);
                        } else {
                            assert(was[j - 1] == u);
                        }
                    }
                }
                assert forall|a: int, b: int| 0 <= a < b < t@.len() implies #[trigger] t@[a].0
                    < #[trigger] t@[b].0 by {
                    let x = if a < k {
                        a
                    } else {
                        a - 1
                    };
                    let y = if b < k {
                        b
                    } else {
                        b - 1
                    };
                    if a != k && b != k {
                        assert(was[x].0 < was[y].0);
                    }
                    if b == k && k > 0 && a < k - 1 {
                        assert(was[a].0 < was[k - 1].0);
                    }
                }
            }
        }
        i += 1;
    }
    assert(s@.take(i as int) =~= s@);
    t
}

} // verus!
