//! Mathematical model of an arena: the node list, and the expression tree a
//! node denotes.

use crate::arena::{
    BufferDecl, BufferId, ExprId, ExprNode, UniformDecl, UniformId,
};
use crate::fold::Fold;
use crate::key::KernelKey;
use crate::kind::OpKind;
use vstd::prelude::*;

verus! {

/// The contents of an arena as mathematical sequences.
#[verifier::ext_equal]
pub struct ArenaModel {
    pub nodes: Seq<ExprNode>,
    pub nary: Seq<ExprId>,
    pub buffers: Seq<BufferDecl>,
    pub uniforms: Seq<UniformDecl>,
}

/// What the root of an expression is, apart from its operands. A buffer or
/// uniform leaf carries both its slot and the declaration found there.
pub enum Head {
    Var(u8),
    Const(u32),
    Param(u8),
    Buffer(BufferId, BufferDecl),
    Uniform(UniformId, UniformDecl),
    Ref(KernelKey),
    Unary(OpKind),
    Binary(OpKind),
    Ternary(OpKind),
    Nary(OpKind),
    Reduce(Fold),
}

/// An expression as a tree: shared subgraphs appear once per reference.
#[verifier::ext_equal]
pub struct Term {
    pub head: Head,
    pub kids: Seq<Term>,
}

impl ArenaModel {
    /// The arena without nodes or declarations.
    pub open spec fn empty() -> ArenaModel {
        ArenaModel {
            nodes: Seq::empty(),
            nary: Seq::empty(),
            buffers: Seq::empty(),
            uniforms: Seq::empty(),
        }
    }

    /// `id` names a node of this arena.
    pub open spec fn has(self, id: ExprId) -> bool {
        id.0 < self.nodes.len()
    }

    /// Another node can be appended and still be named by a 32-bit index.
    pub open spec fn has_room(self) -> bool {
        self.nodes.len() <= u32::MAX
    }

    /// The operand ids of a node stored in this arena.
    pub open spec fn kids_of(self, n: ExprNode) -> Seq<ExprId> {
        match n {
            ExprNode::Unary(_, a) => seq![a],
            ExprNode::Binary(_, a, b) => seq![a, b],
            ExprNode::Ternary(_, a, b, c) => seq![a, b, c],
            ExprNode::Nary(_, start, len) => self.nary.subrange(start as int, start + len),
            ExprNode::Reduce { fold: _, body } => seq![body],
            _ => Seq::empty(),
        }
    }

    /// The operand ids of node `i`.
    pub open spec fn kids(self, i: int) -> Seq<ExprId> {
        self.kids_of(self.nodes[i])
    }

    /// An n-ary node's operand range lies inside the operand table.
    pub open spec fn range_ok(self, n: ExprNode) -> bool {
        n matches ExprNode::Nary(_, start, len) ==> start + len <= self.nary.len()
    }

    /// A leaf naming a table slot names a declared one.
    pub open spec fn slot_ok(self, n: ExprNode) -> bool {
        &&& n matches ExprNode::Buffer(b) ==> b.0 < self.buffers.len()
        &&& n matches ExprNode::Uniform(u) ==> u.0 < self.uniforms.len()
    }

    /// Node `n` may stand at position `i`: its operands precede it, and its
    /// table references resolve.
    pub open spec fn node_ok(self, i: int, n: ExprNode) -> bool {
        &&& self.range_ok(n)
        &&& self.slot_ok(n)
        &&& forall|j: int| 0 <= j < self.kids_of(n).len() ==> (#[trigger] self.kids_of(n)[j]).0 < i
    }

    /// Well-formedness: operands come before the nodes that use them, every
    /// table reference resolves, and every node has a 32-bit index.
    pub open spec fn wf(self) -> bool {
        &&& self.nodes.len() <= u32::MAX + 1
        &&& forall|i: int|
            0 <= i < self.nodes.len() ==> self.node_ok(i, #[trigger] self.nodes[i])
    }

    /// No two n-ary nodes need more of the operand table than it holds: each
    /// owns its range, as appending makes it.
    pub open spec fn compact(self) -> bool {
        operands(self.nodes) <= self.nary.len()
    }

    /// What node `n` is apart from its operands.
    pub open spec fn head_of(self, n: ExprNode) -> Head {
        match n {
            ExprNode::Var(i) => Head::Var(i),
            ExprNode::Const(v) => Head::Const(v),
            ExprNode::Param(i) => Head::Param(i),
            ExprNode::Buffer(b) => Head::Buffer(b, self.buffers[b.0 as int]),
            ExprNode::Uniform(u) => Head::Uniform(u, self.uniforms[u.0 as int]),
            ExprNode::Ref(k) => Head::Ref(k),
            ExprNode::Unary(op, _) => Head::Unary(op),
            ExprNode::Binary(op, _, _) => Head::Binary(op),
            ExprNode::Ternary(op, _, _, _) => Head::Ternary(op),
            ExprNode::Nary(op, _, _) => Head::Nary(op),
            ExprNode::Reduce { fold, body: _ } => Head::Reduce(fold),
        }
    }

    /// The expression node `i` denotes.
    pub open spec fn term(self, i: int) -> Term
        decreases i,
    {
        Term {
            head: self.head_of(self.nodes[i]),
            kids: Seq::new(
                self.kids(i).len(),
                |j: int|
                    {
                        let k = self.kids(i)[j].0 as int;
                        if 0 <= k < i {
                            self.term(k)
                        } else {
                            arbitrary()
                        }
                    },
            ),
        }
    }

    /// Total number of tree nodes denoted by a list of node ids.
    pub open spec fn weight(self, ids: Seq<ExprId>) -> nat
        decreases ids.len(),
    {
        if ids.len() == 0 {
            0
        } else {
            self.weight(ids.drop_last()) + self.term(ids.last().0 as int).size()
        }
    }
}

impl Term {
    /// Number of tree nodes.
    pub open spec fn size(self) -> nat
        decreases self,
    {
        1 + Term::sizes(self.kids)
    }

    /// Number of tree nodes in a list of trees.
    pub open spec fn sizes(ts: Seq<Term>) -> nat
        decreases ts,
    {
        if ts.len() == 0 {
            0
        } else {
            Term::sizes(ts.drop_last()) + ts.last().size()
        }
    }

    /// Nodes on the longest path from the root to a leaf.
    pub open spec fn depth(self) -> nat
        decreases self,
    {
        1 + Term::depths(self.kids)
    }

    /// The greatest depth in a list of trees; zero for the empty list.
    pub open spec fn depths(ts: Seq<Term>) -> nat
        decreases ts,
    {
        if ts.len() == 0 {
            0
        } else if Term::depths(ts.drop_last()) >= ts.last().depth() {
            Term::depths(ts.drop_last())
        } else {
            ts.last().depth()
        }
    }

    /// Some subexpression satisfies `p`.
    pub open spec fn any(self, p: spec_fn(Term) -> bool) -> bool
        decreases self,
    {
        p(self) || exists|j: int| 0 <= j < self.kids.len() && (#[trigger] self.kids[j]).any(p)
    }

    /// A constant leaf equal to positive or negative zero.
    pub open spec fn is_zero_const(self) -> bool {
        self.head matches Head::Const(v) && v & 0x7FFF_FFFFu32 == 0
    }

    /// The root makes the expression degenerate: a NaN or infinite constant, a
    /// reciprocal of zero, or a division by zero.
    pub open spec fn degenerate_root(self) -> bool {
        ||| self.head matches Head::Const(v) && v & 0x7F80_0000u32 == 0x7F80_0000u32
        ||| self.head == Head::Unary(OpKind::Recip) && self.kids[0].is_zero_const()
        ||| self.head == Head::Binary(OpKind::Div) && self.kids[1].is_zero_const()
    }

    /// The first variable whose index lies in `lo..=hi`, searching the root
    /// before its operands and the last operand first.
    pub open spec fn first_var(self, lo: u8, hi: u8) -> Option<u8>
        decreases self,
    {
        match self.head {
            Head::Var(i) if lo <= i <= hi => Some(i),
            _ => Term::first_var_in(self.kids, lo, hi),
        }
    }

    /// [`Term::first_var`] over a list of expressions, last one first.
    pub open spec fn first_var_in(ts: Seq<Term>, lo: u8, hi: u8) -> Option<u8>
        decreases ts,
    {
        if ts.len() == 0 {
            None
        } else {
            match ts.last().first_var(lo, hi) {
                Some(i) => Some(i),
                None => Term::first_var_in(ts.drop_last(), lo, hi),
            }
        }
    }

    /// The expression with table slots forgotten: leaves keep the declaration
    /// they name. Two arenas with differently ordered tables agree on this.
    pub open spec fn unslotted(self) -> Term
        decreases self,
    {
        Term {
            head: match self.head {
                Head::Buffer(_, d) => Head::Buffer(BufferId(0), d),
                Head::Uniform(_, d) => Head::Uniform(UniformId(0), d),
                h => h,
            },
            kids: Seq::new(
                self.kids.len(),
                |j: int|
                    if 0 <= j < self.kids.len() {
                        self.kids[j].unslotted()
                    } else {
                        arbitrary()
                    },
            ),
        }
    }
}

/// How much of the operand table a node's range covers.
pub open spec fn nary_len(n: ExprNode) -> nat {
    match n {
        ExprNode::Nary(_, _, len) => len as nat,
        _ => 0,
    }
}

/// Total length of the operand ranges of a list of nodes.
pub open spec fn operands(nodes: Seq<ExprNode>) -> nat
    decreases nodes.len(),
{
    if nodes.len() == 0 {
        0
    } else {
        operands(nodes.drop_last()) + nary_len(nodes.last())
    }
}

/// Appending a node adds its own operand range to the total.
pub proof fn lemma_operands_push(nodes: Seq<ExprNode>, n: ExprNode)
    ensures
        operands(nodes.push(n)) == operands(nodes) + nary_len(n),
{
    assert(nodes.push(n).drop_last() =~= nodes);
}

/// A well-formed arena's operands denote the operands of the expression.
pub proof fn lemma_term_kids(m: ArenaModel, i: int)
    requires
        m.wf(),
        0 <= i < m.nodes.len(),
    ensures
        m.term(i).head == m.head_of(m.nodes[i]),
        m.term(i).kids.len() == m.kids(i).len(),
        forall|j: int|
            0 <= j < m.kids(i).len() ==> 0 <= (#[trigger] m.kids(i)[j]).0 < i,
        forall|j: int|
            0 <= j < m.kids(i).len() ==> #[trigger] m.term(i).kids[j] == m.term(
                m.kids(i)[j].0 as int,
            ),
{
    assert(m.node_ok(i, m.nodes[i]));
    assert forall|j: int| 0 <= j < m.kids(i).len() implies 0 <= (#[trigger] m.kids(i)[j]).0
        < i by {
        assert(m.kids_of(m.nodes[i])[j].0 < i);
    }
    assert forall|j: int| 0 <= j < m.kids(i).len() implies #[trigger] m.term(i).kids[j] == m.term(
        m.kids(i)[j].0 as int,
    ) by {
        assert(0 <= m.kids(i)[j].0 < i);
    }
}

/// Weight of a list followed by the operands of node `i`.
pub proof fn lemma_weight_kids(m: ArenaModel, base: Seq<ExprId>, i: int, n: int)
    requires
        m.wf(),
        0 <= i < m.nodes.len(),
        0 <= n <= m.kids(i).len(),
    ensures
        m.weight(base + m.kids(i).take(n)) == m.weight(base) + Term::sizes(
            m.term(i).kids.take(n),
        ),
    decreases n,
{
    lemma_term_kids(m, i);
    if n == 0 {
        assert(base + m.kids(i).take(0) =~= base);
        assert(m.term(i).kids.take(0) =~= Seq::<Term>::empty());
    } else {
        lemma_weight_kids(m, base, i, n - 1);
        let s = base + m.kids(i).take(n);
        assert(s.drop_last() =~= base + m.kids(i).take(n - 1));
        assert(s.last() == m.kids(i)[n - 1]);
        let ts = m.term(i).kids.take(n);
        assert(ts.drop_last() =~= m.term(i).kids.take(n - 1));
        assert(ts.last() == m.term(i).kids[n - 1]);
    }
}

/// Replacing the last listed node by its operands removes exactly the one
/// tree node that was its root.
pub proof fn lemma_weight_expand(m: ArenaModel, s: Seq<ExprId>)
    requires
        m.wf(),
        s.len() > 0,
        m.has(s.last()),
    ensures
        m.weight(s.drop_last() + m.kids(s.last().0 as int)) + 1 == m.weight(s),
        m.weight(s) >= m.weight(s.drop_last()) + 1,
{
    let i = s.last().0 as int;
    lemma_term_kids(m, i);
    lemma_weight_kids(m, s.drop_last(), i, m.kids(i).len() as int);
    assert(m.kids(i).take(m.kids(i).len() as int) =~= m.kids(i));
    assert(m.term(i).kids.take(m.kids(i).len() as int) =~= m.term(i).kids);
}

} // verus!
