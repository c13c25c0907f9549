//! Reachability, and relinking: the reachable part of an arena over given
//! declaration tables.

use crate::arena::model::{
    lemma_operands_push, lemma_term_kids, lemma_weight_expand, nary_len, operands, ArenaModel,
    Term,
};
use crate::arena::rewrite::{
    append_keeps_terms, appended_copy, buffer_slot, copied, copied_all, emitted, extends, filled,
    find_buffer, find_uniform, lemma_buffer_slot, lemma_copied_map, lemma_filled_update,
    lemma_new_term, lemma_uniform_slot, lemma_wf_append, mapped_kids, uniform_slot, whole_copy,
    Copying, Policy,
};
use crate::arena::{
    copy_buffers, copy_uniforms, BufferDecl, BufferId, ExprArena, ExprId, ExprNode, UniformDecl,
    UniformId,
};
use vstd::prelude::*;

verus! {

/// Node `i` occurs in the expression at node `from`.
pub open spec fn reaches(m: ArenaModel, from: int, i: int) -> bool
    decreases from,
{
    from == i || exists|j: int|
        0 <= j < m.kids(from).len() && 0 <= (#[trigger] m.kids(from)[j]).0 < from && reaches(
            m,
            m.kids(from)[j].0 as int,
            i,
        )
}

/// How many nodes below `i` occur in the expression at `root`.
pub open spec fn rank(m: ArenaModel, root: int, i: int) -> nat
    decreases i,
{
    if i <= 0 {
        0
    } else {
        rank(m, root, i - 1) + if reaches(m, root, i - 1) {
            1nat
        } else {
            0nat
        }
    }
}

/// A leaf with its slot replaced by the one the given tables assign.
pub open spec fn relinked_leaf(
    m: ArenaModel,
    n: ExprNode,
    buffers: Seq<BufferDecl>,
    uniforms: Seq<UniformDecl>,
) -> ExprNode {
    match n {
        ExprNode::Buffer(b) => ExprNode::Buffer(
            BufferId(buffer_slot(buffers, m.buffers[b.0 as int].id)->Some_0 as u16),
        ),
        ExprNode::Uniform(u) => ExprNode::Uniform(
            UniformId(uniform_slot(uniforms, m.uniforms[u.0 as int].id)->Some_0 as u16),
        ),
        other => other,
    }
}

/// The ids a list of nodes has after unreachable nodes are dropped.
pub open spec fn ranks(m: ArenaModel, root: int, ids: Seq<ExprId>) -> Seq<ExprId> {
    Seq::new(ids.len(), |j: int| ExprId(rank(m, root, ids[j].0 as int) as u32))
}

/// The reachable ones among the first `n` nodes, in their order, over the
/// given tables.
pub open spec fn relinked(
    m: ArenaModel,
    root: int,
    buffers: Seq<BufferDecl>,
    uniforms: Seq<UniformDecl>,
    n: int,
) -> ArenaModel
    decreases n,
{
    if n <= 0 {
        ArenaModel { nodes: Seq::empty(), nary: Seq::empty(), buffers, uniforms }
    } else {
        let before = relinked(m, root, buffers, uniforms, n - 1);
        if reaches(m, root, n - 1) {
            appended_copy(
                before,
                relinked_leaf(m, m.nodes[n - 1], buffers, uniforms),
                ranks(m, root, m.kids(n - 1)),
            )
        } else {
            before
        }
    }
}

/// Every declaration a reachable leaf names is in the given tables, unchanged.
pub open spec fn link_covers(
    m: ArenaModel,
    root: int,
    buffers: Seq<BufferDecl>,
    uniforms: Seq<UniformDecl>,
) -> bool {
    forall|i: int|
        0 <= i < m.nodes.len() && reaches(m, root, i) ==> match #[trigger] m.nodes[i] {
            ExprNode::Buffer(b) => {
                let d = m.buffers[b.0 as int];
                buffer_slot(buffers, d.id) matches Some(k) && k <= u16::MAX && buffers[k] == d
            },
            ExprNode::Uniform(u) => {
                let d = m.uniforms[u.0 as int];
                uniform_slot(uniforms, d.id) matches Some(k) && k <= u16::MAX && uniforms[k] == d
            },
            _ => true,
        }
}

/// Everything reachable lies at or below the root.
pub proof fn lemma_reaches_below(m: ArenaModel, from: int, i: int)
    requires
        reaches(m, from, i),
    ensures
        i <= from,
        0 <= from ==> 0 <= i,
    decreases from,
{
    if from != i {
        let j = choose|j: int|
            0 <= j < m.kids(from).len() && 0 <= (#[trigger] m.kids(from)[j]).0 < from && reaches(
                m,
                m.kids(from)[j].0 as int,
                i,
            );
        lemma_reaches_below(m, m.kids(from)[j].0 as int, i);
    }
}

/// An operand of a reachable node is reachable.
pub proof fn lemma_reaches_kid(m: ArenaModel, from: int, i: int, j: int)
    requires
        m.wf(),
        0 <= i < m.nodes.len(),
        0 <= from < m.nodes.len(),
        reaches(m, from, i),
        0 <= j < m.kids(i).len(),
    ensures
        reaches(m, from, m.kids(i)[j].0 as int),
    decreases from,
{
    lemma_term_kids(m, from);
    lemma_term_kids(m, i);
    let k = m.kids(i)[j].0 as int;
    if from == i {
        assert(0 <= m.kids(from)[j].0 < from);
        assert(reaches(m, k, k));
    } else {
        let h = choose|h: int|
            0 <= h < m.kids(from).len() && 0 <= (#[trigger] m.kids(from)[h]).0 < from && reaches(
                m,
                m.kids(from)[h].0 as int,
                i,
            );
        lemma_reaches_kid(m, m.kids(from)[h].0 as int, i, j);
    }
}

/// A marking closed under operands marks everything its members reach.
pub proof fn lemma_closed_reaches(m: ArenaModel, marked: spec_fn(int) -> bool, from: int, i: int)
    requires
        m.wf(),
        0 <= from < m.nodes.len(),
        marked(from),
        reaches(m, from, i),
        forall|a: int, j: int|
            0 <= a < m.nodes.len() && #[trigger] marked(a) && 0 <= j < m.kids(a).len() ==> marked(
                (#[trigger] m.kids(a)[j]).0 as int,
            ),
    ensures
        marked(i),
    decreases from,
{
    if from != i {
        let j = choose|j: int|
            0 <= j < m.kids(from).len() && 0 <= (#[trigger] m.kids(from)[j]).0 < from && reaches(
                m,
                m.kids(from)[j].0 as int,
                i,
            );
        lemma_closed_reaches(m, marked, m.kids(from)[j].0 as int, i);
    }
}

/// Relinking keeps the relative order of reachable nodes.
pub proof fn rank_keeps_order(m: ArenaModel, root: int, i: int, j: int)
    requires
        0 <= i < j,
        reaches(m, root, i),
    ensures
        rank(m, root, i) < rank(m, root, j),
    decreases j,
{
    if j > i + 1 {
        rank_keeps_order(m, root, i, j - 1);
    }
}

pub proof fn lemma_rank_bound(m: ArenaModel, root: int, i: int)
    requires
        0 <= i,
    ensures
        rank(m, root, i) <= i,
    decreases i,
{
    if i > 0 {
        lemma_rank_bound(m, root, i - 1);
    }
}

proof fn lemma_operands_take(nodes: Seq<ExprNode>, n: int)
    requires
        0 <= n < nodes.len(),
    ensures
        operands(nodes.take(n + 1)) == operands(nodes.take(n)) + nary_len(nodes[n]),
{
    assert(nodes.take(n + 1) =~= nodes.take(n).push(nodes[n]));
    lemma_operands_push(nodes.take(n), nodes[n]);
}

proof fn lemma_operands_bound(nodes: Seq<ExprNode>, n: int)
    requires
        0 <= n <= nodes.len(),
    ensures
        operands(nodes.take(n)) <= operands(nodes),
    decreases nodes.len() - n,
{
    if n < nodes.len() {
        lemma_operands_take(nodes, n);
        lemma_operands_bound(nodes, n + 1);
    } else {
        assert(nodes.take(n) =~= nodes);
    }
}

/// What holds of the relinked prefix of length `n`.
spec fn link_ok(
    m: ArenaModel,
    root: int,
    buffers: Seq<BufferDecl>,
    uniforms: Seq<UniformDecl>,
    n: int,
) -> bool {
    let out = relinked(m, root, buffers, uniforms, n);
    &&& out.wf()
    &&& out.buffers == buffers
    &&& out.uniforms == uniforms
    &&& out.nodes.len() == rank(m, root, n)
    &&& out.nary.len() <= operands(m.nodes.take(n))
    &&& forall|i: int|
        #![trigger reaches(m, root, i)]
        0 <= i < n && reaches(m, root, i) ==> {
            &&& rank(m, root, i) < out.nodes.len()
            &&& out.term(rank(m, root, i) as int).unslotted() == m.term(i).unslotted()
        }
}

/// The relinked copy of a reachable node denotes what the node denoted.
proof fn lemma_link_copy(
    m: ArenaModel,
    root: int,
    buffers: Seq<BufferDecl>,
    uniforms: Seq<UniformDecl>,
    n: int,
)
    requires
        m.wf(),
        0 <= root < m.nodes.len(),
        0 <= n < m.nodes.len(),
        reaches(m, root, n),
        link_covers(m, root, buffers, uniforms),
        link_ok(m, root, buffers, uniforms, n),
        relinked(m, root, buffers, uniforms, n).nodes.len() <= u32::MAX,
        relinked(m, root, buffers, uniforms, n).nary.len() <= u32::MAX,
    ensures
        ({
            let a = relinked(m, root, buffers, uniforms, n);
            let b = relinked(m, root, buffers, uniforms, n + 1);
            &&& b.wf()
            &&& extends(a, b)
            &&& b.nodes.len() == a.nodes.len() + 1
            &&& b.nary.len() == a.nary.len() + nary_len(m.nodes[n])
            &&& b.term(a.nodes.len() as int).unslotted() == m.term(n).unslotted()
        }),
{
    let a = relinked(m, root, buffers, uniforms, n);
    let b = relinked(m, root, buffers, uniforms, n + 1);
    let node = m.nodes[n];
    let ks = ranks(m, root, m.kids(n));
    let p = a.nodes.len() as int;
    lemma_term_kids(m, n);
    assert(m.node_ok(n, node));
    assert forall|j: int| 0 <= j < ks.len() implies a.has(#[trigger] ks[j]) && ks[j].0 == rank(
        m,
        root,
        m.kids(n)[j].0 as int,
    ) by {
        lemma_reaches_kid(m, root, n, j);
        assert(m.kids(n)[j].0 < n);
        rank_keeps_order(m, root, m.kids(n)[j].0 as int, n);
    }
    lemma_link_node(m, root, buffers, uniforms, n, ks);
    lemma_wf_append(a, b);
    lemma_new_term(a, b, ks);
    let t = b.term(p);
    assert forall|j: int| 0 <= j < ks.len() implies #[trigger] t.unslotted().kids[j] == m.term(
        n,
    ).unslotted().kids[j] by {
        lemma_reaches_kid(m, root, n, j);
        assert(t.kids[j] == a.term(ks[j].0 as int));
        assert(m.term(n).kids[j] == m.term(m.kids(n)[j].0 as int));
    }
    assert(t.unslotted().kids =~= m.term(n).unslotted().kids);
}

/// The relinked copy of a reachable node is acceptable where it lands.
proof fn lemma_link_node(
    m: ArenaModel,
    root: int,
    buffers: Seq<BufferDecl>,
    uniforms: Seq<UniformDecl>,
    n: int,
    ks: Seq<ExprId>,
)
    requires
        m.wf(),
        0 <= n < m.nodes.len(),
        reaches(m, root, n),
        link_covers(m, root, buffers, uniforms),
        ks == ranks(m, root, m.kids(n)),
        forall|j: int|
            0 <= j < ks.len() ==> relinked(m, root, buffers, uniforms, n).has(#[trigger] ks[j]),
        relinked(m, root, buffers, uniforms, n).buffers == buffers,
        relinked(m, root, buffers, uniforms, n).uniforms == uniforms,
        relinked(m, root, buffers, uniforms, n).nary.len() <= u32::MAX,
    ensures
        ({
            let a = relinked(m, root, buffers, uniforms, n);
            let b = relinked(m, root, buffers, uniforms, n + 1);
            let p = a.nodes.len() as int;
            &&& extends(a, b)
            &&& b.nodes.len() == a.nodes.len() + 1
            &&& b.nary.len() == a.nary.len() + nary_len(m.nodes[n])
            &&& b.kids(p) == ks
            &&& b.node_ok(p, b.nodes[p])
            &&& (Term { head: b.head_of(b.nodes[p]), kids: Seq::empty() }).unslotted().head == (
            Term { head: m.head_of(m.nodes[n]), kids: Seq::empty() }).unslotted().head
        }),
{
    let a = relinked(m, root, buffers, uniforms, n);
    let b = relinked(m, root, buffers, uniforms, n + 1);
    let node = m.nodes[n];
    let p = a.nodes.len() as int;
    assert(m.node_ok(n, node));
    match node {
        ExprNode::Buffer(x) => {
            lemma_buffer_slot(buffers, m.buffers[x.0 as int].id);
        },
        ExprNode::Uniform(x) => {
            lemma_uniform_slot(uniforms, m.uniforms[x.0 as int].id);
        },
        _ => {},
    }
    assert(b.kids(p) =~= ks);
    assert forall|j: int| 0 <= j < b.kids_of(b.nodes[p]).len() implies (#[trigger] b.kids_of(
        b.nodes[p],
    )[j]).0 < p by {
        assert(a.has(ks[j]));
    }
}

/// One more reachable node: the prefix grows by its relinked copy.
proof fn lemma_link_step(
    m: ArenaModel,
    root: int,
    buffers: Seq<BufferDecl>,
    uniforms: Seq<UniformDecl>,
    n: int,
)
    requires
        m.wf(),
        operands(m.nodes) <= u32::MAX,
        0 <= root < m.nodes.len(),
        0 <= n < m.nodes.len(),
        link_covers(m, root, buffers, uniforms),
        link_ok(m, root, buffers, uniforms, n),
    ensures
        link_ok(m, root, buffers, uniforms, n + 1),
        relinked(m, root, buffers, uniforms, n).nodes.len() <= u32::MAX,
        relinked(m, root, buffers, uniforms, n).nary.len() <= u32::MAX,
{
    let a = relinked(m, root, buffers, uniforms, n);
    let b = relinked(m, root, buffers, uniforms, n + 1);
    lemma_rank_bound(m, root, n);
    lemma_operands_take(m.nodes, n);
    lemma_operands_bound(m.nodes, n);
    lemma_operands_bound(m.nodes, n + 1);
    if reaches(m, root, n) {
        lemma_link_copy(m, root, buffers, uniforms, n);
        assert forall|i: int|
            #![trigger reaches(m, root, i)]
            0 <= i < n + 1 && reaches(m, root, i) implies {
            &&& rank(m, root, i) < b.nodes.len()
            &&& b.term(rank(m, root, i) as int).unslotted() == m.term(i).unslotted()
        } by {
            if i < n {
                append_keeps_terms(a, b, rank(m, root, i) as int);
            }
        }
    }
}

/// Whether each kid of a marked node is marked or waiting.
spec fn frontier_ok(m: ArenaModel, seen: Seq<bool>, stack: Seq<ExprId>) -> bool {
    forall|a: int, j: int|
        #![trigger seen[a], m.kids(a)[j]]
        0 <= a < m.nodes.len() && seen[a] && 0 <= j < m.kids(a).len() ==> seen[m.kids(
            a,
        )[j].0 as int] || stack.contains(m.kids(a)[j])
}

impl ExprArena {
    /// Which nodes occur in the expression at `root`.
    pub(crate) fn reachable(&self, root: ExprId) -> (seen: Vec<bool>)
        requires
            self@.wf(),
            self@.has(root),
        ensures
            seen@.len() == self@.nodes.len(),
            forall|i: int|
                0 <= i < seen@.len() ==> #[trigger] seen@[i] == reaches(self@, root.0 as int, i),
    {
        let ghost m = self@;
        let ghost top = root.0 as int;
        let n: usize = self.len();
        let mut seen: Vec<bool> = vec![false; n];
        let mut stack: Vec<ExprId> = Vec::new();
        stack.push(root);
        assert(stack@[0] == root);
        while stack.len() > 0
            invariant
                m == self@,
                m.wf(),
                top == root.0,
                m.has(root),
                seen@.len() == m.nodes.len(),
                seen@[top] || stack@.contains(root),
                forall|k: int|
                    0 <= k < stack@.len() ==> m.has(#[trigger] stack@[k]) && reaches(
                        m,
                        top,
                        stack@[k].0 as int,
                    ),
                forall|i: int| 0 <= i < seen@.len() && #[trigger] seen@[i] ==> reaches(m, top, i),
                frontier_ok(m, seen@, stack@),
            decreases m.weight(stack@),
        {
            let ghost s = stack@;
            let ghost was = seen@;
            let id: ExprId = match stack.pop() {
                Some(x) => x,
                None => root,
            };
            proof {
                assert(s[s.len() - 1] == id);
                assert(m.has(s[s.len() - 1]));
                lemma_weight_expand(m, s);
                lemma_term_kids(m, id.0 as int);
                assert forall|x: ExprId| s.contains(x) implies x == id || stack@.contains(x) by {
                    let k = choose|k: int| 0 <= k < s.len() && s[k] == x;
                    if k < stack@.len() {
                        assert(stack@[k] == x);
                    }
                }
            }
            if !seen[id.0 as usize] {
                seen.set(id.0 as usize, true);
                let ghost base = stack@;
                self.push_children(id, &mut stack);
                proof {
                    let kids = m.kids(id.0 as int);
                    assert forall|x: ExprId| base.contains(x) implies stack@.contains(x) by {
                        let k = choose|k: int| 0 <= k < base.len() && base[k] == x;
                        assert(stack@[k] == x);
                    }
                    assert forall|k: int| 0 <= k < stack@.len() implies m.has(#[trigger] stack@[k])
                        && reaches(m, top, stack@[k].0 as int) by {
                        if k < base.len() {
                            assert(stack@[k] == s[k]);
                        } else {
                            let j = k - base.len();
                            assert(stack@[k] == kids[j]);
                            lemma_reaches_kid(m, top, id.0 as int, j);
                        }
                    }
                    assert forall|a: int, j: int|
                        #![trigger seen@[a], m.kids(a)[j]]
                        0 <= a < m.nodes.len() && seen@[a] && 0 <= j < m.kids(
                            a,
                        ).len() implies seen@[m.kids(a)[j].0 as int] || stack@.contains(
                        m.kids(a)[j],
                    ) by {
                        lemma_term_kids(m, a);
                        if a == id.0 {
                            assert(stack@[base.len() + j] == kids[j]);
                        } else {
                            assert(was[a]);
                            assert(was[m.kids(a)[j].0 as int] || s.contains(m.kids(a)[j]));
                        }
                    }
                }
            } else {
                proof {
                    assert forall|a: int, j: int|
                        #![trigger seen@[a], m.kids(a)[j]]
                        0 <= a < m.nodes.len() && seen@[a] && 0 <= j < m.kids(
                            a,
                        ).len() implies seen@[m.kids(a)[j].0 as int] || stack@.contains(
                        m.kids(a)[j],
                    ) by {
                        assert(was[m.kids(a)[j].0 as int] || s.contains(m.kids(a)[j]));
                    }
                }
            }
        }
        proof {
            let marked = |i: int| 0 <= i < seen@.len() && seen@[i];
            assert forall|a: int, j: int|
                0 <= a < m.nodes.len() && #[trigger] marked(a) && 0 <= j < m.kids(
                    a,
                ).len() implies marked((#[trigger] m.kids(a)[j]).0 as int) by {
                lemma_term_kids(m, a);
                assert(seen@[a]);
                assert(0 <= m.kids(a)[j].0 < a);
            }
            assert forall|i: int| 0 <= i < seen@.len() implies #[trigger] seen@[i] == reaches(
                m,
                top,
                i,
            ) by {
                if reaches(m, top, i) {
                    lemma_closed_reaches(m, marked, top, i);
                }
            }
        }
        seen
    }

    /// A node with its table slot replaced by the one the given tables assign.
    fn relink_leaf(
        &self,
        node: ExprNode,
        buffers: &[BufferDecl],
        uniforms: &[UniformDecl],
    ) -> (leaf: ExprNode)
        requires
            self@.slot_ok(node),
            node matches ExprNode::Buffer(b) ==> buffer_slot(
                buffers@,
                self@.buffers[b.0 as int].id,
            ) matches Some(k) && k <= u16::MAX,
            node matches ExprNode::Uniform(u) ==> uniform_slot(
                uniforms@,
                self@.uniforms[u.0 as int].id,
            ) matches Some(k) && k <= u16::MAX,
        ensures
            leaf == relinked_leaf(self@, node, buffers@, uniforms@),
    {
        match node {
            ExprNode::Buffer(b) => match find_buffer(buffers, self.buffers[b.0 as usize].id) {
                Some(i) => ExprNode::Buffer(BufferId(i as u16)),
                None => node,
            },
            ExprNode::Uniform(u) => match find_uniform(uniforms, self.uniforms[u.0 as usize].id) {
                Some(i) => ExprNode::Uniform(UniformId(i as u16)),
                None => node,
            },
            _ => node,
        }
    }

    /// The expression at `root` over the given declaration tables: slot `i` of
    /// the result names `buffers[i]` / `uniforms[i]`, reachable nodes keep
    /// their relative order, and unreachable ones are dropped.
    pub fn relink(
        &self,
        root: ExprId,
        buffers: &[BufferDecl],
        uniforms: &[UniformDecl],
    ) -> (r: (ExprArena, ExprId))
        requires
            self@.wf(),
            self@.has(root),
            operands(self@.nodes) <= u32::MAX,
            link_covers(self@, root.0 as int, buffers@, uniforms@),
        ensures
            r.0@ == relinked(
                self@,
                root.0 as int,
                buffers@,
                uniforms@,
                self@.nodes.len() as int,
            ),
            r.1.0 == rank(self@, root.0 as int, root.0 as int),
            r.0@.wf(),
            r.0@.has(r.1),
            r.0@.nodes.len() == rank(self@, root.0 as int, self@.nodes.len() as int),
            r.0@.term(r.1.0 as int).unslotted() == self@.term(root.0 as int).unslotted(),
    {
        let ghost m = self@;
        let ghost top = root.0 as int;
        let reachable = self.reachable(root);
        let mut out = ExprArena {
            nodes: Vec::with_capacity(self.nodes.len()),
            nary_children: Vec::new(),
            buffers: copy_buffers(buffers),
            uniforms: copy_uniforms(uniforms),
        };
        let mut dense: Vec<Option<ExprId>> = Vec::new();
        let mut idx: usize = 0;
        proof {
            assert(out@ =~= relinked(m, top, buffers@, uniforms@, 0));
            assert(m.nodes.take(0) =~= Seq::<ExprNode>::empty());
        }
        while idx < self.nodes.len()
            invariant
                m == self@,
                m.wf(),
                operands(m.nodes) <= u32::MAX,
                top == root.0,
                0 <= top < m.nodes.len(),
                idx <= m.nodes.len(),
                link_covers(m, top, buffers@, uniforms@),
                reachable@.len() == m.nodes.len(),
                forall|i: int|
                    0 <= i < m.nodes.len() ==> #[trigger] reachable@[i] == reaches(m, top, i),
                out@ == relinked(m, top, buffers@, uniforms@, idx as int),
                link_ok(m, top, buffers@, uniforms@, idx as int),
                dense@.len() == idx,
                forall|i: int|
                    0 <= i < idx && reaches(m, top, i) ==> #[trigger] dense@[i] == Some(
                        ExprId(rank(m, top, i) as u32),
                    ),
            decreases m.nodes.len() - idx,
        {
            proof {
                lemma_link_step(m, top, buffers@, uniforms@, idx as int);
            }
            if reachable[idx] {
                let id = ExprId(idx as u32);
                proof {
                    lemma_term_kids(m, idx as int);
                    assert(m.node_ok(idx as int, m.nodes[idx as int]));
                }
                let children = self.children(id).collect();
                proof {
                    assert forall|j: int| 0 <= j < children@.len() implies (
                    #[trigger] children@[j]).0 < dense@.len() && dense@[children@[j].0 as int] is Some
                        && dense@[children@[j].0 as int] == Some(
                        ExprId(rank(m, top, children@[j].0 as int) as u32),
                    ) by {
                        assert(m.kids(idx as int)[j].0 < idx);
                        lemma_reaches_kid(m, top, idx as int, j);
                    }
                }
                let kids = mapped_kids(&dense, &children);
                assert(kids@ =~= ranks(m, top, m.kids(idx as int)));
                let node: ExprNode = self.nodes[idx];
                let leaf: ExprNode = self.relink_leaf(node, buffers, uniforms);
                let new_id = out.push_copy(leaf, &kids);
                dense.push(Some(new_id));
            } else {
                dense.push(None);
            }
            idx += 1;
        }
        assert(reaches(m, top, top));
        assert(dense@[top] == Some(ExprId(rank(m, top, top) as u32)));
        let new_root: ExprId = match dense[root.0 as usize] {
            Some(r) => r,
            None => root,
        };
        (out, new_root)
    }
}

/// Mapped nodes have mapped operands.
spec fn map_closed(m: ArenaModel, map: Seq<Option<ExprId>>) -> bool {
    forall|a: int, j: int|
        #![trigger map[a], m.kids(a)[j]]
        0 <= a < m.nodes.len() && map[a] is Some && 0 <= j < m.kids(a).len() ==> map[m.kids(
            a,
        )[j].0 as int] is Some
}

proof fn lemma_splice_count(src: ArenaModel, st: Copying, i: int)
    requires
        src.wf(),
        0 <= i < src.nodes.len(),
        st.map.len() == src.nodes.len(),
        map_closed(src, st.map),
    ensures
        ({
            let c = copied(Policy::Splice, src, st, i);
            &&& map_closed(src, c.map)
            &&& c.dst.nodes.len() - st.dst.nodes.len() == filled(c.map) - filled(st.map)
            &&& forall|k: int|
                0 <= k < src.nodes.len() ==> ((#[trigger] c.map[k]) is Some <==> st.map[k] is Some
                    || reaches(src, i, k))
        }),
    decreases i, src.kids(i).len() + 1,
{
    lemma_term_kids(src, i);
    lemma_copied_map(Policy::Splice, src, st, i);
    let c = copied(Policy::Splice, src, st, i);
    if st.map[i] is Some {
        assert forall|k: int| 0 <= k < src.nodes.len() && reaches(src, i, k) implies st.map[k] is Some by {
            let marked = |x: int| 0 <= x < src.nodes.len() && st.map[x] is Some;
            assert forall|a: int, j: int|
                0 <= a < src.nodes.len() && #[trigger] marked(a) && 0 <= j < src.kids(
                    a,
                ).len() implies marked((#[trigger] src.kids(a)[j]).0 as int) by {
                lemma_term_kids(src, a);
                assert(st.map[a] is Some);
                assert(0 <= src.kids(a)[j].0 < a);
            }
            lemma_closed_reaches(src, marked, i, k);
        }
    } else {
        let mid = copied_all(Policy::Splice, src, st, i, src.kids(i));
        lemma_splice_count_all(src, st, i, src.kids(i));
        assert(mid.map[i] == st.map[i]);
        let v = emitted(Policy::Splice, src, mid, i).map[i]->Some_0;
        lemma_filled_update(mid.map, i, v);
        assert(c.map =~= mid.map.update(i, Some(v)));
        assert forall|a: int, j: int|
            #![trigger c.map[a], src.kids(a)[j]]
            0 <= a < src.nodes.len() && c.map[a] is Some && 0 <= j < src.kids(
                a,
            ).len() implies c.map[src.kids(a)[j].0 as int] is Some by {
            lemma_term_kids(src, a);
            assert(0 <= src.kids(a)[j].0 < a);
            if a == i {
                assert(mid.map[src.kids(i)[j].0 as int] is Some);
            } else {
                assert(mid.map[a] is Some);
                assert(mid.map[src.kids(a)[j].0 as int] is Some);
            }
        }
        assert forall|k: int| 0 <= k < src.nodes.len() implies ((#[trigger] c.map[k]) is Some
            <==> st.map[k] is Some || reaches(src, i, k)) by {
            if k != i {
                assert(mid.map[k] == c.map[k]);
                if mid.map[k] is Some && st.map[k] is None {
                    let j = choose|j: int|
                        0 <= j < src.kids(i).len() && reaches(
                            src,
                            (#[trigger] src.kids(i)[j]).0 as int,
                            k,
                        );
                    assert(0 <= src.kids(i)[j].0 < i);
                }
                if reaches(src, i, k) {
                    let j = choose|j: int|
                        0 <= j < src.kids(i).len() && 0 <= (#[trigger] src.kids(i)[j]).0 < i
                            && reaches(src, src.kids(i)[j].0 as int, k);
                    assert(reaches(src, src.kids(i)[j].0 as int, k));
                }
            }
        }
    }
}

proof fn lemma_splice_count_all(src: ArenaModel, st: Copying, bound: int, ids: Seq<ExprId>)
    requires
        src.wf(),
        0 <= bound <= src.nodes.len(),
        st.map.len() == src.nodes.len(),
        map_closed(src, st.map),
        forall|j: int| 0 <= j < ids.len() ==> 0 <= (#[trigger] ids[j]).0 < bound,
    ensures
        ({
            let c = copied_all(Policy::Splice, src, st, bound, ids);
            &&& c.map.len() == st.map.len()
            &&& map_closed(src, c.map)
            &&& c.dst.nodes.len() - st.dst.nodes.len() == filled(c.map) - filled(st.map)
            &&& forall|k: int| bound <= k < src.nodes.len() ==> #[trigger] c.map[k] == st.map[k]
            &&& forall|k: int|
                0 <= k < src.nodes.len() ==> ((#[trigger] c.map[k]) is Some <==> st.map[k] is Some
                    || exists|j: int|
                    0 <= j < ids.len() && reaches(src, (#[trigger] ids[j]).0 as int, k))
        }),
    decreases bound, ids.len(),
{
    if ids.len() > 0 {
        let x = ids[0].0 as int;
        let first = copied(Policy::Splice, src, st, x);
        lemma_splice_count(src, st, x);
        lemma_copied_map(Policy::Splice, src, st, x);
        let rest = ids.drop_first();
        assert forall|j: int| 0 <= j < rest.len() implies 0 <= (#[trigger] rest[j]).0 < bound by {
            assert(0 <= ids[j + 1].0 < bound);
        }
        lemma_splice_count_all(src, first, bound, rest);
        let c = copied_all(Policy::Splice, src, st, bound, ids);
        assert forall|k: int| 0 <= k < src.nodes.len() implies ((#[trigger] c.map[k]) is Some
            <==> st.map[k] is Some || exists|j: int|
            0 <= j < ids.len() && reaches(src, (#[trigger] ids[j]).0 as int, k)) by {
            assert(first.map[k] is Some <==> st.map[k] is Some || reaches(src, x, k));
            if exists|j: int|
                0 <= j < rest.len() && reaches(src, (#[trigger] rest[j]).0 as int, k) {
                let j = choose|j: int|
                    0 <= j < rest.len() && reaches(src, (#[trigger] rest[j]).0 as int, k);
                assert(ids[j + 1] == rest[j]);
            }
            if exists|j: int| 0 <= j < ids.len() && reaches(src, (#[trigger] ids[j]).0 as int, k) {
                let j = choose|j: int|
                    0 <= j < ids.len() && reaches(src, (#[trigger] ids[j]).0 as int, k);
                if j > 0 {
                    assert(rest[j - 1] == ids[j]);
                }
            }
        }
    }
}

proof fn lemma_filled_rank(m: ArenaModel, root: int, map: Seq<Option<ExprId>>, n: int)
    requires
        0 <= n <= map.len(),
        forall|k: int| 0 <= k < n ==> ((#[trigger] map[k]) is Some <==> reaches(m, root, k)),
    ensures
        filled(map.take(n)) == rank(m, root, n),
    decreases n,
{
    if n > 0 {
        lemma_filled_rank(m, root, map, n - 1);
        assert(map.take(n).drop_last() =~= map.take(n - 1));
        assert(map.take(n).last() == map[n - 1]);
    } else {
        assert(map.take(0) =~= Seq::<Option<ExprId>>::empty());
    }
}

/// Splicing copies every reachable node exactly once: a graph with shared
/// subexpressions stays one.
pub proof fn splice_copies_each_node_once(dst: ArenaModel, src: ArenaModel, root: ExprId)
    requires
        src.wf(),
        src.has(root),
    ensures
        whole_copy(Policy::Splice, src, dst, root).dst.nodes.len() == dst.nodes.len() + rank(
            src,
            root.0 as int,
            src.nodes.len() as int,
        ),
{
    let top = root.0 as int;
    let start = Copying { dst, map: Seq::new(src.nodes.len(), |i: int| None) };
    let c = copied(Policy::Splice, src, start, top);
    assert forall|i: int| 0 <= i < start.map.len() implies (#[trigger] start.map[i]) is None by {}
    crate::arena::rewrite::lemma_filled_none(start.map);
    lemma_splice_count(src, start, top);
    lemma_copied_map(Policy::Splice, src, start, top);
    assert forall|k: int| 0 <= k < c.map.len() implies ((#[trigger] c.map[k]) is Some <==> reaches(
        src,
        top,
        k,
    )) by {
        assert(start.map[k] is None);
    }
    lemma_filled_rank(src, top, c.map, src.nodes.len() as int);
    assert(c.map.take(src.nodes.len() as int) =~= c.map);
}

} // verus!
