//! Rebuilding an expression operands first, one node at a time.

use crate::arena::model::{lemma_term_kids, ArenaModel, Head, Term};
use crate::arena::order::{operands_first, postorder, postorder_lists_the_expression};
use crate::arena::rewrite::{append_keeps_terms, extends, images};
use crate::arena::{ExprId, ExprNode};
use crate::backend::emit::lowering::runner::{grown, terms_of};
use vstd::prelude::*;

verus! {

/// How one node is rebuilt: the arena so far, the node, and the new ids of its
/// operands give the arena after and the new id.
pub type Emit = spec_fn(ArenaModel, ExprNode, Seq<ExprId>) -> (ArenaModel, ExprId);

/// What a rebuilt node denotes, from its head and what its operands denote.
pub type Meaning = spec_fn(Head, Seq<Term>) -> Term;

/// A rebuild so far.
#[verifier::ext_equal]
pub struct Rebuilt {
    /// The arena.
    pub dst: ArenaModel,
    /// Where each node went.
    pub map: Seq<Option<ExprId>>,
}

/// The rebuild after the first `k` nodes of `order`.
pub open spec fn rebuilt(
    emit: Emit,
    src: ArenaModel,
    order: Seq<ExprId>,
    k: nat,
) -> Rebuilt
    decreases k,
{
    if k == 0 {
        Rebuilt { dst: src, map: Seq::new(src.nodes.len(), |i: int| None) }
    } else {
        let st = rebuilt(emit, src, order, (k - 1) as nat);
        let i = order[k - 1].0 as int;
        let (dst, id) = emit(st.dst, src.nodes[i], images(st.map, src.kids(i)));
        Rebuilt { dst, map: st.map.update(i, Some(id)) }
    }
}

/// The rebuilt expression at `root`: the arena, and its new root.
pub open spec fn rebuilt_root(emit: Emit, src: ArenaModel, root: ExprId) -> (ArenaModel, ExprId) {
    let order = postorder(src, root);
    let r = rebuilt(emit, src, order, order.len());
    (r.dst, r.map[root.0 as int]->0)
}

impl Term {
    /// The expression with every node, operands first, replaced by its meaning.
    pub open spec fn folded(self, mean: Meaning) -> Term
        decreases self,
    {
        mean(self.head, Term::folded_all(self.kids, mean))
    }

    /// Each expression of a list folded.
    pub open spec fn folded_all(ts: Seq<Term>, mean: Meaning) -> Seq<Term>
        decreases ts,
    {
        Seq::new(
            ts.len(),
            |j: int|
                if 0 <= j < ts.len() {
                    ts[j].folded(mean)
                } else {
                    arbitrary()
                },
        )
    }
}

/// An arena whose indices still fit.
pub open spec fn fits(m: ArenaModel) -> bool {
    m.nodes.len() <= u32::MAX + 1 && m.nary.len() <= u32::MAX
}

/// A rebuilding step only appends.
pub open spec fn only_grows(emit: Emit) -> bool {
    forall|m: ArenaModel, n: ExprNode, ks: Seq<ExprId>|
        (#[trigger] emit(m, n, ks)).0.nodes.len() >= m.nodes.len() && emit(m, n, ks).0.nary.len()
            >= m.nary.len()
}

/// A step of a rebuild does what its meaning says, wherever indices fit: node
/// `i` of `src` is placed with operands that are already there.
pub open spec fn step_means(
    emit: Emit,
    mean: Meaning,
    src: ArenaModel,
    m: ArenaModel,
    i: int,
    ks: Seq<ExprId>,
) -> bool {
    m.wf() && extends(src, m) && m.buffers == src.buffers && m.uniforms == src.uniforms
        && ks.len() == src.kids(i).len() && (forall|j: int|
        0 <= j < ks.len() ==> m.has(#[trigger] ks[j])) && operands_kept(src, m, i, ks) && fits(
        emit(m, src.nodes[i], ks).0,
    ) ==> grown(
        m,
        emit(m, src.nodes[i], ks),
        mean(src.head_of(src.nodes[i]), terms_of(m, ks)),
    )
}

/// Buffer operands are still buffer leaves.
pub open spec fn operands_kept(src: ArenaModel, m: ArenaModel, i: int, ks: Seq<ExprId>) -> bool {
    forall|j: int|
        0 <= j < ks.len() && src.nodes[(#[trigger] src.kids(i)[j]).0 as int] is Buffer
            ==> m.nodes[ks[j].0 as int] == src.nodes[src.kids(i)[j].0 as int]
}

/// Buffer leaves are copied as they are.
pub open spec fn keeps_buffers(emit: Emit) -> bool {
    forall|m: ArenaModel, n: ExprNode, ks: Seq<ExprId>|
        n is Buffer ==> (#[trigger] emit(m, n, ks)).0.nodes == m.nodes.push(n) && emit(m, n, ks).1
            == ExprId(m.nodes.len() as u32)
}

/// What holds of a rebuild after `k` nodes.
pub open spec fn rebuild_ok(
    mean: Meaning,
    src: ArenaModel,
    order: Seq<ExprId>,
    k: nat,
    st: Rebuilt,
) -> bool {
    &&& st.map.len() == src.nodes.len()
    &&& st.dst.wf()
    &&& extends(src, st.dst)
    &&& st.dst.buffers == src.buffers
    &&& st.dst.uniforms == src.uniforms
    &&& forall|p: int| 0 <= p < k ==> #[trigger] placed_ok(mean, src, st, order[p])
}

/// The node has been placed: its new id denotes its folded expression, and a
/// buffer leaf is still one.
pub open spec fn placed_ok(mean: Meaning, src: ArenaModel, st: Rebuilt, id: ExprId) -> bool {
    &&& st.map[id.0 as int] is Some
    &&& st.dst.has(st.map[id.0 as int]->0)
    &&& st.dst.term((st.map[id.0 as int]->0).0 as int) == src.term(id.0 as int).folded(mean)
    &&& src.nodes[id.0 as int] is Buffer ==> st.dst.nodes[(st.map[id.0 as int]->0).0 as int]
        == src.nodes[id.0 as int]
}

/// A rebuild never shrinks.
pub proof fn lemma_rebuilt_grows(emit: Emit, src: ArenaModel, order: Seq<ExprId>, j: nat, k: nat)
    requires
        only_grows(emit),
        j <= k,
    ensures
        rebuilt(emit, src, order, j).dst.nodes.len() <= rebuilt(emit, src, order, k).dst.nodes.len(),
        rebuilt(emit, src, order, j).dst.nary.len() <= rebuilt(emit, src, order, k).dst.nary.len(),
        rebuilt(emit, src, order, k).dst.nodes.len() >= src.nodes.len(),
        rebuilt(emit, src, order, k).dst.nary.len() >= src.nary.len(),
    decreases k,
{
    if k > 0 {
        if j < k {
            lemma_rebuilt_grows(emit, src, order, j, (k - 1) as nat);
        } else {
            lemma_rebuilt_grows(emit, src, order, (k - 1) as nat, (k - 1) as nat);
        }
        let st = rebuilt(emit, src, order, (k - 1) as nat);
        let i = order[k - 1].0 as int;
        let r = emit(st.dst, src.nodes[i], images(st.map, src.kids(i)));
        assert(r.0.nodes.len() >= st.dst.nodes.len());
    }
}

/// The operands of the next node have been placed.
pub proof fn lemma_operands_placed(
    mean: Meaning,
    src: ArenaModel,
    order: Seq<ExprId>,
    k: nat,
    st: Rebuilt,
)
    requires
        src.wf(),
        operands_first(src, order),
        k < order.len(),
        rebuild_ok(mean, src, order, k, st),
    ensures
        ({
            let i = order[k as int].0 as int;
            let ks = images(st.map, src.kids(i));
            &&& 0 <= i < src.nodes.len()
            &&& forall|j: int|
                0 <= j < src.kids(i).len() ==> (#[trigger] src.kids(i)[j]).0 < st.map.len()
                    && st.map[src.kids(i)[j].0 as int] is Some
            &&& forall|j: int| 0 <= j < ks.len() ==> st.dst.has(#[trigger] ks[j])
            &&& operands_kept(src, st.dst, i, ks)
            &&& terms_of(st.dst, ks) == Term::folded_all(src.term(i).kids, mean)
        }),
{
    let i = order[k as int].0 as int;
    let ks = images(st.map, src.kids(i));
    assert(src.has(order[k as int]));
    lemma_term_kids(src, i);
    assert forall|j: int| 0 <= j < src.kids(i).len() implies placed_ok(
        mean,
        src,
        st,
        #[trigger] src.kids(i)[j],
    ) by {
        let c = src.kids(i)[j];
        assert(crate::arena::order::occurs_before(
            order,
            k as int,
            src.kids(order[k as int].0 as int)[j],
        ));
        let q = choose|q: int| 0 <= q < k && #[trigger] order[q] == c;
        assert(placed_ok(mean, src, st, order[q]));
    }
    assert forall|j: int| 0 <= j < ks.len() implies st.dst.has(#[trigger] ks[j]) by {
        assert(placed_ok(mean, src, st, src.kids(i)[j]));
    }
    assert forall|j: int|
        0 <= j < ks.len() && src.nodes[(#[trigger] src.kids(i)[j]).0 as int] is Buffer implies
        st.dst.nodes[ks[j].0 as int] == src.nodes[src.kids(i)[j].0 as int] by {
        assert(placed_ok(mean, src, st, src.kids(i)[j]));
    }
    let want = Term::folded_all(src.term(i).kids, mean);
    assert forall|j: int| 0 <= j < ks.len() implies #[trigger] terms_of(st.dst, ks)[j]
        == want[j] by {
        assert(placed_ok(mean, src, st, src.kids(i)[j]));
        assert(src.term(i).kids[j] == src.term(src.kids(i)[j].0 as int));
    }
    assert(terms_of(st.dst, ks) =~= want);
}

/// One more node placed.
pub proof fn lemma_rebuild_step(
    emit: Emit,
    mean: Meaning,
    src: ArenaModel,
    order: Seq<ExprId>,
    k: nat,
    st: Rebuilt,
)
    requires
        src.wf(),
        operands_first(src, order),
        k < order.len(),
        rebuild_ok(mean, src, order, k, st),
        keeps_buffers(emit),
        ({
            let i = order[k as int].0 as int;
            let ks = images(st.map, src.kids(i));
            &&& step_means(emit, mean, src, st.dst, i, ks)
            &&& fits(emit(st.dst, src.nodes[i], ks).0)
        }),
    ensures
        ({
            let i = order[k as int].0 as int;
            let (dst, id) = emit(st.dst, src.nodes[i], images(st.map, src.kids(i)));
            rebuild_ok(
                mean,
                src,
                order,
                k + 1,
                Rebuilt { dst, map: st.map.update(i, Some(id)) },
            )
        }),
{
    let i = order[k as int].0 as int;
    let ks = images(st.map, src.kids(i));
    let (dst, id) = emit(st.dst, src.nodes[i], ks);
    let now = Rebuilt { dst, map: st.map.update(i, Some(id)) };
    lemma_operands_placed(mean, src, order, k, st);
    lemma_term_kids(src, i);
    assert(grown(st.dst, (dst, id), mean(src.head_of(src.nodes[i]), terms_of(st.dst, ks))));
    assert(extends(src, dst));
    assert forall|p: int| 0 <= p < k + 1 implies #[trigger] placed_ok(mean, src, now, order[p]) by {
        if p < k {
            assert(placed_ok(mean, src, st, order[p]));
            assert(order[p] != order[k as int]);
            let r = (st.map[order[p].0 as int]->0).0 as int;
            append_keeps_terms(st.dst, dst, r);
        } else if src.nodes[i] is Buffer {
            assert(dst.nodes == st.dst.nodes.push(src.nodes[i]));
        }
    }
}

/// The whole rebuild does what its meaning says.
pub proof fn lemma_rebuilt(
    emit: Emit,
    mean: Meaning,
    src: ArenaModel,
    order: Seq<ExprId>,
    k: nat,
)
    requires
        src.wf(),
        operands_first(src, order),
        k <= order.len(),
        only_grows(emit),
        keeps_buffers(emit),
        fits(rebuilt(emit, src, order, k).dst),
        forall|m: ArenaModel, p: int, ks: Seq<ExprId>|
            0 <= p < order.len() ==> #[trigger] step_means(
                emit,
                mean,
                src,
                m,
                order[p].0 as int,
                ks,
            ),
    ensures
        rebuild_ok(mean, src, order, k, rebuilt(emit, src, order, k)),
    decreases k,
{
    if k > 0 {
        let p = (k - 1) as nat;
        lemma_rebuilt_grows(emit, src, order, p, k);
        lemma_rebuilt(emit, mean, src, order, p);
        let st = rebuilt(emit, src, order, p);
        let i = order[p as int].0 as int;
        assert(step_means(
            emit,
            mean,
            src,
            st.dst,
            order[p as int].0 as int,
            images(st.map, src.kids(i)),
        ));
        lemma_rebuild_step(emit, mean, src, order, p, st);
    }
}

/// The rebuilt root denotes the folded expression.
pub proof fn lemma_rebuilt_root(emit: Emit, mean: Meaning, src: ArenaModel, root: ExprId)
    requires
        src.wf(),
        src.has(root),
        only_grows(emit),
        keeps_buffers(emit),
        fits(rebuilt_root(emit, src, root).0),
        forall|m: ArenaModel, i: int, ks: Seq<ExprId>|
            0 <= i < src.nodes.len() && postorder(src, root).contains(ExprId(i as u32))
                ==> #[trigger] step_means(emit, mean, src, m, i, ks),
    ensures
        grown(
            src,
            rebuilt_root(emit, src, root),
            src.term(root.0 as int).folded(mean),
        ),
{
    let order = postorder(src, root);
    postorder_lists_the_expression(src, root);
    assert forall|m: ArenaModel, p: int, ks: Seq<ExprId>|
        0 <= p < order.len() implies #[trigger] step_means(
        emit,
        mean,
        src,
        m,
        order[p].0 as int,
        ks,
    ) by {
        assert(src.has(order[p]));
        assert(ExprId(order[p].0) == order[p]);
        assert(order.contains(order[p]));
    }
    lemma_rebuilt(emit, mean, src, order, order.len());
    let last = order.len() - 1;
    assert(order[last] == root);
    assert(placed_ok(mean, src, rebuilt(emit, src, order, order.len()), order[last]));
}

} // verus!
