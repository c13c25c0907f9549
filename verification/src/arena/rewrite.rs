//! Copying expressions: parameter substitution, variable substitution and
//! splicing one arena's expression into another.
//!
//! All three walk the source expression operands first, left to right, and
//! copy each reachable node once. What differs is what a leaf becomes; that is
//! a [`Policy`].

use crate::arena::model::{lemma_term_kids, nary_len, operands, ArenaModel, Head, Term};
use crate::arena::{
    BufferDecl, BufferId, BufferIdentity, ExprArena, ExprId, ExprNode, UniformDecl, UniformId,
    UniformIdentity,
};
use crate::kernel::{Scalar, Uniform};
use vstd::prelude::*;

verus! {

/// What copying does to leaves.
pub enum Policy {
    /// `Param(k)` becomes the k-th scalar; the copy lands in the source arena.
    Params(Seq<Scalar>),
    /// `Var(v)` becomes the node listed for `v`, if any; the copy lands in the
    /// source arena.
    Vars(Seq<(u8, ExprId)>),
    /// Buffer and uniform leaves are matched to the destination's tables by
    /// identity; the copy lands in another arena.
    Splice,
}

/// The copy so far: the destination, and where each source node went.
#[verifier::ext_equal]
pub struct Copying {
    pub dst: ArenaModel,
    pub map: Seq<Option<ExprId>>,
}

/// The first slot declaring buffer `id`.
pub open spec fn buffer_slot(t: Seq<BufferDecl>, id: BufferIdentity) -> Option<int>
    decreases t.len(),
{
    if t.len() == 0 {
        None
    } else {
        match buffer_slot(t.drop_last(), id) {
            Some(i) => Some(i),
            None => if t.last().id == id {
                Some(t.len() - 1)
            } else {
                None
            },
        }
    }
}

/// The first slot declaring uniform `id`.
pub open spec fn uniform_slot(t: Seq<UniformDecl>, id: UniformIdentity) -> Option<int>
    decreases t.len(),
{
    if t.len() == 0 {
        None
    } else {
        match uniform_slot(t.drop_last(), id) {
            Some(i) => Some(i),
            None => if t.last().id == id {
                Some(t.len() - 1)
            } else {
                None
            },
        }
    }
}

/// The first replacement listed for variable `v`.
pub open spec fn replacement(subs: Seq<(u8, ExprId)>, v: u8) -> Option<ExprId>
    decreases subs.len(),
{
    if subs.len() == 0 {
        None
    } else {
        match replacement(subs.drop_last(), v) {
            Some(r) => Some(r),
            None => if subs.last().0 == v {
                Some(subs.last().1)
            } else {
                None
            },
        }
    }
}

/// The destination after making sure `d` is declared, and its slot.
pub open spec fn with_buffer(dst: ArenaModel, d: BufferDecl) -> (ArenaModel, BufferId) {
    match buffer_slot(dst.buffers, d.id) {
        Some(i) => (dst, BufferId(i as u16)),
        None => (
            ArenaModel { buffers: dst.buffers.push(d), ..dst },
            BufferId(dst.buffers.len() as u16),
        ),
    }
}

/// The destination after making sure `d` is declared, and its slot.
pub open spec fn with_uniform(dst: ArenaModel, d: UniformDecl) -> (ArenaModel, UniformId) {
    match uniform_slot(dst.uniforms, d.id) {
        Some(i) => (dst, UniformId(i as u16)),
        None => (
            ArenaModel { uniforms: dst.uniforms.push(d), ..dst },
            UniformId(dst.uniforms.len() as u16),
        ),
    }
}

/// `dst` with one more node.
pub open spec fn appended(dst: ArenaModel, n: ExprNode) -> ArenaModel {
    ArenaModel { nodes: dst.nodes.push(n), ..dst }
}

/// `dst` with a copy of `n` whose operands are `ks`.
pub open spec fn appended_copy(dst: ArenaModel, n: ExprNode, ks: Seq<ExprId>) -> ArenaModel {
    match n {
        ExprNode::Unary(op, _) => appended(dst, ExprNode::Unary(op, ks[0])),
        ExprNode::Binary(op, _, _) => appended(dst, ExprNode::Binary(op, ks[0], ks[1])),
        ExprNode::Ternary(op, _, _, _) => appended(
            dst,
            ExprNode::Ternary(op, ks[0], ks[1], ks[2]),
        ),
        ExprNode::Nary(op, _, _) => ArenaModel {
            nary: dst.nary + ks,
            ..appended(dst, ExprNode::Nary(op, dst.nary.len() as u32, ks.len() as u16))
        },
        ExprNode::Reduce { fold, body: _ } => appended(
            dst,
            ExprNode::Reduce { fold, body: ks[0] },
        ),
        leaf => appended(dst, leaf),
    }
}

/// Where a list of source nodes went.
pub open spec fn images(map: Seq<Option<ExprId>>, ids: Seq<ExprId>) -> Seq<ExprId> {
    Seq::new(ids.len(), |j: int| map[ids[j].0 as int]->Some_0)
}

/// One node copied, its operands already being copied: the destination and the
/// id of the copy.
pub open spec fn placed(pol: Policy, src: ArenaModel, st: Copying, i: int) -> (
    ArenaModel,
    ExprId,
) {
    let n = src.nodes[i];
    let next = ExprId(st.dst.nodes.len() as u32);
    let plain = (appended_copy(st.dst, n, images(st.map, src.kids_of(n))), next);
    match (pol, n) {
        (Policy::Params(ps), ExprNode::Param(k)) => match ps[k as int] {
            Scalar::Const(v) => (appended(st.dst, ExprNode::Const(v)), next),
            Scalar::Uniform(u) => {
                let (dst, slot) = with_uniform(st.dst, u.0);
                (appended(dst, ExprNode::Uniform(slot)), next)
            },
        },
        (Policy::Vars(subs), ExprNode::Var(v)) => match replacement(subs, v) {
            Some(r) => (st.dst, r),
            None => plain,
        },
        (Policy::Splice, ExprNode::Buffer(b)) => {
            let (dst, slot) = with_buffer(st.dst, src.buffers[b.0 as int]);
            (appended(dst, ExprNode::Buffer(slot)), next)
        },
        (Policy::Splice, ExprNode::Uniform(u)) => {
            let (dst, slot) = with_uniform(st.dst, src.uniforms[u.0 as int]);
            (appended(dst, ExprNode::Uniform(slot)), next)
        },
        _ => plain,
    }
}

/// The copy after node `i` itself has been placed.
pub open spec fn emitted(pol: Policy, src: ArenaModel, st: Copying, i: int) -> Copying {
    let (dst, id) = placed(pol, src, st, i);
    Copying { dst, map: st.map.update(i, Some(id)) }
}

/// The copy after the expression at node `i` has been copied: nothing if it
/// already was, else its operands from left to right and then itself.
pub open spec fn copied(pol: Policy, src: ArenaModel, st: Copying, i: int) -> Copying
    decreases i, src.kids(i).len() + 1,
{
    if st.map[i] is Some {
        st
    } else {
        emitted(pol, src, copied_all(pol, src, st, i, src.kids(i)), i)
    }
}

/// The copy after the expressions at `ids`, all below `bound`, have been
/// copied from left to right.
pub open spec fn copied_all(
    pol: Policy,
    src: ArenaModel,
    st: Copying,
    bound: int,
    ids: Seq<ExprId>,
) -> Copying
    decreases bound, ids.len(),
{
    if ids.len() == 0 {
        st
    } else {
        let first = if 0 <= ids[0].0 < bound {
            copied(pol, src, st, ids[0].0 as int)
        } else {
            st
        };
        copied_all(pol, src, first, bound, ids.drop_first())
    }
}

/// The whole copy of the expression at `root`, starting from `dst`.
pub open spec fn whole_copy(pol: Policy, src: ArenaModel, dst: ArenaModel, root: ExprId) -> Copying {
    copied(
        pol,
        src,
        Copying { dst, map: Seq::new(src.nodes.len(), |i: int| None) },
        root.0 as int,
    )
}

impl Term {
    /// The expression a copy denotes, table slots forgotten.
    pub open spec fn rewritten(self, pol: Policy, src: ArenaModel) -> Term
        decreases self,
    {
        let same = Term {
            head: self.unslotted().head,
            kids: Seq::new(
                self.kids.len(),
                |j: int|
                    if 0 <= j < self.kids.len() {
                        self.kids[j].rewritten(pol, src)
                    } else {
                        arbitrary()
                    },
            ),
        };
        match (pol, self.head) {
            (Policy::Params(ps), Head::Param(k)) => match ps[k as int] {
                Scalar::Const(v) => Term { head: Head::Const(v), kids: Seq::empty() },
                Scalar::Uniform(u) => Term {
                    head: Head::Uniform(UniformId(0), u.0),
                    kids: Seq::empty(),
                },
            },
            (Policy::Vars(subs), Head::Var(v)) => match replacement(subs, v) {
                Some(r) => src.term(r.0 as int).unslotted(),
                None => same,
            },
            _ => same,
        }
    }
}

/// Splicing keeps the expression: nothing but table slots changes.
pub proof fn lemma_splice_rewrite(t: Term, src: ArenaModel)
    ensures
        t.rewritten(Policy::Splice, src) == t.unslotted(),
    decreases t,
{
    assert forall|j: int| 0 <= j < t.kids.len() implies (#[trigger] t.kids[j]).rewritten(
        Policy::Splice,
        src,
    ) == t.kids[j].unslotted() by {
        lemma_splice_rewrite(t.kids[j], src);
    }
    assert(t.rewritten(Policy::Splice, src).kids =~= t.unslotted().kids);
}

/// `b` extends `a`: nothing stored in `a` has changed.
pub open spec fn extends(a: ArenaModel, b: ArenaModel) -> bool {
    &&& a.nodes.is_prefix_of(b.nodes)
    &&& a.nary.is_prefix_of(b.nary)
    &&& a.buffers.is_prefix_of(b.buffers)
    &&& a.uniforms.is_prefix_of(b.uniforms)
}

/// Appending to an arena changes no existing expression.
pub proof fn append_keeps_terms(a: ArenaModel, b: ArenaModel, i: int)
    requires
        a.wf(),
        extends(a, b),
        0 <= i < a.nodes.len(),
    ensures
        b.term(i) == a.term(i),
    decreases i,
{
    let n = a.nodes[i];
    assert(b.nodes[i] == n);
    assert(a.node_ok(i, n));
    assert(a.kids(i) =~= b.kids(i));
    assert(a.head_of(n) == b.head_of(n));
    lemma_term_kids(a, i);
    assert forall|j: int| 0 <= j < a.kids(i).len() implies a.term(i).kids[j] == b.term(i).kids[j] by {
        assert(a.kids(i)[j].0 < i);
        append_keeps_terms(a, b, a.kids(i)[j].0 as int);
    }
    assert(a.term(i).kids =~= b.term(i).kids);
}

/// How many entries of a table of options are filled.
pub open spec fn filled<T>(s: Seq<Option<T>>) -> nat
    decreases s.len(),
{
    if s.len() == 0 {
        0
    } else {
        filled(s.drop_last()) + if s.last() is Some {
            1nat
        } else {
            0nat
        }
    }
}

pub proof fn lemma_filled_update<T>(s: Seq<Option<T>>, i: int, v: T)
    requires
        0 <= i < s.len(),
        s[i] is None,
    ensures
        filled(s.update(i, Some(v))) == filled(s) + 1,
        filled(s) < s.len(),
    decreases s.len(),
{
    let u = s.update(i, Some(v));
    lemma_filled_bound(s.drop_last());
    if i == s.len() - 1 {
        assert(u.drop_last() =~= s.drop_last());
    } else {
        assert(u.drop_last() =~= s.drop_last().update(i, Some(v)));
        lemma_filled_update(s.drop_last(), i, v);
    }
}

proof fn lemma_filled_bound<T>(s: Seq<Option<T>>)
    ensures
        filled(s) <= s.len(),
    decreases s.len(),
{
    if s.len() > 0 {
        lemma_filled_bound(s.drop_last());
    }
}

pub proof fn lemma_filled_none<T>(s: Seq<Option<T>>)
    requires
        forall|i: int| 0 <= i < s.len() ==> (#[trigger] s[i]) is None,
    ensures
        filled(s) == 0,
    decreases s.len(),
{
    if s.len() > 0 {
        assert(s[s.len() - 1] is None);
        lemma_filled_none(s.drop_last());
    }
}


/// The uniform declarations a copy may bring into the destination.
pub open spec fn uniform_pool(pol: Policy, src: ArenaModel) -> Seq<UniformDecl> {
    match pol {
        Policy::Params(ps) => Seq::new(
            ps.len(),
            |k: int|
                match ps[k] {
                    Scalar::Uniform(u) => u.0,
                    Scalar::Const(_) => arbitrary(),
                },
        ),
        Policy::Vars(_) => Seq::empty(),
        Policy::Splice => src.uniforms,
    }
}

/// The buffer declarations a copy may bring into the destination.
pub open spec fn buffer_pool(pol: Policy, src: ArenaModel) -> Seq<BufferDecl> {
    match pol {
        Policy::Splice => src.buffers,
        _ => Seq::empty(),
    }
}

/// Copying `t` looks up entry `k` of the uniform pool.
pub open spec fn uses_uniform(pol: Policy, t: Term, k: int) -> bool {
    match pol {
        Policy::Params(ps) => t.any(
            |x: Term| x.head == Head::Param(k as u8) && 0 <= k <= u8::MAX && ps[k] is Uniform,
        ),
        Policy::Vars(_) => false,
        Policy::Splice => t.any(|x: Term| x.head matches Head::Uniform(s, _) && s.0 == k),
    }
}

/// Copying `t` looks up entry `k` of the buffer pool.
pub open spec fn uses_buffer(pol: Policy, t: Term, k: int) -> bool {
    match pol {
        Policy::Splice => t.any(|x: Term| x.head matches Head::Buffer(s, _) && s.0 == k),
        _ => false,
    }
}

/// Every used uniform declaration agrees with each entry of `table` that
/// carries its identity.
pub open spec fn uniforms_agree(
    pol: Policy,
    src: ArenaModel,
    root: int,
    table: Seq<UniformDecl>,
) -> bool {
    forall|k: int, i: int|
        0 <= k < uniform_pool(pol, src).len() && uses_uniform(pol, src.term(root), k) && 0 <= i
            < table.len() && (#[trigger] uniform_pool(pol, src)[k]).id == (#[trigger] table[i]).id
            ==> table[i] == uniform_pool(pol, src)[k]
}

/// Every used buffer declaration agrees with each entry of `table` that
/// carries its identity.
pub open spec fn buffers_agree(
    pol: Policy,
    src: ArenaModel,
    root: int,
    table: Seq<BufferDecl>,
) -> bool {
    forall|k: int, i: int|
        0 <= k < buffer_pool(pol, src).len() && uses_buffer(pol, src.term(root), k) && 0 <= i
            < table.len() && (#[trigger] buffer_pool(pol, src)[k]).id == (#[trigger] table[i]).id
            ==> table[i] == buffer_pool(pol, src)[k]
}

/// Used declarations of one identity agree with each other.
pub open spec fn pools_agree(pol: Policy, src: ArenaModel, root: int) -> bool {
    &&& forall|k: int, j: int|
        0 <= k < uniform_pool(pol, src).len() && 0 <= j < uniform_pool(pol, src).len()
            && uses_uniform(pol, src.term(root), k) && uses_uniform(pol, src.term(root), j) && (
        #[trigger] uniform_pool(pol, src)[k]).id == (#[trigger] uniform_pool(pol, src)[j]).id
            ==> uniform_pool(pol, src)[k] == uniform_pool(pol, src)[j]
    &&& forall|k: int, j: int|
        0 <= k < buffer_pool(pol, src).len() && 0 <= j < buffer_pool(pol, src).len()
            && uses_buffer(pol, src.term(root), k) && uses_buffer(pol, src.term(root), j) && (
        #[trigger] buffer_pool(pol, src)[k]).id == (#[trigger] buffer_pool(pol, src)[j]).id
            ==> buffer_pool(pol, src)[k] == buffer_pool(pol, src)[j]
}

/// The declarations a copy brings are consistent with the destination's and
/// with each other: no identity is declared in two ways.
pub open spec fn declarations_agree(
    pol: Policy,
    src: ArenaModel,
    dst: ArenaModel,
    root: ExprId,
) -> bool {
    &&& uniforms_agree(pol, src, root.0 as int, dst.uniforms)
    &&& buffers_agree(pol, src, root.0 as int, dst.buffers)
    &&& pools_agree(pol, src, root.0 as int)
}

/// The uniform declarations a copy may bring whose identity the destination lacks.
pub open spec fn new_uniforms(pol: Policy, src: ArenaModel, dst: ArenaModel) -> Seq<UniformDecl> {
    uniform_pool(pol, src).filter(|d: UniformDecl| uniform_slot(dst.uniforms, d.id) is None)
}

/// The buffer declarations a copy may bring whose identity the destination lacks.
pub open spec fn new_buffers(pol: Policy, src: ArenaModel, dst: ArenaModel) -> Seq<BufferDecl> {
    buffer_pool(pol, src).filter(|d: BufferDecl| buffer_slot(dst.buffers, d.id) is None)
}

/// The copy stays within what node, operand and table indices can name. Of the
/// tables, only declarations that are new to the destination need room.
pub open spec fn copy_fits(pol: Policy, src: ArenaModel, dst: ArenaModel) -> bool {
    &&& dst.nodes.len() + src.nodes.len() <= u32::MAX
    &&& dst.nary.len() + operands(src.nodes) <= u32::MAX
    &&& dst.buffers.len() + new_buffers(pol, src, dst).to_set().len() <= u16::MAX
    &&& dst.uniforms.len() + new_uniforms(pol, src, dst).to_set().len() <= u16::MAX
}

/// Every leaf a policy replaces has a replacement: parameters are in range,
/// and listed nodes exist.
pub open spec fn leaves_covered(pol: Policy, src: ArenaModel, root: ExprId) -> bool {
    match pol {
        Policy::Params(ps) => !src.term(root.0 as int).any(
            |t: Term| t.head matches Head::Param(k) && k >= ps.len(),
        ),
        Policy::Vars(subs) => forall|i: int|
            0 <= i < subs.len() ==> src.has((#[trigger] subs[i]).1),
        Policy::Splice => true,
    }
}

/// `now` is `base` followed by distinct entries of `pool`.
spec fn drawn_from<T>(base: Seq<T>, now: Seq<T>, pool: Seq<T>) -> bool {
    &&& base.is_prefix_of(now)
    &&& now.skip(base.len() as int).no_duplicates()
    &&& forall|i: int|
        base.len() <= i < now.len() ==> pool.contains(#[trigger] now[i])
}

proof fn lemma_drawn_len<T>(base: Seq<T>, now: Seq<T>, pool: Seq<T>)
    requires
        drawn_from(base, now, pool),
    ensures
        now.len() <= base.len() + pool.to_set().len(),
{
    let extra = now.skip(base.len() as int);
    extra.unique_seq_to_set();
    assert(extra.to_set().subset_of(pool.to_set())) by {
        assert forall|x: T| extra.to_set().contains(x) implies pool.to_set().contains(x) by {
            let j = choose|j: int| 0 <= j < extra.len() && extra[j] == x;
            assert(now[base.len() + j] == x);
        }
    }
    vstd::set_lib::lemma_len_subset(extra.to_set(), pool.to_set());
}

proof fn lemma_drawn_push<T>(base: Seq<T>, now: Seq<T>, pool: Seq<T>, d: T)
    requires
        drawn_from(base, now, pool),
        pool.contains(d),
        forall|i: int| 0 <= i < now.len() ==> now[i] != d,
    ensures
        drawn_from(base, now.push(d), pool),
        now.len() + 1 <= base.len() + pool.to_set().len(),
{
    let next = now.push(d);
    assert(next.skip(base.len() as int) =~= now.skip(base.len() as int).push(d));
    assert forall|i: int| base.len() <= i < next.len() implies pool.contains(#[trigger] next[i]) by {
        if i < now.len() {
            assert(next[i] == now[i]);
        }
    }
    lemma_drawn_len(base, next, pool);
}

/// The part of the operand ranges belonging to nodes already copied.
spec fn taken(nodes: Seq<ExprNode>, map: Seq<Option<ExprId>>) -> nat
    decreases nodes.len(),
{
    if nodes.len() == 0 {
        0
    } else {
        taken(nodes.drop_last(), map.drop_last()) + if map.last() is Some {
            nary_len(nodes.last())
        } else {
            0
        }
    }
}

proof fn lemma_taken_bound(nodes: Seq<ExprNode>, map: Seq<Option<ExprId>>)
    requires
        map.len() == nodes.len(),
    ensures
        taken(nodes, map) <= operands(nodes),
    decreases nodes.len(),
{
    if nodes.len() > 0 {
        lemma_taken_bound(nodes.drop_last(), map.drop_last());
    }
}

proof fn lemma_taken_update(nodes: Seq<ExprNode>, map: Seq<Option<ExprId>>, i: int, v: ExprId)
    requires
        map.len() == nodes.len(),
        0 <= i < map.len(),
        map[i] is None,
    ensures
        taken(nodes, map.update(i, Some(v))) == taken(nodes, map) + nary_len(
            nodes[i],
        ),
    decreases nodes.len(),
{
    let u = map.update(i, Some(v));
    if i == nodes.len() - 1 {
        assert(u.drop_last() =~= map.drop_last());
    } else {
        assert(u.drop_last() =~= map.drop_last().update(i, Some(v)));
        lemma_taken_update(nodes.drop_last(), map.drop_last(), i, v);
    }
}

/// Everything occurring in the expression at `i` occurs in the one at `root`.
spec fn within(m: ArenaModel, i: int, root: int) -> bool {
    forall|q: spec_fn(Term) -> bool| #[trigger] m.term(i).any(q) ==> m.term(root).any(q)
}

proof fn lemma_within_kid(m: ArenaModel, i: int, root: int, j: int)
    requires
        m.wf(),
        0 <= i < m.nodes.len(),
        within(m, i, root),
        0 <= j < m.kids(i).len(),
    ensures
        within(m, m.kids(i)[j].0 as int, root),
{
    lemma_term_kids(m, i);
    let k = m.kids(i)[j].0 as int;
    assert forall|q: spec_fn(Term) -> bool| #[trigger] m.term(k).any(q) implies m.term(root).any(
        q,
    ) by {
        assert(m.term(i).kids[j].any(q));
        assert(m.term(i).any(q));
    }
}

/// What holds of a copy under way.
spec fn good(pol: Policy, src: ArenaModel, dst0: ArenaModel, root: int, st: Copying) -> bool {
    &&& st.map.len() == src.nodes.len()
    &&& st.dst.wf()
    &&& extends(dst0, st.dst)
    &&& st.dst.nodes.len() <= dst0.nodes.len() + filled(st.map)
    &&& st.dst.nary.len() <= dst0.nary.len() + taken(src.nodes, st.map)
    &&& drawn_from(dst0.uniforms, st.dst.uniforms, new_uniforms(pol, src, dst0))
    &&& drawn_from(dst0.buffers, st.dst.buffers, new_buffers(pol, src, dst0))
    &&& uniforms_agree(pol, src, root, st.dst.uniforms)
    &&& buffers_agree(pol, src, root, st.dst.buffers)
    &&& forall|i: int|
        #![trigger st.map[i]]
        0 <= i < src.nodes.len() && st.map[i] is Some ==> {
            let r = st.map[i]->Some_0.0 as int;
            &&& r < st.dst.nodes.len()
            &&& st.dst.term(r).unslotted() == src.term(i).rewritten(pol, src)
        }
}

/// The standing assumptions of a copy.
spec fn setting(pol: Policy, src: ArenaModel, dst0: ArenaModel, root: int) -> bool {
    &&& src.wf()
    &&& dst0.wf()
    &&& copy_fits(pol, src, dst0)
    &&& 0 <= root < src.nodes.len()
    &&& pools_agree(pol, src, root)
    &&& leaves_covered(pol, src, ExprId(root as u32))
    &&& (pol is Splice || src == dst0)
}

pub proof fn lemma_uniform_slot(t: Seq<UniformDecl>, id: UniformIdentity)
    ensures
        match uniform_slot(t, id) {
            Some(i) => 0 <= i < t.len() && t[i].id == id && forall|j: int|
                0 <= j < i ==> (#[trigger] t[j]).id != id,
            None => forall|j: int| 0 <= j < t.len() ==> (#[trigger] t[j]).id != id,
        },
    decreases t.len(),
{
    if t.len() > 0 {
        lemma_uniform_slot(t.drop_last(), id);
        assert forall|j: int| 0 <= j < t.len() - 1 implies t[j] == t.drop_last()[j] by {}
    }
}

pub proof fn lemma_buffer_slot(t: Seq<BufferDecl>, id: BufferIdentity)
    ensures
        match buffer_slot(t, id) {
            Some(i) => 0 <= i < t.len() && t[i].id == id && forall|j: int|
                0 <= j < i ==> (#[trigger] t[j]).id != id,
            None => forall|j: int| 0 <= j < t.len() ==> (#[trigger] t[j]).id != id,
        },
    decreases t.len(),
{
    if t.len() > 0 {
        lemma_buffer_slot(t.drop_last(), id);
        assert forall|j: int| 0 <= j < t.len() - 1 implies t[j] == t.drop_last()[j] by {}
    }
}


/// Appending one acceptable node keeps an arena well-formed.
pub proof fn lemma_wf_append(a: ArenaModel, b: ArenaModel)
    requires
        a.wf(),
        extends(a, b),
        b.nodes.len() == a.nodes.len() + 1,
        a.nodes.len() <= u32::MAX,
        b.node_ok(a.nodes.len() as int, b.nodes[a.nodes.len() as int]),
    ensures
        b.wf(),
{
    assert forall|i: int| 0 <= i < b.nodes.len() implies b.node_ok(i, #[trigger] b.nodes[i]) by {
        if i < a.nodes.len() {
            assert(b.nodes[i] == a.nodes[i]);
            assert(a.node_ok(i, a.nodes[i]));
            assert(a.kids_of(a.nodes[i]) =~= b.kids_of(b.nodes[i]));
        }
    }
}

/// The expression of a freshly appended node, slots forgotten.
pub proof fn lemma_new_term(a: ArenaModel, b: ArenaModel, ks: Seq<ExprId>)
    requires
        a.wf(),
        b.wf(),
        extends(a, b),
        b.nodes.len() == a.nodes.len() + 1,
        b.kids(a.nodes.len() as int) == ks,
        forall|j: int| 0 <= j < ks.len() ==> a.has(#[trigger] ks[j]),
    ensures
        ({
            let t = b.term(a.nodes.len() as int);
            &&& t.head == b.head_of(b.nodes[a.nodes.len() as int])
            &&& t.kids.len() == ks.len()
            &&& forall|j: int|
                0 <= j < ks.len() ==> #[trigger] t.kids[j] == a.term(ks[j].0 as int)
        }),
{
    let i = a.nodes.len() as int;
    lemma_term_kids(b, i);
    assert forall|j: int| 0 <= j < ks.len() implies #[trigger] b.term(i).kids[j] == a.term(
        ks[j].0 as int,
    ) by {
        assert(a.has(ks[j]));
        append_keeps_terms(a, b, ks[j].0 as int);
    }
}

/// All operands of node `i` have been copied.
spec fn kids_mapped(src: ArenaModel, map: Seq<Option<ExprId>>, i: int) -> bool {
    forall|j: int| 0 <= j < src.kids(i).len() ==> map[(#[trigger] src.kids(i)[j]).0 as int] is Some
}

/// Copies made earlier keep their meaning when the destination grows.
proof fn lemma_copies_kept(
    pol: Policy,
    src: ArenaModel,
    dst0: ArenaModel,
    root: int,
    st: Copying,
    next: Copying,
    i: int,
)
    requires
        good(pol, src, dst0, root, st),
        extends(st.dst, next.dst),
        next.dst.wf(),
        0 <= i < src.nodes.len(),
        next.map == st.map.update(i, next.map[i]),
        next.map[i] is Some,
        next.map[i]->Some_0.0 < next.dst.nodes.len(),
        next.dst.term(next.map[i]->Some_0.0 as int).unslotted() == src.term(i).rewritten(pol, src),
    ensures
        forall|k: int|
            #![trigger next.map[k]]
            0 <= k < src.nodes.len() && next.map[k] is Some ==> {
                let r = next.map[k]->Some_0.0 as int;
                &&& r < next.dst.nodes.len()
                &&& next.dst.term(r).unslotted() == src.term(k).rewritten(pol, src)
            },
{
    assert forall|k: int|
        #![trigger next.map[k]]
        0 <= k < src.nodes.len() && next.map[k] is Some implies {
        let r = next.map[k]->Some_0.0 as int;
        &&& r < next.dst.nodes.len()
        &&& next.dst.term(r).unslotted() == src.term(k).rewritten(pol, src)
    } by {
        if k != i {
            assert(st.map[k] is Some);
            append_keeps_terms(st.dst, next.dst, st.map[k]->Some_0.0 as int);
        }
    }
}

/// A node copied with its operands replaced by their copies denotes the
/// rewritten expression.
proof fn lemma_plain_copy(
    pol: Policy,
    src: ArenaModel,
    dst0: ArenaModel,
    root: int,
    st: Copying,
    i: int,
)
    requires
        setting(pol, src, dst0, root),
        good(pol, src, dst0, root, st),
        0 <= i < src.nodes.len(),
        st.map[i] is None,
        kids_mapped(src, st.map, i),
        st.dst.slot_ok(src.nodes[i]),
        st.dst.head_of(src.nodes[i]) == src.head_of(src.nodes[i]),
        !(pol is Params && src.nodes[i] is Param),
        (pol is Vars && src.nodes[i] is Var) ==> replacement(
            pol->Vars_0,
            src.nodes[i]->Var_0,
        ) is None,
    ensures
        ({
            let dst = appended_copy(st.dst, src.nodes[i], images(st.map, src.kids(i)));
            &&& st.dst.nodes.len() <= u32::MAX
            &&& st.dst.nary.len() + nary_len(src.nodes[i]) <= u32::MAX
            &&& dst.wf()
            &&& extends(st.dst, dst)
            &&& dst.nodes.len() == st.dst.nodes.len() + 1
            &&& dst.term(st.dst.nodes.len() as int).unslotted() == src.term(i).rewritten(pol, src)
        }),
{
    let n = src.nodes[i];
    let ks = images(st.map, src.kids(i));
    let dst = appended_copy(st.dst, n, ks);
    lemma_term_kids(src, i);
    assert(src.node_ok(i, n));
    lemma_filled_update(st.map, i, ExprId(0));
    lemma_filled_bound(st.map);
    lemma_taken_update(src.nodes, st.map, i, ExprId(0));
    lemma_taken_bound(src.nodes, st.map.update(i, Some(ExprId(0))));
    assert forall|j: int| 0 <= j < ks.len() implies st.dst.has(#[trigger] ks[j]) by {
        assert(st.map[src.kids(i)[j].0 as int] is Some);
    }
    let p = st.dst.nodes.len() as int;
    assert(dst.kids(p) =~= ks);
    assert(dst.node_ok(p, dst.nodes[p]));
    lemma_wf_append(st.dst, dst);
    lemma_new_term(st.dst, dst, ks);
    let t = dst.term(p);
    let u = src.term(i);
    assert forall|j: int| 0 <= j < ks.len() implies #[trigger] t.unslotted().kids[j]
        == u.rewritten(pol, src).kids[j] by {
        assert(st.map[src.kids(i)[j].0 as int] is Some);
        assert(t.kids[j] == st.dst.term(ks[j].0 as int));
        assert(u.kids[j] == src.term(src.kids(i)[j].0 as int));
    }
    assert(t.unslotted().kids =~= u.rewritten(pol, src).kids);
    assert(t.unslotted().head == u.unslotted().head);
}

/// A leaf looked up in the uniform pool: the slot found or declared is valid
/// and holds the declaration looked for.
proof fn lemma_uniform_found(
    pol: Policy,
    src: ArenaModel,
    dst0: ArenaModel,
    root: int,
    st: Copying,
    k: int,
)
    requires
        setting(pol, src, dst0, root),
        good(pol, src, dst0, root, st),
        0 <= k < uniform_pool(pol, src).len(),
        uses_uniform(pol, src.term(root), k),
    ensures
        ({
            let d = uniform_pool(pol, src)[k];
            let (dst, slot) = with_uniform(st.dst, d);
            &&& slot.0 < dst.uniforms.len()
            &&& dst.uniforms[slot.0 as int] == d
            &&& extends(st.dst, dst)
            &&& drawn_from(dst0.uniforms, dst.uniforms, new_uniforms(pol, src, dst0))
            &&& uniforms_agree(pol, src, root, dst.uniforms)
            &&& match uniform_slot(st.dst.uniforms, d.id) {
                Some(i) => i == slot.0 && i < st.dst.uniforms.len() && st.dst.uniforms[i] == d,
                None => st.dst.uniforms.len() < u16::MAX && slot.0 == st.dst.uniforms.len(),
            }
        }),
{
    let pool = uniform_pool(pol, src);
    let d = pool[k];
    lemma_uniform_slot(st.dst.uniforms, d.id);
    lemma_drawn_len(dst0.uniforms, st.dst.uniforms, new_uniforms(pol, src, dst0));
    match uniform_slot(st.dst.uniforms, d.id) {
        Some(i) => {
            assert(pool[k].id == st.dst.uniforms[i].id);
        },
        None => {
            assert forall|i: int| 0 <= i < st.dst.uniforms.len() implies st.dst.uniforms[i] != d by {
                assert(st.dst.uniforms[i].id != d.id);
            }
            assert(new_uniforms(pol, src, dst0).contains(d)) by {
                lemma_uniform_slot(dst0.uniforms, d.id);
                if let Some(i) = uniform_slot(dst0.uniforms, d.id) {
                    assert(st.dst.uniforms[i] == dst0.uniforms[i]);
                }
                pool.lemma_filter_contains(
                    |d: UniformDecl| uniform_slot(dst0.uniforms, d.id) is None,
                    k,
                );
            }
            lemma_drawn_push(dst0.uniforms, st.dst.uniforms, new_uniforms(pol, src, dst0), d);
            let now = st.dst.uniforms.push(d);
            assert forall|m: int, i: int|
                0 <= m < pool.len() && uses_uniform(pol, src.term(root), m) && 0 <= i < now.len()
                    && (#[trigger] pool[m]).id == (#[trigger] now[i]).id implies now[i]
                == pool[m] by {
                if i < st.dst.uniforms.len() {
                    assert(now[i] == st.dst.uniforms[i]);
                } else {
                    assert(pool[k].id == pool[m].id);
                }
            }
        },
    }
}

/// A leaf looked up in the buffer pool: the slot found or declared is valid
/// and holds the declaration looked for.
proof fn lemma_buffer_found(
    pol: Policy,
    src: ArenaModel,
    dst0: ArenaModel,
    root: int,
    st: Copying,
    k: int,
)
    requires
        setting(pol, src, dst0, root),
        good(pol, src, dst0, root, st),
        0 <= k < buffer_pool(pol, src).len(),
        uses_buffer(pol, src.term(root), k),
    ensures
        ({
            let d = buffer_pool(pol, src)[k];
            let (dst, slot) = with_buffer(st.dst, d);
            &&& slot.0 < dst.buffers.len()
            &&& dst.buffers[slot.0 as int] == d
            &&& extends(st.dst, dst)
            &&& drawn_from(dst0.buffers, dst.buffers, new_buffers(pol, src, dst0))
            &&& buffers_agree(pol, src, root, dst.buffers)
            &&& match buffer_slot(st.dst.buffers, d.id) {
                Some(i) => i == slot.0 && i < st.dst.buffers.len() && st.dst.buffers[i] == d,
                None => st.dst.buffers.len() < u16::MAX && slot.0 == st.dst.buffers.len(),
            }
        }),
{
    let pool = buffer_pool(pol, src);
    let d = pool[k];
    lemma_buffer_slot(st.dst.buffers, d.id);
    lemma_drawn_len(dst0.buffers, st.dst.buffers, new_buffers(pol, src, dst0));
    match buffer_slot(st.dst.buffers, d.id) {
        Some(i) => {
            assert(pool[k].id == st.dst.buffers[i].id);
        },
        None => {
            assert forall|i: int| 0 <= i < st.dst.buffers.len() implies st.dst.buffers[i] != d by {
                assert(st.dst.buffers[i].id != d.id);
            }
            assert(new_buffers(pol, src, dst0).contains(d)) by {
                lemma_buffer_slot(dst0.buffers, d.id);
                if let Some(i) = buffer_slot(dst0.buffers, d.id) {
                    assert(st.dst.buffers[i] == dst0.buffers[i]);
                }
                pool.lemma_filter_contains(
                    |d: BufferDecl| buffer_slot(dst0.buffers, d.id) is None,
                    k,
                );
            }
            lemma_drawn_push(dst0.buffers, st.dst.buffers, new_buffers(pol, src, dst0), d);
            let now = st.dst.buffers.push(d);
            assert forall|m: int, i: int|
                0 <= m < pool.len() && uses_buffer(pol, src.term(root), m) && 0 <= i < now.len()
                    && (#[trigger] pool[m]).id == (#[trigger] now[i]).id implies now[i]
                == pool[m] by {
                if i < st.dst.buffers.len() {
                    assert(now[i] == st.dst.buffers[i]);
                } else {
                    assert(pool[k].id == pool[m].id);
                }
            }
        },
    }
}

proof fn lemma_replacement(subs: Seq<(u8, ExprId)>, v: u8)
    ensures
        match replacement(subs, v) {
            Some(r) => exists|i: int|
                0 <= i < subs.len() && (#[trigger] subs[i]).0 == v && subs[i].1 == r && forall|
                    j: int,
                |
                    0 <= j < i ==> (#[trigger] subs[j]).0 != v,
            None => forall|i: int| 0 <= i < subs.len() ==> (#[trigger] subs[i]).0 != v,
        },
    decreases subs.len(),
{
    if subs.len() > 0 {
        let rest = subs.drop_last();
        lemma_replacement(rest, v);
        assert forall|j: int| 0 <= j < rest.len() implies rest[j] == subs[j] by {}
        if replacement(rest, v) is Some {
            let i = choose|i: int|
                0 <= i < rest.len() && (#[trigger] rest[i]).0 == v && rest[i].1 == replacement(
                    rest,
                    v,
                )->Some_0 && forall|j: int| 0 <= j < i ==> (#[trigger] rest[j]).0 != v;
            assert(subs[i] == rest[i]);
            assert forall|j: int| 0 <= j < i implies (#[trigger] subs[j]).0 != v by {
                assert(rest[j].0 != v);
            }
        } else if subs.last().0 == v {
            assert(subs[subs.len() - 1].0 == v);
            assert forall|j: int| 0 <= j < subs.len() - 1 implies (#[trigger] subs[j]).0 != v by {
                assert(rest[j].0 != v);
            }
        } else {
            assert forall|j: int| 0 <= j < subs.len() implies (#[trigger] subs[j]).0 != v by {
                if j < subs.len() - 1 {
                    assert(rest[j].0 != v);
                }
            }
        }
    }
}


/// A leaf node `n` appended to `dst`, where it denotes `t`.
proof fn lemma_leaf_appended(dst: ArenaModel, n: ExprNode)
    requires
        dst.wf(),
        dst.nodes.len() <= u32::MAX,
        n is Const || n is Buffer || n is Uniform,
        dst.slot_ok(n),
    ensures
        appended(dst, n).wf(),
        extends(dst, appended(dst, n)),
        appended(dst, n).term(dst.nodes.len() as int) == (Term {
            head: dst.head_of(n),
            kids: Seq::empty(),
        }),
{
    let b = appended(dst, n);
    let p = dst.nodes.len() as int;
    assert(b.kids(p) =~= Seq::<ExprId>::empty());
    assert(b.node_ok(p, b.nodes[p]));
    lemma_wf_append(dst, b);
    lemma_new_term(dst, b, Seq::empty());
    assert(b.term(p).kids =~= Seq::<Term>::empty());
}

/// A longer declaration table keeps an arena well-formed.
proof fn lemma_wf_declared(a: ArenaModel, b: ArenaModel)
    requires
        a.wf(),
        extends(a, b),
        a.nodes == b.nodes,
        a.nary == b.nary,
    ensures
        b.wf(),
{
    assert forall|i: int| 0 <= i < b.nodes.len() implies b.node_ok(i, #[trigger] b.nodes[i]) by {
        assert(a.node_ok(i, a.nodes[i]));
        assert(a.kids_of(a.nodes[i]) == b.kids_of(b.nodes[i]));
    }
}

/// Placing one node keeps the copy good.
proof fn lemma_emit(
    pol: Policy,
    src: ArenaModel,
    dst0: ArenaModel,
    root: int,
    st: Copying,
    i: int,
)
    requires
        setting(pol, src, dst0, root),
        good(pol, src, dst0, root, st),
        0 <= i < src.nodes.len(),
        st.map[i] is None,
        within(src, i, root),
        kids_mapped(src, st.map, i),
    ensures
        good(pol, src, dst0, root, emitted(pol, src, st, i)),
        st.dst.nodes.len() <= u32::MAX,
        st.dst.nary.len() + nary_len(src.nodes[i]) <= u32::MAX,
        match (pol, src.nodes[i]) {
            (Policy::Params(ps), ExprNode::Param(k)) => {
                &&& k < ps.len()
                &&& ps[k as int] matches Scalar::Uniform(u) ==> match uniform_slot(
                    st.dst.uniforms,
                    u.0.id,
                ) {
                    Some(j) => 0 <= j < st.dst.uniforms.len() && j <= u16::MAX
                        && st.dst.uniforms[j] == u.0,
                    None => st.dst.uniforms.len() < u16::MAX,
                }
            },
            (Policy::Splice, ExprNode::Uniform(u)) => {
                let d = src.uniforms[u.0 as int];
                match uniform_slot(st.dst.uniforms, d.id) {
                    Some(j) => 0 <= j < st.dst.uniforms.len() && j <= u16::MAX
                        && st.dst.uniforms[j] == d,
                    None => st.dst.uniforms.len() < u16::MAX,
                }
            },
            (Policy::Splice, ExprNode::Buffer(b)) => {
                let d = src.buffers[b.0 as int];
                match buffer_slot(st.dst.buffers, d.id) {
                    Some(j) => 0 <= j < st.dst.buffers.len() && j <= u16::MAX
                        && st.dst.buffers[j] == d,
                    None => st.dst.buffers.len() < u16::MAX,
                }
            },
            _ => true,
        },
{
    let n = src.nodes[i];
    let u = src.term(i);
    let next = emitted(pol, src, st, i);
    lemma_term_kids(src, i);
    assert(src.node_ok(i, n));
    lemma_filled_update(st.map, i, next.map[i]->Some_0);
    lemma_filled_bound(st.map);
    lemma_taken_update(src.nodes, st.map, i, next.map[i]->Some_0);
    lemma_taken_bound(src.nodes, next.map);
    let p = st.dst.nodes.len() as int;
    match (pol, n) {
        (Policy::Params(ps), ExprNode::Param(k)) => {
            let q = |t: Term| t.head matches Head::Param(k) && k >= ps.len();
            if k >= ps.len() {
                assert(q(u));
                assert(u.any(q));
                assert(false);
            }
            match ps[k as int] {
                Scalar::Const(v) => {
                    lemma_leaf_appended(st.dst, ExprNode::Const(v));
                    assert(next.dst.term(p).unslotted().kids =~= Seq::<Term>::empty());
                },
                Scalar::Uniform(h) => {
                    let q2 = |x: Term|
                        x.head == Head::Param(k as int as u8) && 0 <= k <= u8::MAX
                            && ps[k as int] is Uniform;
                    assert(q2(u));
                    assert(u.any(q2));
                    assert(uses_uniform(pol, src.term(root), k as int));
                    assert(uniform_pool(pol, src)[k as int] == h.0);
                    lemma_uniform_found(pol, src, dst0, root, st, k as int);
                    let (mid, slot) = with_uniform(st.dst, h.0);
                    lemma_wf_declared(st.dst, mid);
                    lemma_leaf_appended(mid, ExprNode::Uniform(slot));
                    assert(next.dst.term(p).unslotted().kids =~= Seq::<Term>::empty());
                },
            }
        },
        (Policy::Splice, ExprNode::Uniform(s)) => {
            let q = |x: Term| x.head matches Head::Uniform(z, _) && z.0 == s.0 as int;
            assert(q(u));
            assert(u.any(q));
            assert(uses_uniform(pol, src.term(root), s.0 as int));
            lemma_uniform_found(pol, src, dst0, root, st, s.0 as int);
            let (mid, slot) = with_uniform(st.dst, src.uniforms[s.0 as int]);
            lemma_wf_declared(st.dst, mid);
            lemma_leaf_appended(mid, ExprNode::Uniform(slot));
            assert(next.dst.term(p).unslotted().kids =~= u.rewritten(pol, src).kids);
        },
        (Policy::Splice, ExprNode::Buffer(s)) => {
            let q = |x: Term| x.head matches Head::Buffer(z, _) && z.0 == s.0 as int;
            assert(q(u));
            assert(u.any(q));
            assert(uses_buffer(pol, src.term(root), s.0 as int));
            lemma_buffer_found(pol, src, dst0, root, st, s.0 as int);
            let (mid, slot) = with_buffer(st.dst, src.buffers[s.0 as int]);
            lemma_wf_declared(st.dst, mid);
            lemma_leaf_appended(mid, ExprNode::Buffer(slot));
            assert(next.dst.term(p).unslotted().kids =~= u.rewritten(pol, src).kids);
        },
        (Policy::Vars(subs), ExprNode::Var(v)) => {
            lemma_replacement(subs, v);
            match replacement(subs, v) {
                Some(r) => {
                    let j = choose|j: int|
                        0 <= j < subs.len() && (#[trigger] subs[j]).0 == v && subs[j].1 == r
                            && forall|k: int| 0 <= k < j ==> (#[trigger] subs[k]).0 != v;
                    assert(src.has(subs[j].1));
                    append_keeps_terms(src, st.dst, r.0 as int);
                },
                None => {
                    lemma_plain_copy(pol, src, dst0, root, st, i);
                },
            }
        },
        _ => {
            assert(st.dst.slot_ok(n) && st.dst.head_of(n) == src.head_of(n)) by {
                if !(pol is Splice) {
                    assert(extends(src, st.dst));
                }
            }
            lemma_plain_copy(pol, src, dst0, root, st, i);
        },
    }
    assert(extends(st.dst, next.dst));
    assert(next.map =~= st.map.update(i, next.map[i]));
    lemma_copies_kept(pol, src, dst0, root, st, next, i);
}

/// What remains to be done for a node.
#[derive(Clone, Copy)]
enum Task {
    /// Copy the expression at the node.
    Descend(ExprId),
    /// Place the node itself: its operands have been dealt with.
    Emit(ExprId),
}

/// The node a task is about.
spec fn task_node(t: Task) -> int {
    match t {
        Task::Descend(id) => id.0 as int,
        Task::Emit(id) => id.0 as int,
    }
}

/// The copy after one task.
spec fn stepped(pol: Policy, src: ArenaModel, st: Copying, t: Task) -> Copying {
    match t {
        Task::Descend(id) => copied(pol, src, st, id.0 as int),
        Task::Emit(id) => if st.map[id.0 as int] is Some {
            st
        } else {
            emitted(pol, src, st, id.0 as int)
        },
    }
}

/// The copy after a list of tasks, the last one first.
spec fn ran(pol: Policy, src: ArenaModel, st: Copying, work: Seq<Task>) -> Copying
    decreases work.len(),
{
    if work.len() == 0 {
        st
    } else {
        ran(pol, src, stepped(pol, src, st, work.last()), work.drop_last())
    }
}

/// Whenever a node is placed in the course of `work`, its operands have been.
spec fn runnable(pol: Policy, src: ArenaModel, st: Copying, work: Seq<Task>) -> bool
    decreases work.len(),
{
    if work.len() == 0 {
        true
    } else {
        &&& work.last() matches Task::Emit(id) ==> st.map[id.0 as int] is Some || kids_mapped(
            src,
            st.map,
            id.0 as int,
        )
        &&& runnable(pol, src, stepped(pol, src, st, work.last()), work.drop_last())
    }
}

/// Tasks copying `ids` from left to right, to be taken from the end.
spec fn descents(ids: Seq<ExprId>) -> Seq<Task> {
    Seq::new(ids.len(), |j: int| Task::Descend(ids[ids.len() - 1 - j]))
}

proof fn lemma_ran_descents(
    pol: Policy,
    src: ArenaModel,
    st: Copying,
    base: Seq<Task>,
    bound: int,
    ids: Seq<ExprId>,
)
    requires
        forall|j: int| 0 <= j < ids.len() ==> (#[trigger] ids[j]).0 < bound,
    ensures
        ran(pol, src, st, base + descents(ids)) == ran(
            pol,
            src,
            copied_all(pol, src, st, bound, ids),
            base,
        ),
        runnable(pol, src, st, base + descents(ids)) == runnable(
            pol,
            src,
            copied_all(pol, src, st, bound, ids),
            base,
        ),
    decreases ids.len(),
{
    let w = base + descents(ids);
    if ids.len() == 0 {
        assert(w =~= base);
    } else {
        assert(w.last() == Task::Descend(ids[0]));
        assert(w.drop_last() =~= base + descents(ids.drop_first()));
        assert(ids[0].0 < bound);
        assert forall|j: int| 0 <= j < ids.drop_first().len() implies (
        #[trigger] ids.drop_first()[j]).0 < bound by {
            assert(ids[j + 1].0 < bound);
        }
        lemma_ran_descents(
            pol,
            src,
            copied(pol, src, st, ids[0].0 as int),
            base,
            bound,
            ids.drop_first(),
        );
    }
}

/// Copying the expression at `i` maps it, keeps what was mapped, and touches
/// no node above it.
pub proof fn lemma_copied_map(pol: Policy, src: ArenaModel, st: Copying, i: int)
    requires
        src.wf(),
        0 <= i < src.nodes.len(),
        st.map.len() == src.nodes.len(),
    ensures
        ({
            let m = copied(pol, src, st, i).map;
            &&& m.len() == st.map.len()
            &&& m[i] is Some
            &&& forall|k: int|
                0 <= k < m.len() && (k > i || st.map[k] is Some) ==> #[trigger] m[k] == st.map[k]
        }),
    decreases i, src.kids(i).len() + 1,
{
    if st.map[i] is None {
        lemma_term_kids(src, i);
        lemma_copied_all_map(pol, src, st, i, src.kids(i));
    }
}

proof fn lemma_copied_all_map(
    pol: Policy,
    src: ArenaModel,
    st: Copying,
    bound: int,
    ids: Seq<ExprId>,
)
    requires
        src.wf(),
        0 <= bound <= src.nodes.len(),
        st.map.len() == src.nodes.len(),
        forall|j: int| 0 <= j < ids.len() ==> 0 <= (#[trigger] ids[j]).0 < bound,
    ensures
        ({
            let m = copied_all(pol, src, st, bound, ids).map;
            &&& m.len() == st.map.len()
            &&& forall|j: int| 0 <= j < ids.len() ==> m[(#[trigger] ids[j]).0 as int] is Some
            &&& forall|k: int|
                0 <= k < m.len() && (k >= bound || st.map[k] is Some) ==> #[trigger] m[k]
                    == st.map[k]
        }),
    decreases bound, ids.len(),
{
    if ids.len() > 0 {
        let first = copied(pol, src, st, ids[0].0 as int);
        lemma_copied_map(pol, src, st, ids[0].0 as int);
        let rest = ids.drop_first();
        assert forall|j: int| 0 <= j < rest.len() implies 0 <= (#[trigger] rest[j]).0 < bound by {
            assert(0 <= ids[j + 1].0 < bound);
        }
        lemma_copied_all_map(pol, src, first, bound, rest);
        let m = copied_all(pol, src, st, bound, ids).map;
        assert forall|j: int| 0 <= j < ids.len() implies m[(#[trigger] ids[j]).0 as int] is Some by {
            if j > 0 {
                assert(rest[j - 1] == ids[j]);
            } else {
                assert(first.map[ids[0].0 as int] is Some);
                assert(m[ids[0].0 as int] == first.map[ids[0].0 as int]);
            }
        }
    }
}

/// Bound on the remaining work: it falls with every task taken.
spec fn effort(src: ArenaModel, work: Seq<Task>) -> nat
    decreases work.len(),
{
    if work.len() == 0 {
        0
    } else {
        effort(src, work.drop_last()) + match work.last() {
            Task::Descend(id) => 2 * src.term(id.0 as int).size(),
            Task::Emit(_) => 1,
        }
    }
}

proof fn lemma_effort_descents(src: ArenaModel, base: Seq<Task>, ids: Seq<ExprId>)
    ensures
        effort(src, base + descents(ids)) == effort(src, base) + 2 * src.weight(ids),
    decreases ids.len(),
{
    let w = base + descents(ids);
    if ids.len() == 0 {
        assert(w =~= base);
    } else {
        assert(w.last() == Task::Descend(ids[0]));
        assert(w.drop_last() =~= base + descents(ids.drop_first()));
        lemma_effort_descents(src, base, ids.drop_first());
        lemma_weight_front(src, ids);
    }
}

/// Weight of a list, its first node taken apart.
pub proof fn lemma_weight_front(m: ArenaModel, ids: Seq<ExprId>)
    requires
        ids.len() > 0,
    ensures
        m.weight(ids) == m.weight(ids.drop_first()) + m.term(ids[0].0 as int).size(),
    decreases ids.len(),
{
    if ids.len() == 1 {
        assert(ids.drop_last() =~= Seq::<ExprId>::empty());
        assert(ids.drop_first() =~= Seq::<ExprId>::empty());
        assert(m.weight(Seq::<ExprId>::empty()) == 0);
    } else {
        assert(ids.drop_first().drop_last() =~= ids.drop_last().drop_first());
        lemma_weight_front(m, ids.drop_last());
    }
}

/// Opening a node up: its own placement, then its operands, in place of the
/// task of copying its expression.
proof fn lemma_open(pol: Policy, src: ArenaModel, st: Copying, work: Seq<Task>)
    requires
        src.wf(),
        st.map.len() == src.nodes.len(),
        work.len() > 0,
        work.last() is Descend,
        0 <= task_node(work.last()) < src.nodes.len(),
        st.map[task_node(work.last())] is None,
        runnable(pol, src, st, work),
    ensures
        ({
            let id = work.last()->Descend_0;
            let opened = work.drop_last().push(Task::Emit(id)) + descents(src.kids(id.0 as int));
            &&& ran(pol, src, st, opened) == ran(pol, src, st, work)
            &&& runnable(pol, src, st, opened)
            &&& effort(src, opened) < effort(src, work)
        }),
{
    let id = work.last()->Descend_0;
    let i = id.0 as int;
    let base = work.drop_last().push(Task::Emit(id));
    let kids = src.kids(i);
    lemma_term_kids(src, i);
    lemma_ran_descents(pol, src, st, base, i, kids);
    lemma_copied_all_map(pol, src, st, i, kids);
    let mid = copied_all(pol, src, st, i, kids);
    assert(mid.map[i] == st.map[i]);
    assert(kids_mapped(src, mid.map, i));
    assert(base.last() == Task::Emit(id));
    assert(base.drop_last() =~= work.drop_last());
    lemma_effort_descents(src, base, kids);
    crate::arena::model::lemma_weight_kids(src, Seq::empty(), i, kids.len() as int);
    assert(kids.take(kids.len() as int) =~= kids);
    assert(Seq::<ExprId>::empty() + kids =~= kids);
    assert(src.term(i).kids.take(kids.len() as int) =~= src.term(i).kids);
    assert(src.weight(Seq::<ExprId>::empty()) == 0);
}


/// The first slot of `table` declaring uniform `id`.
pub(crate) fn find_uniform(table: &[UniformDecl], id: UniformIdentity) -> (r: Option<usize>)
    ensures
        match r {
            Some(i) => uniform_slot(table@, id) == Some(i as int),
            None => uniform_slot(table@, id) is None,
        },
{
    proof {
        lemma_uniform_slot(table@, id);
    }
    let mut i: usize = 0;
    while i < table.len()
        invariant
            i <= table@.len(),
            forall|j: int| 0 <= j < i ==> (#[trigger] table@[j]).id != id,
            match uniform_slot(table@, id) {
                Some(i) => 0 <= i < table@.len() && table@[i].id == id && forall|j: int|
                    0 <= j < i ==> (#[trigger] table@[j]).id != id,
                None => forall|j: int| 0 <= j < table@.len() ==> (#[trigger] table@[j]).id != id,
            },
        decreases table@.len() - i,
    {
        if table[i].id == id {
            return Some(i);
        }
        i += 1;
    }
    None
}

/// The first slot of `table` declaring buffer `id`.
pub(crate) fn find_buffer(table: &[BufferDecl], id: BufferIdentity) -> (r: Option<usize>)
    ensures
        match r {
            Some(i) => buffer_slot(table@, id) == Some(i as int),
            None => buffer_slot(table@, id) is None,
        },
{
    proof {
        lemma_buffer_slot(table@, id);
    }
    let mut i: usize = 0;
    while i < table.len()
        invariant
            i <= table@.len(),
            forall|j: int| 0 <= j < i ==> (#[trigger] table@[j]).id != id,
            match buffer_slot(table@, id) {
                Some(i) => 0 <= i < table@.len() && table@[i].id == id && forall|j: int|
                    0 <= j < i ==> (#[trigger] table@[j]).id != id,
                None => forall|j: int| 0 <= j < table@.len() ==> (#[trigger] table@[j]).id != id,
            },
        decreases table@.len() - i,
    {
        if table[i].id == id {
            return Some(i);
        }
        i += 1;
    }
    None
}

/// The first replacement `subs` lists for variable `v`.
fn find_replacement(subs: &[(u8, ExprId)], v: u8) -> (r: Option<ExprId>)
    ensures
        r == replacement(subs@, v),
{
    proof {
        lemma_replacement(subs@, v);
    }
    let mut i: usize = 0;
    while i < subs.len()
        invariant
            i <= subs@.len(),
            forall|j: int| 0 <= j < i ==> (#[trigger] subs@[j]).0 != v,
            match replacement(subs@, v) {
                Some(r) => exists|i: int|
                    0 <= i < subs@.len() && (#[trigger] subs@[i]).0 == v && subs@[i].1 == r
                        && forall|j: int| 0 <= j < i ==> (#[trigger] subs@[j]).0 != v,
                None => forall|i: int| 0 <= i < subs@.len() ==> (#[trigger] subs@[i]).0 != v,
            },
        decreases subs@.len() - i,
    {
        if subs[i].0 == v {
            return Some(subs[i].1);
        }
        i += 1;
    }
    None
}

/// Adds to `work` the tasks of placing `id` after copying its operands.
fn open_up(work: &mut Vec<Task>, id: ExprId, children: &Vec<ExprId>)
    ensures
        final(work)@ == old(work)@.push(Task::Emit(id)) + descents(children@),
{
    work.push(Task::Emit(id));
    let ghost base = work@;
    let mut left: usize = children.len();
    while left > 0
        invariant
            left <= children@.len(),
            work@ =~= base + descents(children@.skip(left as int)),
        decreases left,
    {
        left -= 1;
        let ghost before = work@;
        work.push(Task::Descend(children[left]));
        proof {
            let rest = children@.skip(left as int);
            assert(rest.drop_first() =~= children@.skip(left as int + 1));
            assert(descents(rest) =~= descents(rest.drop_first()).push(Task::Descend(rest[0])));
        }
    }
    assert(children@.skip(0) =~= children@);
}

/// Where the operands of a node went.
pub(crate) fn mapped_kids(id_map: &Vec<Option<ExprId>>, children: &Vec<ExprId>) -> (v: Vec<ExprId>)
    requires
        forall|j: int|
            0 <= j < children@.len() ==> (#[trigger] children@[j]).0 < id_map@.len()
                && id_map@[children@[j].0 as int] is Some,
    ensures
        v@ == images(id_map@, children@),
{
    let mut v: Vec<ExprId> = Vec::new();
    let mut i: usize = 0;
    while i < children.len()
        invariant
            i <= children@.len(),
            v@.len() == i,
            forall|j: int| 0 <= j < i ==> #[trigger] v@[j] == images(id_map@, children@)[j],
            forall|j: int|
                0 <= j < children@.len() ==> (#[trigger] children@[j]).0 < id_map@.len()
                    && id_map@[children@[j].0 as int] is Some,
        decreases children@.len() - i,
    {
        let c: ExprId = children[i];
        assert(id_map@[children@[i as int].0 as int] is Some);
        match id_map[c.0 as usize] {
            Some(n) => v.push(n),
            None => {},
        }
        i += 1;
    }
    assert(v@ =~= images(id_map@, children@));
    v
}

/// Rewritings whose result lands in the arena they read.
enum Rewrite<'a> {
    Params(&'a [Scalar]),
    Vars(&'a [(u8, ExprId)]),
}

impl<'a> Rewrite<'a> {
    spec fn policy(&self) -> Policy {
        match *self {
            Rewrite::Params(ps) => Policy::Params(ps@),
            Rewrite::Vars(subs) => Policy::Vars(subs@),
        }
    }
}

/// An extended arena still holds the nodes and operands of the original.
proof fn lemma_extends_kids(a: ArenaModel, b: ArenaModel, i: int)
    requires
        a.wf(),
        extends(a, b),
        0 <= i < a.nodes.len(),
    ensures
        b.nodes[i] == a.nodes[i],
        b.kids(i) == a.kids(i),
        b.range_ok(b.nodes[i]),
{
    assert(a.node_ok(i, a.nodes[i]));
    assert(b.kids(i) =~= a.kids(i));
}

/// The tasks on `work` are about nodes occurring in the expression at `root`.
spec fn tasks_within(src: ArenaModel, work: Seq<Task>, root: int) -> bool {
    forall|k: int|
        0 <= k < work.len() ==> 0 <= task_node(#[trigger] work[k]) < src.nodes.len() && within(
            src,
            task_node(work[k]),
            root,
        )
}

proof fn lemma_tasks_opened(src: ArenaModel, work: Seq<Task>, root: int, id: ExprId)
    requires
        src.wf(),
        work.len() > 0,
        tasks_within(src, work, root),
        work.last() == Task::Descend(id),
    ensures
        tasks_within(
            src,
            work.drop_last().push(Task::Emit(id)) + descents(src.kids(id.0 as int)),
            root,
        ),
{
    let kids = src.kids(id.0 as int);
    let base = work.drop_last().push(Task::Emit(id));
    let opened = base + descents(kids);
    assert(task_node(work[work.len() - 1]) == id.0);
    lemma_term_kids(src, id.0 as int);
    assert forall|k: int| 0 <= k < opened.len() implies 0 <= task_node(#[trigger] opened[k])
        < src.nodes.len() && within(src, task_node(opened[k]), root) by {
        if k < base.len() - 1 {
            assert(opened[k] == work[k]);
        } else if k == base.len() - 1 {
            assert(opened[k] == Task::Emit(id));
        } else {
            let j = kids.len() - 1 - (k - base.len());
            assert(opened[k] == Task::Descend(kids[j]));
            lemma_within_kid(src, id.0 as int, root, j);
        }
    }
}

impl ExprArena {
    /// The slot naming `decl`'s instance, declaring one if this is the first
    /// time that identity is seen. An identity declared with another default
    /// is a corrupt graph.
    fn uniform_slot_for(&mut self, decl: UniformDecl) -> (id: UniformId)
        requires
            match uniform_slot(old(self)@.uniforms, decl.id) {
                Some(j) => 0 <= j < old(self)@.uniforms.len() && j <= u16::MAX
                    && old(self)@.uniforms[j] == decl,
                None => old(self)@.uniforms.len() < u16::MAX,
            },
        ensures
            (final(self)@, id) == with_uniform(old(self)@, decl),
    {
        match find_uniform(self.uniforms.as_slice(), decl.id) {
            Some(i) => UniformId(i as u16),
            None => self.declare_uniform(decl),
        }
    }

    /// The slot naming `decl`'s memory, declaring one if this is the first time
    /// that identity is seen.
    fn buffer_slot_for(&mut self, decl: BufferDecl) -> (id: BufferId)
        requires
            match buffer_slot(old(self)@.buffers, decl.id) {
                Some(j) => 0 <= j < old(self)@.buffers.len() && j <= u16::MAX
                    && old(self)@.buffers[j] == decl,
                None => old(self)@.buffers.len() < u16::MAX,
            },
        ensures
            (final(self)@, id) == with_buffer(old(self)@, decl),
    {
        match find_buffer(self.buffers.as_slice(), decl.id) {
            Some(i) => BufferId(i as u16),
            None => self.declare_buffer(decl),
        }
    }

    /// Appends a copy of `n` whose operands are `ks`.
    pub(crate) fn push_copy(&mut self, n: ExprNode, ks: &Vec<ExprId>) -> (id: ExprId)
        requires
            old(self)@.has_room(),
            old(self)@.nary.len() <= u32::MAX,
            n is Unary || n is Reduce ==> ks@.len() == 1,
            n is Binary ==> ks@.len() == 2,
            n is Ternary ==> ks@.len() == 3,
            ks@.len() <= u16::MAX,
        ensures
            id == ExprId(old(self)@.nodes.len() as u32),
            final(self)@ == appended_copy(old(self)@, n, ks@),
    {
        match n {
            ExprNode::Unary(op, _) => self.push_unary(op, ks[0]),
            ExprNode::Binary(op, _, _) => self.push_binary(op, ks[0], ks[1]),
            ExprNode::Ternary(op, _, _, _) => self.push_ternary(op, ks[0], ks[1], ks[2]),
            ExprNode::Nary(op, _, _) => self.push_nary(op, ks.as_slice()),
            ExprNode::Reduce { fold, body: _ } => self.push_reduce(fold, ks[0]),
            leaf => self.push_node(leaf),
        }
    }

    /// Rebuilds the expression at `root` in this arena, leaves rewritten.
    fn rebuild(&mut self, root: ExprId, how: Rewrite<'_>) -> (r: ExprId)
        requires
            setting(how.policy(), old(self)@, old(self)@, root.0 as int),
            declarations_agree(how.policy(), old(self)@, old(self)@, root),
        ensures
            final(self)@ == whole_copy(how.policy(), old(self)@, old(self)@, root).dst,
            Some(r) == whole_copy(how.policy(), old(self)@, old(self)@, root).map[root.0 as int],
            final(self)@.wf(),
            final(self)@.has(r),
            extends(old(self)@, final(self)@),
            final(self)@.term(r.0 as int).unslotted() == old(self)@.term(root.0 as int).rewritten(
                how.policy(),
                old(self)@,
            ),
    {
        let ghost src = self@;
        let ghost pol = how.policy();
        let ghost top = root.0 as int;
        let n: usize = self.len();
        let mut id_map: Vec<Option<ExprId>> = Vec::new();
        while id_map.len() < n
            invariant
                id_map@.len() <= n,
                forall|i: int| 0 <= i < id_map@.len() ==> (#[trigger] id_map@[i]) is None,
            decreases n - id_map@.len(),
        {
            id_map.push(None);
        }
        let ghost start = Copying {
            dst: src,
            map: Seq::new(src.nodes.len(), |i: int| None),
        };
        let mut work: Vec<Task> = Vec::new();
        work.push(Task::Descend(root));
        proof {
            assert(id_map@ =~= start.map);
            lemma_filled_none(id_map@);
            assert(src.uniforms.skip(src.uniforms.len() as int) =~= Seq::empty());
            assert(src.buffers.skip(src.buffers.len() as int) =~= Seq::empty());
            assert(work@.drop_last() =~= Seq::<Task>::empty());
            assert(ran(pol, src, copied(pol, src, start, top), Seq::<Task>::empty()) == copied(
                pol,
                src,
                start,
                top,
            ));
            assert(runnable(pol, src, copied(pol, src, start, top), Seq::<Task>::empty()));
            assert(task_node(work@[0]) == top);
        }
        while work.len() > 0
            invariant
                pol == how.policy(),
                top == root.0,
                setting(pol, src, src, top),
                good(pol, src, src, top, Copying { dst: self@, map: id_map@ }),
                tasks_within(src, work@, top),
                ran(pol, src, Copying { dst: self@, map: id_map@ }, work@) == whole_copy(
                    pol,
                    src,
                    src,
                    root,
                ),
                runnable(pol, src, Copying { dst: self@, map: id_map@ }, work@),
            decreases effort(src, work@),
        {
            let ghost st = Copying { dst: self@, map: id_map@ };
            let ghost w = work@;
            let task: Task = match work.pop() {
                Some(t) => t,
                None => Task::Emit(root),
            };
            proof {
                assert(w[w.len() - 1] == task);
                assert(0 <= task_node(w[w.len() - 1]) < src.nodes.len());
                assert(tasks_within(src, work@, top)) by {
                    assert forall|k: int| 0 <= k < work@.len() implies 0 <= task_node(
                        #[trigger] work@[k],
                    ) < src.nodes.len() && within(src, task_node(work@[k]), top) by {
                        assert(work@[k] == w[k]);
                    }
                }
            }
            match task {
                Task::Descend(id) => {
                    proof {
                        lemma_extends_kids(src, self@, id.0 as int);
                    }
                    if id_map[id.0 as usize].is_none() {
                        let children = self.children(id).collect();
                        proof {
                            lemma_open(pol, src, st, w);
                            lemma_tasks_opened(src, w, top, id);
                        }
                        open_up(&mut work, id, &children);
                    }
                },
                Task::Emit(id) => {
                    proof {
                        lemma_extends_kids(src, self@, id.0 as int);
                        lemma_term_kids(src, id.0 as int);
                    }
                    if id_map[id.0 as usize].is_none() {
                        proof {
                            lemma_emit(pol, src, src, top, st, id.0 as int);
                        }
                        let children = self.children(id).collect();
                        assert forall|j: int| 0 <= j < children@.len() implies (
                        #[trigger] children@[j]).0 < id_map@.len()
                            && id_map@[children@[j].0 as int] is Some by {
                            assert(src.kids(id.0 as int)[j].0 < id.0);
                        }
                        let kids = mapped_kids(&id_map, &children);
                        let node: ExprNode = self.nodes[id.0 as usize];
                        let new_id: ExprId = match (node, &how) {
                            (ExprNode::Param(k), Rewrite::Params(ps)) => match ps[k as usize] {
                                Scalar::Const(v) => self.push_const(v),
                                Scalar::Uniform(u) => {
                                    let slot = self.uniform_slot_for(u.decl());
                                    proof {
                                        lemma_uniform_slot(st.dst.uniforms, u.0.id);
                                    }
                                    self.push_uniform(slot)
                                },
                            },
                            (ExprNode::Var(v), Rewrite::Vars(subs)) => match find_replacement(
                                subs,
                                v,
                            ) {
                                Some(r) => r,
                                None => self.push_copy(node, &kids),
                            },
                            _ => self.push_copy(node, &kids),
                        };
                        id_map.set(id.0 as usize, Some(new_id));
                        assert(Copying { dst: self@, map: id_map@ } =~= emitted(
                            pol,
                            src,
                            st,
                            id.0 as int,
                        ));
                    }
                },
            }
        }
        proof {
            lemma_copied_map(pol, src, start, top);
            assert(id_map@[top] is Some);
        }
        match id_map[root.0 as usize] {
            Some(r) => r,
            None => root,
        }
    }

    /// Replace every `Param(i)` with what `params[i]` says it is: a constant,
    /// or a uniform slot declared for the handle's identity.
    ///
    /// Returns the new root in the same arena; nothing already stored changes.
    pub fn substitute_params(&mut self, root: ExprId, params: &[Scalar]) -> (r: ExprId)
        requires
            old(self)@.wf(),
            old(self)@.has(root),
            leaves_covered(Policy::Params(params@), old(self)@, root),
            declarations_agree(Policy::Params(params@), old(self)@, old(self)@, root),
            copy_fits(Policy::Params(params@), old(self)@, old(self)@),
        ensures
            final(self)@ == whole_copy(
                Policy::Params(params@),
                old(self)@,
                old(self)@,
                root,
            ).dst,
            Some(r) == whole_copy(Policy::Params(params@), old(self)@, old(self)@, root).map[
                root.0 as int],
            final(self)@.wf(),
            final(self)@.has(r),
            extends(old(self)@, final(self)@),
            final(self)@.term(r.0 as int).unslotted() == old(self)@.term(root.0 as int).rewritten(
                Policy::Params(params@),
                old(self)@,
            ),
    {
        self.rebuild(root, Rewrite::Params(params))
    }

    /// Rebuild the expression at `root`, replacing every `Var(i)` for which
    /// `subs` has an entry with the given (already existing) node.
    ///
    /// Returns the new root in the same arena; nothing already stored changes.
    pub fn substitute_vars_with(&mut self, root: ExprId, subs: &[(u8, ExprId)]) -> (r: ExprId)
        requires
            old(self)@.wf(),
            old(self)@.has(root),
            leaves_covered(Policy::Vars(subs@), old(self)@, root),
            copy_fits(Policy::Vars(subs@), old(self)@, old(self)@),
        ensures
            final(self)@ == whole_copy(Policy::Vars(subs@), old(self)@, old(self)@, root).dst,
            Some(r) == whole_copy(Policy::Vars(subs@), old(self)@, old(self)@, root).map[
                root.0 as int],
            final(self)@.wf(),
            final(self)@.has(r),
            extends(old(self)@, final(self)@),
            final(self)@.term(r.0 as int).unslotted() == old(self)@.term(root.0 as int).rewritten(
                Policy::Vars(subs@),
                old(self)@,
            ),
    {
        self.rebuild(root, Rewrite::Vars(subs))
    }

    /// Copy the expression at `root` of `other` into this arena, returning its
    /// root here. Shared subexpressions are copied once; buffers and uniforms
    /// are merged by identity.
    pub fn splice(&mut self, other: &ExprArena, root: ExprId) -> (r: ExprId)
        requires
            old(self)@.wf(),
            other@.wf(),
            other@.has(root),
            declarations_agree(Policy::Splice, other@, old(self)@, root),
            copy_fits(Policy::Splice, other@, old(self)@),
        ensures
            final(self)@ == whole_copy(Policy::Splice, other@, old(self)@, root).dst,
            Some(r) == whole_copy(Policy::Splice, other@, old(self)@, root).map[root.0 as int],
            final(self)@.wf(),
            final(self)@.has(r),
            extends(old(self)@, final(self)@),
            final(self)@.term(r.0 as int).unslotted() == other@.term(root.0 as int).unslotted(),
    {
        let ghost src = other@;
        let ghost dst0 = self@;
        let ghost pol = Policy::Splice;
        let ghost top = root.0 as int;
        let n: usize = other.len();
        let mut id_map: Vec<Option<ExprId>> = Vec::new();
        while id_map.len() < n
            invariant
                id_map@.len() <= n,
                forall|i: int| 0 <= i < id_map@.len() ==> (#[trigger] id_map@[i]) is None,
            decreases n - id_map@.len(),
        {
            id_map.push(None);
        }
        let ghost start = Copying {
            dst: dst0,
            map: Seq::new(src.nodes.len(), |i: int| None),
        };
        let mut work: Vec<Task> = Vec::new();
        work.push(Task::Descend(root));
        proof {
            assert(id_map@ =~= start.map);
            lemma_filled_none(id_map@);
            assert(dst0.uniforms.skip(dst0.uniforms.len() as int) =~= Seq::empty());
            assert(dst0.buffers.skip(dst0.buffers.len() as int) =~= Seq::empty());
            assert(work@.drop_last() =~= Seq::<Task>::empty());
            assert(ran(pol, src, copied(pol, src, start, top), Seq::<Task>::empty()) == copied(
                pol,
                src,
                start,
                top,
            ));
            assert(runnable(pol, src, copied(pol, src, start, top), Seq::<Task>::empty()));
            assert(task_node(work@[0]) == top);
        }
        while work.len() > 0
            invariant
                pol == Policy::Splice,
                src == other@,
                top == root.0,
                setting(pol, src, dst0, top),
                good(pol, src, dst0, top, Copying { dst: self@, map: id_map@ }),
                tasks_within(src, work@, top),
                ran(pol, src, Copying { dst: self@, map: id_map@ }, work@) == whole_copy(
                    pol,
                    src,
                    dst0,
                    root,
                ),
                runnable(pol, src, Copying { dst: self@, map: id_map@ }, work@),
            decreases effort(src, work@),
        {
            let ghost st = Copying { dst: self@, map: id_map@ };
            let ghost w = work@;
            let task: Task = match work.pop() {
                Some(t) => t,
                None => Task::Emit(root),
            };
            proof {
                assert(w[w.len() - 1] == task);
                assert(0 <= task_node(w[w.len() - 1]) < src.nodes.len());
                assert(tasks_within(src, work@, top)) by {
                    assert forall|k: int| 0 <= k < work@.len() implies 0 <= task_node(
                        #[trigger] work@[k],
                    ) < src.nodes.len() && within(src, task_node(work@[k]), top) by {
                        assert(work@[k] == w[k]);
                    }
                }
            }
            match task {
                Task::Descend(id) => {
                    if id_map[id.0 as usize].is_none() {
                        assert(src.node_ok(id.0 as int, src.nodes[id.0 as int]));
                        let children = other.children(id).collect();
                        proof {
                            lemma_open(pol, src, st, w);
                            lemma_tasks_opened(src, w, top, id);
                        }
                        open_up(&mut work, id, &children);
                    }
                },
                Task::Emit(id) => {
                    proof {
                        lemma_term_kids(src, id.0 as int);
                        assert(src.node_ok(id.0 as int, src.nodes[id.0 as int]));
                    }
                    if id_map[id.0 as usize].is_none() {
                        proof {
                            lemma_emit(pol, src, dst0, top, st, id.0 as int);
                        }
                        let children = other.children(id).collect();
                        assert forall|j: int| 0 <= j < children@.len() implies (
                        #[trigger] children@[j]).0 < id_map@.len()
                            && id_map@[children@[j].0 as int] is Some by {
                            assert(src.kids(id.0 as int)[j].0 < id.0);
                        }
                        let kids = mapped_kids(&id_map, &children);
                        let node: ExprNode = other.nodes[id.0 as usize];
                        let new_id: ExprId = match node {
                            ExprNode::Buffer(b) => {
                                let slot = self.buffer_slot_for(other.buffers[b.0 as usize]);
                                proof {
                                    lemma_buffer_slot(
                                        st.dst.buffers,
                                        src.buffers[b.0 as int].id,
                                    );
                                }
                                self.push_buffer(slot)
                            },
                            ExprNode::Uniform(u) => {
                                let slot = self.uniform_slot_for(other.uniforms[u.0 as usize]);
                                proof {
                                    lemma_uniform_slot(
                                        st.dst.uniforms,
                                        src.uniforms[u.0 as int].id,
                                    );
                                }
                                self.push_uniform(slot)
                            },
                            _ => self.push_copy(node, &kids),
                        };
                        id_map.set(id.0 as usize, Some(new_id));
                        assert(Copying { dst: self@, map: id_map@ } =~= emitted(
                            pol,
                            src,
                            st,
                            id.0 as int,
                        ));
                    }
                },
            }
        }
        proof {
            lemma_copied_map(pol, src, start, top);
            assert(id_map@[top] is Some);
            lemma_splice_rewrite(src.term(top), src);
        }
        match id_map[root.0 as usize] {
            Some(r) => r,
            None => root,
        }
    }
}

} // verus!
