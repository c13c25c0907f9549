//! Lowering to primitive operations.
//!
//! Functions such as `sin` or `atan` have no machine instruction on any target:
//! they are polynomials. Before code generation this module rewrites them into
//! the nodes that compute them, so that no backend sees a transcendental node.
//! In the same way buffer reads become index arithmetic and a primitive read,
//! and bounded folds are unrolled.
//!
//! Each pass rebuilds the expression operands first and returns its new root in
//! the same arena; nothing already stored changes.

use crate::arena::link::{lemma_reaches_below, reaches};
use crate::arena::model::{lemma_term_kids, ArenaModel, Head, Term};
use crate::arena::order::{operands_first, postorder, postorder_lists_the_expression};
use crate::arena::rewrite::{
    append_keeps_terms, appended_copy, extends, lemma_new_term, lemma_wf_append, mapped_kids,
};
use crate::arena::{BufferDecl, ExprArena, ExprId, ExprNode};
use crate::backend::emit::lowering::programs::{
    atan2_program, atan2_steps, exp2_program, exp2_steps, lemma_atan2_ok, lemma_exp2_ok,
    lemma_log2_ok, lemma_sin_ok, log2_program, log2_steps, program_ok, sin_program, sin_steps,
    transcendental_binary, transcendental_unary, Operand, Step,
};
use crate::backend::emit::lowering::rebuild::{
    fits, keeps_buffers, lemma_operands_placed, lemma_rebuild_step, lemma_rebuilt_grows,
    lemma_rebuilt_root, only_grows, operands_kept, placed_ok, rebuild_ok, rebuilt, rebuilt_root,
    step_means, Emit, Meaning, Rebuilt,
};
use crate::backend::emit::lowering::runner::{
    bin, built, cst, grown, lemma_built, lemma_push_node, program_term, pushed,
    run_program, step_term, step_terms, terms_of, transcendental, un,
};
use crate::fold::Fold;
use crate::kind::OpKind;
use crate::number::{float_bits, float_from_u32};
use vstd::prelude::*;

pub mod accuracy;
pub mod inverse;
pub mod logarithms;
pub mod stepping;
pub mod trigonometry;
pub mod exact;
pub mod programs;
pub mod reads;
pub mod rebuild;
pub mod runner;

verus! {

/// A lowering pass.
#[derive(Clone, Copy, PartialEq, Eq, Structural, Debug)]
pub enum Pass {
    /// Transcendental functions become primitive operations.
    Transcendentals,
    /// Buffer reads become index arithmetic and a primitive read.
    Gathers,
    /// Bounded folds become explicit accumulations.
    Folds,
    /// One variable becomes a constant.
    Bind(u8, u32),
}

/// Nodes computing a transcendental function of `x`.
pub open spec fn unary_nodes(m: ArenaModel, op: OpKind, x: ExprId) -> (ArenaModel, ExprId) {
    match op {
        OpKind::Sin => built(m, sin_steps(), seq![x]),
        // cos(x) = sin(x + pi/2)
        OpKind::Cos => {
            let (m, half_pi) = pushed(m, ExprNode::Const(0x3FC90FDB));
            let (m, shifted) = pushed(m, ExprNode::Binary(OpKind::Add, x, half_pi));
            built(m, sin_steps(), seq![shifted])
        },
        // tan(x) = sin(x) / cos(x)
        OpKind::Tan => {
            let (m, s) = built(m, sin_steps(), seq![x]);
            let (m, half_pi) = pushed(m, ExprNode::Const(0x3FC90FDB));
            let (m, shifted) = pushed(m, ExprNode::Binary(OpKind::Add, x, half_pi));
            let (m, c) = built(m, sin_steps(), seq![shifted]);
            pushed(m, ExprNode::Binary(OpKind::Div, s, c))
        },
        OpKind::Exp2 => built(m, exp2_steps(), seq![x]),
        // exp(x) = 2^(x * log2(e))
        OpKind::Exp => {
            let (m, log2e) = pushed(m, ExprNode::Const(0x3FB8AA3B));
            let (m, scaled) = pushed(m, ExprNode::Binary(OpKind::Mul, x, log2e));
            built(m, exp2_steps(), seq![scaled])
        },
        OpKind::Log2 => built(m, log2_steps(), seq![x]),
        // ln(x) = log2(x) * ln(2)
        OpKind::Ln => {
            let (m, l) = built(m, log2_steps(), seq![x]);
            let (m, ln2) = pushed(m, ExprNode::Const(0x3F317218));
            pushed(m, ExprNode::Binary(OpKind::Mul, l, ln2))
        },
        // log10(x) = log2(x) * log10(2)
        OpKind::Log10 => {
            let (m, l) = built(m, log2_steps(), seq![x]);
            let (m, log10_2) = pushed(m, ExprNode::Const(0x3E9A209B));
            pushed(m, ExprNode::Binary(OpKind::Mul, l, log10_2))
        },
        // atan(x) = atan2(x, 1)
        OpKind::Atan => {
            let (m, one) = pushed(m, ExprNode::Const(0x3F800000));
            built(m, atan2_steps(), seq![x, one])
        },
        // asin(x) = atan2(x, sqrt(1 - x * x))
        OpKind::Asin => {
            let (m, s) = cosine_nodes(m, x);
            built(m, atan2_steps(), seq![x, s])
        },
        // acos(x) = atan2(sqrt(1 - x * x), x)
        OpKind::Acos => {
            let (m, s) = cosine_nodes(m, x);
            built(m, atan2_steps(), seq![s, x])
        },
        _ => (m, x),
    }
}

/// Nodes computing sqrt(1 - x * x).
pub open spec fn cosine_nodes(m: ArenaModel, x: ExprId) -> (ArenaModel, ExprId) {
    let (m, one) = pushed(m, ExprNode::Const(0x3F800000));
    let (m, x2) = pushed(m, ExprNode::Binary(OpKind::Mul, x, x));
    let (m, t) = pushed(m, ExprNode::Binary(OpKind::Sub, one, x2));
    pushed(m, ExprNode::Unary(OpKind::Sqrt, t))
}

/// What [`unary_nodes`] denotes.
pub open spec fn unary_term(op: OpKind, x: Term) -> Term {
    let shifted = bin(OpKind::Add, x, cst(0x3FC90FDB));
    match op {
        OpKind::Sin => program_term(sin_steps(), seq![x]),
        OpKind::Cos => program_term(sin_steps(), seq![shifted]),
        OpKind::Tan => bin(
            OpKind::Div,
            program_term(sin_steps(), seq![x]),
            program_term(sin_steps(), seq![shifted]),
        ),
        OpKind::Exp2 => program_term(exp2_steps(), seq![x]),
        OpKind::Exp => program_term(
            exp2_steps(),
            seq![bin(OpKind::Mul, x, cst(0x3FB8AA3B))],
        ),
        OpKind::Log2 => program_term(log2_steps(), seq![x]),
        OpKind::Ln => bin(
            OpKind::Mul,
            program_term(log2_steps(), seq![x]),
            cst(0x3F317218),
        ),
        OpKind::Log10 => bin(
            OpKind::Mul,
            program_term(log2_steps(), seq![x]),
            cst(0x3E9A209B),
        ),
        OpKind::Atan => program_term(atan2_steps(), seq![x, cst(0x3F800000)]),
        OpKind::Asin => program_term(atan2_steps(), seq![x, cosine_term(x)]),
        OpKind::Acos => program_term(atan2_steps(), seq![cosine_term(x), x]),
        _ => x,
    }
}

/// sqrt(1 - x * x).
pub open spec fn cosine_term(x: Term) -> Term {
    un(
        OpKind::Sqrt,
        bin(OpKind::Sub, cst(0x3F800000), bin(OpKind::Mul, x, x)),
    )
}

/// `n` less one, or zero.
pub open spec fn last_index(n: u32) -> u32 {
    if n == 0 {
        0
    } else {
        (n - 1) as u32
    }
}

/// Steps of a buffer read at (x, y): each coordinate is rounded down and held to
/// the buffer, and the sample at `y * width + x` is read. Arguments are the
/// buffer, x and y.
pub open spec fn gather_steps(d: BufferDecl) -> Seq<Step> {
    seq![
        Step::Const(0),
        Step::Const(float_bits(last_index(d.width))),
        Step::Const(float_bits(last_index(d.height))),
        Step::Const(float_bits(d.width)),
        Step::Unary(OpKind::Floor, Operand::Arg(1)),
        Step::Ternary(OpKind::Clamp, Operand::Step(4), Operand::Step(0), Operand::Step(1)),
        Step::Unary(OpKind::Floor, Operand::Arg(2)),
        Step::Ternary(OpKind::Clamp, Operand::Step(6), Operand::Step(0), Operand::Step(2)),
        Step::Binary(OpKind::Mul, Operand::Step(7), Operand::Step(3)),
        Step::Binary(OpKind::Add, Operand::Step(8), Operand::Step(5)),
        Step::Binary(OpKind::RawGather, Operand::Arg(0), Operand::Step(9)),
    ]
}

/// Nodes of a buffer read.
pub open spec fn gather_nodes(m: ArenaModel, ks: Seq<ExprId>) -> (ArenaModel, ExprId) {
    match m.nodes[ks[0].0 as int] {
        ExprNode::Buffer(b) => built(m, gather_steps(m.buffers[b.0 as int]), ks),
        _ => (m, ks[0]),
    }
}

/// A node copied, its operands being `ks`.
pub open spec fn copy_node(m: ArenaModel, n: ExprNode, ks: Seq<ExprId>) -> (ArenaModel, ExprId) {
    (appended_copy(m, n, ks), ExprId(m.nodes.len() as u32))
}

/// A node copied, or a constant in place of variable `var`.
pub open spec fn bind_node(
    var: u8,
    bits: u32,
    m: ArenaModel,
    n: ExprNode,
    ks: Seq<ExprId>,
) -> (ArenaModel, ExprId) {
    if n == ExprNode::Var(var) {
        pushed(m, ExprNode::Const(bits))
    } else {
        copy_node(m, n, ks)
    }
}

/// How a node is rebuilt when a variable becomes a constant.
pub open spec fn bind_emit(var: u8, bits: u32) -> Emit {
    |m: ArenaModel, n: ExprNode, ks: Seq<ExprId>| bind_node(var, bits, m, n, ks)
}

/// A copy of the expression at `root` with a constant in place of a variable.
pub open spec fn bound_copy(m: ArenaModel, root: ExprId, var: u8, bits: u32) -> (
    ArenaModel,
    ExprId,
) {
    rebuilt_root(bind_emit(var, bits), m, root)
}

/// The accumulation of the fold's body over the indices from `from` to its end: the
/// body at `from` combined with the accumulation of the rest.
pub open spec fn accumulated(m: ArenaModel, fold: Fold, body: ExprId, from: int) -> (
    ArenaModel,
    ExprId,
)
    decreases fold.end - from,
{
    if from >= fold.end - 1 {
        bound_copy(m, body, fold.binder.0, float_bits((fold.end - 1) as u32))
    } else {
        let (m1, acc) = accumulated(m, fold, body, from + 1);
        let (m2, t) = bound_copy(m1, body, fold.binder.0, float_bits(from as u32));
        pushed(m2, ExprNode::Binary(fold.monoid.spec_op(), t, acc))
    }
}

/// Nodes of an unrolled fold: the identity over an empty range.
pub open spec fn fold_nodes(m: ArenaModel, fold: Fold, body: ExprId) -> (ArenaModel, ExprId) {
    if fold.start >= fold.end {
        pushed(m, ExprNode::Const(fold.monoid.spec_identity()))
    } else {
        accumulated(m, fold, body, fold.start as int)
    }
}

/// How a pass rebuilds one node.
pub open spec fn lower_node(pass: Pass, m: ArenaModel, n: ExprNode, ks: Seq<ExprId>) -> (
    ArenaModel,
    ExprId,
) {
    match (pass, n) {
        (Pass::Transcendentals, ExprNode::Unary(op, _)) => if transcendental_unary(op) {
            unary_nodes(m, op, ks[0])
        } else {
            copy_node(m, n, ks)
        },
        (Pass::Transcendentals, ExprNode::Binary(op, _, _)) => if transcendental_binary(op) {
            built(m, atan2_steps(), ks)
        } else {
            copy_node(m, n, ks)
        },
        (Pass::Gathers, ExprNode::Ternary(op, _, _, _)) => if op is Gather {
            gather_nodes(m, ks)
        } else {
            copy_node(m, n, ks)
        },
        (Pass::Folds, ExprNode::Reduce { fold, body: _ }) => fold_nodes(m, fold, ks[0]),
        (Pass::Bind(var, bits), _) => bind_node(var, bits, m, n, ks),
        _ => copy_node(m, n, ks),
    }
}

/// How a pass rebuilds nodes.
pub open spec fn emit_of(pass: Pass) -> Emit {
    |m: ArenaModel, n: ExprNode, ks: Seq<ExprId>| lower_node(pass, m, n, ks)
}

/// The expression at `root` lowered: the arena, and the new root.
pub open spec fn lowered(pass: Pass, m: ArenaModel, root: ExprId) -> (ArenaModel, ExprId) {
    rebuilt_root(emit_of(pass), m, root)
}

/// What binding a variable does to a node.
pub open spec fn bind_head(var: u8, bits: u32, h: Head, kids: Seq<Term>) -> Term {
    if h == Head::Var(var) {
        cst(bits)
    } else {
        Term { head: h, kids }
    }
}

/// The meaning of binding a variable.
pub open spec fn bind_mean(var: u8, bits: u32) -> Meaning {
    |h: Head, kids: Seq<Term>| bind_head(var, bits, h, kids)
}

/// The fold's body accumulated over the indices from `from` to its end, the last two
/// first.
pub open spec fn fold_sum(fold: Fold, body: Term, from: int) -> Term
    decreases fold.end - from,
{
    if from >= fold.end - 1 {
        body.folded(bind_mean(fold.binder.0, float_bits((fold.end - 1) as u32)))
    } else {
        bin(
            fold.monoid.spec_op(),
            body.folded(bind_mean(fold.binder.0, float_bits(from as u32))),
            fold_sum(fold, body, from + 1),
        )
    }
}

/// What a pass makes of a node.
pub open spec fn lower_head(pass: Pass, h: Head, kids: Seq<Term>) -> Term {
    match (pass, h) {
        (Pass::Transcendentals, Head::Unary(op)) => if transcendental_unary(op) {
            unary_term(op, kids[0])
        } else {
            Term { head: h, kids }
        },
        (Pass::Transcendentals, Head::Binary(op)) => if transcendental_binary(op) {
            program_term(atan2_steps(), kids)
        } else {
            Term { head: h, kids }
        },
        (Pass::Gathers, Head::Ternary(op)) => if op is Gather {
            match kids[0].head {
                Head::Buffer(_, d) => program_term(gather_steps(d), kids),
                _ => kids[0],
            }
        } else {
            Term { head: h, kids }
        },
        (Pass::Folds, Head::Reduce(fold)) => if fold.start >= fold.end {
            cst(fold.monoid.spec_identity())
        } else {
            fold_sum(fold, kids[0], fold.start as int)
        },
        (Pass::Bind(var, bits), _) => bind_head(var, bits, h, kids),
        _ => Term { head: h, kids },
    }
}

/// The meaning of a pass.
pub open spec fn mean_of(pass: Pass) -> Meaning {
    |h: Head, kids: Seq<Term>| lower_head(pass, h, kids)
}

/// Buffer reads name a buffer: the first operand of every `Gather` of the
/// expression is a buffer leaf.
pub open spec fn gathers_name_buffers(m: ArenaModel, root: ExprId) -> bool {
    forall|i: int|
        0 <= i < m.nodes.len() && postorder(m, root).contains(ExprId(i as u32)) ==> gather_ok(
            m,
            #[trigger] m.nodes[i],
        )
}

/// If the node is a buffer read, its first operand is a buffer leaf.
pub open spec fn gather_ok(m: ArenaModel, n: ExprNode) -> bool {
    match n {
        ExprNode::Ternary(op, b, _, _) => op is Gather ==> m.nodes[b.0 as int] is Buffer,
        _ => true,
    }
}

// ---------------------------------------------------------------------------
// Growth
// ---------------------------------------------------------------------------

proof fn lemma_bind_grows(var: u8, bits: u32)
    ensures
        only_grows(bind_emit(var, bits)),
        keeps_buffers(bind_emit(var, bits)),
{
    let e = bind_emit(var, bits);
    assert forall|m: ArenaModel, n: ExprNode, ks: Seq<ExprId>|
        (#[trigger] e(m, n, ks)).0.nodes.len() >= m.nodes.len() && e(m, n, ks).0.nary.len()
            >= m.nary.len() by {
        assert(e(m, n, ks) == bind_node(var, bits, m, n, ks));
    }
    assert forall|m: ArenaModel, n: ExprNode, ks: Seq<ExprId>| n is Buffer implies (
    #[trigger] e(m, n, ks)).0.nodes == m.nodes.push(n) && e(m, n, ks).1 == ExprId(
        m.nodes.len() as u32,
    ) by {
        assert(e(m, n, ks) == bind_node(var, bits, m, n, ks));
    }
}

proof fn lemma_bound_copy_grows(m: ArenaModel, root: ExprId, var: u8, bits: u32)
    ensures
        bound_copy(m, root, var, bits).0.nodes.len() >= m.nodes.len(),
        bound_copy(m, root, var, bits).0.nary.len() >= m.nary.len(),
{
    lemma_bind_grows(var, bits);
    let order = postorder(m, root);
    lemma_rebuilt_grows(bind_emit(var, bits), m, order, 0, order.len());
}

proof fn lemma_accumulated_grows(m: ArenaModel, fold: Fold, body: ExprId, from: int)
    ensures
        accumulated(m, fold, body, from).0.nodes.len() >= m.nodes.len(),
        accumulated(m, fold, body, from).0.nary.len() >= m.nary.len(),
    decreases fold.end - from,
{
    if from >= fold.end - 1 {
        lemma_bound_copy_grows(m, body, fold.binder.0, float_bits((fold.end - 1) as u32));
    } else {
        lemma_accumulated_grows(m, fold, body, from + 1);
        let (m1, acc) = accumulated(m, fold, body, from + 1);
        lemma_bound_copy_grows(m1, body, fold.binder.0, float_bits(from as u32));
    }
}

proof fn lemma_pass_grows(pass: Pass)
    ensures
        only_grows(emit_of(pass)),
        keeps_buffers(emit_of(pass)),
{
    let e = emit_of(pass);
    assert forall|m: ArenaModel, n: ExprNode, ks: Seq<ExprId>|
        (#[trigger] e(m, n, ks)).0.nodes.len() >= m.nodes.len() && e(m, n, ks).0.nary.len()
            >= m.nary.len() by {
        assert(e(m, n, ks) == lower_node(pass, m, n, ks));
        match (pass, n) {
            (Pass::Folds, ExprNode::Reduce { fold, body: _ }) => {
                lemma_accumulated_grows(m, fold, ks[0], fold.start as int);
            },
            _ => {},
        }
    }
    assert forall|m: ArenaModel, n: ExprNode, ks: Seq<ExprId>| n is Buffer implies (
    #[trigger] e(m, n, ks)).0.nodes == m.nodes.push(n) && e(m, n, ks).1 == ExprId(
        m.nodes.len() as u32,
    ) by {
        assert(e(m, n, ks) == lower_node(pass, m, n, ks));
    }
}

// ---------------------------------------------------------------------------
// Meaning
// ---------------------------------------------------------------------------

/// A copied node denotes the same head over what its operands denote.
proof fn lemma_copy_means(src: ArenaModel, m: ArenaModel, i: int, ks: Seq<ExprId>)
    requires
        src.wf(),
        0 <= i < src.nodes.len(),
        m.wf(),
        m.buffers == src.buffers,
        m.uniforms == src.uniforms,
        ks.len() == src.kids(i).len(),
        forall|j: int| 0 <= j < ks.len() ==> m.has(#[trigger] ks[j]),
        fits(copy_node(m, src.nodes[i], ks).0),
    ensures
        grown(
            m,
            copy_node(m, src.nodes[i], ks),
            Term { head: src.head_of(src.nodes[i]), kids: terms_of(m, ks) },
        ),
{
    let n = src.nodes[i];
    assert(src.node_ok(i, n));
    let now = appended_copy(m, n, ks);
    let p = m.nodes.len() as int;
    if n is Nary {
        assert(ks.len() == n->Nary_2);
    }
    assert(now.kids(p) =~= ks);
    assert(now.node_ok(p, now.nodes[p]));
    lemma_wf_append(m, now);
    lemma_new_term(m, now, ks);
    assert(now.term(p).kids =~= terms_of(m, ks));
}

/// What holds of a value built in a part stays when more is appended.
proof fn lemma_grown_kept(m: ArenaModel, a: ArenaModel, id: ExprId)
    requires
        m.wf(),
        extends(m, a),
        m.has(id),
    ensures
        a.has(id),
        a.term(id.0 as int) == m.term(id.0 as int),
{
    append_keeps_terms(m, a, id.0 as int);
}

proof fn lemma_push_const(m: ArenaModel, bits: u32)
    requires
        m.wf(),
        m.nodes.len() <= u32::MAX,
    ensures
        grown(m, pushed(m, ExprNode::Const(bits)), cst(bits)),
{
    lemma_push_node(m, ExprNode::Const(bits), cst(bits));
}

proof fn lemma_push_unary(m: ArenaModel, op: OpKind, a: ExprId)
    requires
        m.wf(),
        m.nodes.len() <= u32::MAX,
        m.has(a),
    ensures
        grown(m, pushed(m, ExprNode::Unary(op, a)), un(op, m.term(a.0 as int))),
{
    lemma_push_node(m, ExprNode::Unary(op, a), un(op, m.term(a.0 as int)));
}

proof fn lemma_push_binary(m: ArenaModel, op: OpKind, a: ExprId, b: ExprId)
    requires
        m.wf(),
        m.nodes.len() <= u32::MAX,
        m.has(a),
        m.has(b),
    ensures
        grown(
            m,
            pushed(m, ExprNode::Binary(op, a, b)),
            bin(op, m.term(a.0 as int), m.term(b.0 as int)),
        ),
{
    lemma_push_node(
        m,
        ExprNode::Binary(op, a, b),
        bin(op, m.term(a.0 as int), m.term(b.0 as int)),
    );
}

/// Growth adds up.
proof fn lemma_grown_chain(m: ArenaModel, a: (ArenaModel, ExprId), b: (ArenaModel, ExprId), t: Term, u: Term)
    requires
        grown(m, a, t),
        grown(a.0, b, u),
    ensures
        grown(m, b, u),
        m.wf() ==> forall|id: ExprId| #[trigger]
            m.has(id) ==> b.0.has(id) && b.0.term(id.0 as int) == m.term(id.0 as int),
        b.0.has(a.1),
        b.0.term(a.1.0 as int) == t,
{
    if m.wf() {
        assert forall|id: ExprId| #[trigger] m.has(id) implies b.0.has(id) && b.0.term(
            id.0 as int,
        ) == m.term(id.0 as int) by {
            append_keeps_terms(m, a.0, id.0 as int);
            append_keeps_terms(a.0, b.0, id.0 as int);
        }
    }
    append_keeps_terms(a.0, b.0, a.1.0 as int);
}

/// A one-argument program run.
proof fn lemma_run1(m: ArenaModel, prog: Seq<Step>, x: ExprId)
    requires
        m.wf(),
        m.has(x),
        program_ok(prog, 1),
        m.nodes.len() + prog.len() <= u32::MAX + 1,
    ensures
        grown(m, built(m, prog, seq![x]), program_term(prog, seq![m.term(x.0 as int)])),
        built(m, prog, seq![x]).0.nodes.len() == m.nodes.len() + prog.len(),
{
    lemma_built(m, prog, seq![x]);
    assert(terms_of(m, seq![x]) =~= seq![m.term(x.0 as int)]);
}

/// A two-argument program run.
proof fn lemma_run2(m: ArenaModel, prog: Seq<Step>, x: ExprId, y: ExprId)
    requires
        m.wf(),
        m.has(x),
        m.has(y),
        program_ok(prog, 2),
        m.nodes.len() + prog.len() <= u32::MAX + 1,
    ensures
        grown(
            m,
            built(m, prog, seq![x, y]),
            program_term(prog, seq![m.term(x.0 as int), m.term(y.0 as int)]),
        ),
        built(m, prog, seq![x, y]).0.nodes.len() == m.nodes.len() + prog.len(),
{
    lemma_built(m, prog, seq![x, y]);
    assert(terms_of(m, seq![x, y]) =~= seq![m.term(x.0 as int), m.term(y.0 as int)]);
}

proof fn lemma_cosine(m: ArenaModel, x: ExprId)
    requires
        m.wf(),
        m.has(x),
        m.nodes.len() + 4 <= u32::MAX + 1,
    ensures
        grown(m, cosine_nodes(m, x), cosine_term(m.term(x.0 as int))),
        cosine_nodes(m, x).0.nodes.len() == m.nodes.len() + 4,
{
    let t = m.term(x.0 as int);
    let a = pushed(m, ExprNode::Const(0x3F800000));
    lemma_push_const(m, 0x3F800000);
    lemma_grown_kept(m, a.0, x);
    let b = pushed(a.0, ExprNode::Binary(OpKind::Mul, x, x));
    lemma_push_binary(a.0, OpKind::Mul, x, x);
    lemma_grown_chain(m, a, b, cst(0x3F800000), bin(OpKind::Mul, t, t));
    let c = pushed(b.0, ExprNode::Binary(OpKind::Sub, a.1, b.1));
    lemma_push_binary(b.0, OpKind::Sub, a.1, b.1);
    lemma_grown_chain(
        m,
        b,
        c,
        bin(OpKind::Mul, t, t),
        bin(OpKind::Sub, cst(0x3F800000), bin(OpKind::Mul, t, t)),
    );
    let d = pushed(c.0, ExprNode::Unary(OpKind::Sqrt, c.1));
    lemma_push_unary(c.0, OpKind::Sqrt, c.1);
    lemma_grown_chain(
        m,
        c,
        d,
        bin(OpKind::Sub, cst(0x3F800000), bin(OpKind::Mul, t, t)),
        cosine_term(t),
    );
}

/// sin(x + pi/2), given as nodes after `m`.
proof fn lemma_shifted_sin(m: ArenaModel, x: ExprId)
    requires
        m.wf(),
        m.has(x),
        m.nodes.len() + 24 <= u32::MAX + 1,
    ensures
        grown(m, unary_nodes(m, OpKind::Cos, x), unary_term(OpKind::Cos, m.term(x.0 as int))),
        unary_nodes(m, OpKind::Cos, x).0.nodes.len() == m.nodes.len() + 24,
{
    lemma_sin_ok();
    let t = m.term(x.0 as int);
    let a = pushed(m, ExprNode::Const(0x3FC90FDB));
    lemma_push_const(m, 0x3FC90FDB);
    lemma_grown_kept(m, a.0, x);
    let b = pushed(a.0, ExprNode::Binary(OpKind::Add, x, a.1));
    lemma_push_binary(a.0, OpKind::Add, x, a.1);
    let s = bin(OpKind::Add, t, cst(0x3FC90FDB));
    lemma_grown_chain(m, a, b, cst(0x3FC90FDB), s);
    let c = built(b.0, sin_steps(), seq![b.1]);
    lemma_run1(b.0, sin_steps(), b.1);
    lemma_grown_chain(m, b, c, s, program_term(sin_steps(), seq![s]));
}

/// A function times a constant.
proof fn lemma_scaled(m: ArenaModel, prog: Seq<Step>, x: ExprId, bits: u32)
    requires
        m.wf(),
        m.has(x),
        program_ok(prog, 1),
        m.nodes.len() + prog.len() + 2 <= u32::MAX + 1,
    ensures
        ({
            let a = built(m, prog, seq![x]);
            let b = pushed(a.0, ExprNode::Const(bits));
            let c = pushed(b.0, ExprNode::Binary(OpKind::Mul, a.1, b.1));
            &&& grown(
                m,
                c,
                bin(OpKind::Mul, program_term(prog, seq![m.term(x.0 as int)]), cst(bits)),
            )
            &&& c.0.nodes.len() == m.nodes.len() + prog.len() + 2
        }),
{
    let t = m.term(x.0 as int);
    let a = built(m, prog, seq![x]);
    lemma_run1(m, prog, x);
    let b = pushed(a.0, ExprNode::Const(bits));
    lemma_push_const(a.0, bits);
    lemma_grown_chain(m, a, b, program_term(prog, seq![t]), cst(bits));
    let c = pushed(b.0, ExprNode::Binary(OpKind::Mul, a.1, b.1));
    lemma_push_binary(b.0, OpKind::Mul, a.1, b.1);
    lemma_grown_chain(
        m,
        b,
        c,
        cst(bits),
        bin(OpKind::Mul, program_term(prog, seq![t]), cst(bits)),
    );
}

/// Number of nodes a transcendental function takes.
pub open spec fn unary_size(op: OpKind) -> nat {
    match op {
        OpKind::Sin => 22,
        OpKind::Cos => 24,
        OpKind::Tan => 47,
        OpKind::Exp2 => 28,
        OpKind::Exp => 30,
        OpKind::Log2 => 55,
        OpKind::Ln => 57,
        OpKind::Log10 => 57,
        OpKind::Atan => 35,
        OpKind::Asin => 38,
        OpKind::Acos => 38,
        _ => 0,
    }
}

/// The nodes of a transcendental function are as many as its size says.
proof fn lemma_unary_size(m: ArenaModel, op: OpKind, x: ExprId)
    ensures
        unary_nodes(m, op, x).0.nodes.len() == m.nodes.len() + unary_size(op),
        unary_nodes(m, op, x).0.nary == m.nary,
{
    lemma_sin_ok();
    lemma_exp2_ok();
    lemma_log2_ok();
    lemma_atan2_ok();
}

/// The nodes of a transcendental function denote it.
proof fn lemma_unary(m: ArenaModel, op: OpKind, x: ExprId)
    requires
        m.wf(),
        m.has(x),
        transcendental_unary(op),
        m.nodes.len() + unary_size(op) <= u32::MAX + 1,
    ensures
        grown(m, unary_nodes(m, op, x), unary_term(op, m.term(x.0 as int))),
{
    lemma_sin_ok();
    lemma_exp2_ok();
    lemma_log2_ok();
    lemma_atan2_ok();
    let t = m.term(x.0 as int);
    match op {
        OpKind::Sin => lemma_run1(m, sin_steps(), x),
        OpKind::Cos => lemma_shifted_sin(m, x),
        OpKind::Tan => {
            let a = built(m, sin_steps(), seq![x]);
            lemma_run1(m, sin_steps(), x);
            let s = program_term(sin_steps(), seq![t]);
            lemma_grown_kept(m, a.0, x);
            let b = unary_nodes(a.0, OpKind::Cos, x);
            lemma_shifted_sin(a.0, x);
            let c = unary_term(OpKind::Cos, t);
            lemma_grown_chain(m, a, b, s, c);
            let d = pushed(b.0, ExprNode::Binary(OpKind::Div, a.1, b.1));
            lemma_push_binary(b.0, OpKind::Div, a.1, b.1);
            lemma_grown_chain(m, b, d, c, bin(OpKind::Div, s, c));
        },
        OpKind::Exp2 => lemma_run1(m, exp2_steps(), x),
        OpKind::Exp => {
            let a = pushed(m, ExprNode::Const(0x3FB8AA3B));
            lemma_push_const(m, 0x3FB8AA3B);
            lemma_grown_kept(m, a.0, x);
            let b = pushed(a.0, ExprNode::Binary(OpKind::Mul, x, a.1));
            lemma_push_binary(a.0, OpKind::Mul, x, a.1);
            let s = bin(OpKind::Mul, t, cst(0x3FB8AA3B));
            lemma_grown_chain(m, a, b, cst(0x3FB8AA3B), s);
            let c = built(b.0, exp2_steps(), seq![b.1]);
            lemma_run1(b.0, exp2_steps(), b.1);
            lemma_grown_chain(m, b, c, s, program_term(exp2_steps(), seq![s]));
        },
        OpKind::Log2 => lemma_run1(m, log2_steps(), x),
        OpKind::Ln => lemma_scaled(m, log2_steps(), x, 0x3F317218),
        OpKind::Log10 => lemma_scaled(m, log2_steps(), x, 0x3E9A209B),
        OpKind::Atan => {
            let a = pushed(m, ExprNode::Const(0x3F800000));
            lemma_push_const(m, 0x3F800000);
            lemma_grown_kept(m, a.0, x);
            let b = built(a.0, atan2_steps(), seq![x, a.1]);
            lemma_run2(a.0, atan2_steps(), x, a.1);
            lemma_grown_chain(
                m,
                a,
                b,
                cst(0x3F800000),
                program_term(atan2_steps(), seq![t, cst(0x3F800000)]),
            );
        },
        OpKind::Asin => {
            let a = cosine_nodes(m, x);
            lemma_cosine(m, x);
            lemma_grown_kept(m, a.0, x);
            let b = built(a.0, atan2_steps(), seq![x, a.1]);
            lemma_run2(a.0, atan2_steps(), x, a.1);
            lemma_grown_chain(
                m,
                a,
                b,
                cosine_term(t),
                program_term(atan2_steps(), seq![t, cosine_term(t)]),
            );
        },
        OpKind::Acos => {
            let a = cosine_nodes(m, x);
            lemma_cosine(m, x);
            lemma_grown_kept(m, a.0, x);
            let b = built(a.0, atan2_steps(), seq![a.1, x]);
            lemma_run2(a.0, atan2_steps(), a.1, x);
            lemma_grown_chain(
                m,
                a,
                b,
                cosine_term(t),
                program_term(atan2_steps(), seq![cosine_term(t), t]),
            );
        },
        _ => {},
    }
}

pub(crate) proof fn lemma_gather_ok(d: BufferDecl)
    ensures
        program_ok(gather_steps(d), 3),
        gather_steps(d).len() == 11,
{
    let p = gather_steps(d);
    assert(p[0].ok(0, 3) && p[1].ok(1, 3) && p[2].ok(2, 3) && p[3].ok(3, 3));
    assert(p[4].ok(4, 3) && p[5].ok(5, 3) && p[6].ok(6, 3) && p[7].ok(7, 3));
    assert(p[8].ok(8, 3) && p[9].ok(9, 3) && p[10].ok(10, 3));
}

/// Binding a variable does what it says, node by node.
proof fn lemma_bind_step(
    var: u8,
    bits: u32,
    src: ArenaModel,
    m: ArenaModel,
    i: int,
    ks: Seq<ExprId>,
)
    requires
        src.wf(),
        0 <= i < src.nodes.len(),
    ensures
        step_means(bind_emit(var, bits), bind_mean(var, bits), src, m, i, ks),
{
    let e = bind_emit(var, bits);
    let n = src.nodes[i];
    assert(e(m, n, ks) == bind_node(var, bits, m, n, ks));
    if m.wf() && extends(src, m) && m.buffers == src.buffers && m.uniforms == src.uniforms
        && ks.len() == src.kids(i).len() && (forall|j: int|
        0 <= j < ks.len() ==> m.has(#[trigger] ks[j])) && fits(e(m, n, ks).0) {
        if n == ExprNode::Var(var) {
            lemma_push_const(m, bits);
        } else {
            lemma_copy_means(src, m, i, ks);
        }
    }
}

/// A bound copy denotes the expression with the constant in place of the
/// variable.
proof fn lemma_bound_copy(m: ArenaModel, root: ExprId, var: u8, bits: u32)
    requires
        m.wf(),
        m.has(root),
        fits(bound_copy(m, root, var, bits).0),
    ensures
        grown(
            m,
            bound_copy(m, root, var, bits),
            m.term(root.0 as int).folded(bind_mean(var, bits)),
        ),
{
    lemma_bind_grows(var, bits);
    assert forall|a: ArenaModel, i: int, ks: Seq<ExprId>|
        0 <= i < m.nodes.len() && postorder(m, root).contains(
            ExprId(i as u32),
        ) implies #[trigger] step_means(
        bind_emit(var, bits),
        bind_mean(var, bits),
        m,
        a,
        i,
        ks,
    ) by {
        lemma_bind_step(var, bits, m, a, i, ks);
    }
    lemma_rebuilt_root(bind_emit(var, bits), bind_mean(var, bits), m, root);
}

/// The accumulation denotes the fold's terms combined in order.
proof fn lemma_accumulated(m: ArenaModel, fold: Fold, body: ExprId, from: int)
    requires
        m.wf(),
        m.has(body),
        fits(accumulated(m, fold, body, from).0),
    ensures
        grown(
            m,
            accumulated(m, fold, body, from),
            fold_sum(fold, m.term(body.0 as int), from),
        ),
    decreases fold.end - from,
{
    let t = m.term(body.0 as int);
    if from >= fold.end - 1 {
        lemma_bound_copy(m, body, fold.binder.0, float_bits((fold.end - 1) as u32));
    } else {
        let a = accumulated(m, fold, body, from + 1);
        let bits = float_bits(from as u32);
        let b = bound_copy(a.0, body, fold.binder.0, bits);
        lemma_bound_copy_grows(a.0, body, fold.binder.0, bits);
        lemma_accumulated(m, fold, body, from + 1);
        lemma_grown_kept(m, a.0, body);
        lemma_bound_copy(a.0, body, fold.binder.0, bits);
        let u = t.folded(bind_mean(fold.binder.0, bits));
        lemma_grown_chain(m, a, b, fold_sum(fold, t, from + 1), u);
        let c = pushed(b.0, ExprNode::Binary(fold.monoid.spec_op(), b.1, a.1));
        lemma_push_binary(b.0, fold.monoid.spec_op(), b.1, a.1);
        lemma_grown_chain(m, b, c, u, fold_sum(fold, t, from));
    }
}

/// Each pass does what it says, node by node.
proof fn lemma_pass_step(
    pass: Pass,
    src: ArenaModel,
    m: ArenaModel,
    i: int,
    ks: Seq<ExprId>,
)
    requires
        src.wf(),
        0 <= i < src.nodes.len(),
        pass is Gathers ==> gather_ok(src, src.nodes[i]),
    ensures
        step_means(emit_of(pass), mean_of(pass), src, m, i, ks),
{
    let e = emit_of(pass);
    let n = src.nodes[i];
    let h = src.head_of(n);
    assert(e(m, n, ks) == lower_node(pass, m, n, ks));
    if m.wf() && extends(src, m) && m.buffers == src.buffers && m.uniforms == src.uniforms
        && ks.len() == src.kids(i).len() && (forall|j: int|
        0 <= j < ks.len() ==> m.has(#[trigger] ks[j])) && operands_kept(src, m, i, ks) && fits(
        e(m, n, ks).0,
    ) {
        let ts = terms_of(m, ks);
        assert(mean_of(pass)(h, ts) == lower_head(pass, h, ts));
        match (pass, n) {
            (Pass::Transcendentals, ExprNode::Unary(op, a)) => {
                if transcendental_unary(op) {
                    assert(ts[0] == m.term(ks[0].0 as int));
                    assert(m.has(ks[0]));
                    lemma_unary_size(m, op, ks[0]);
                    lemma_unary(m, op, ks[0]);
                } else {
                    lemma_copy_means(src, m, i, ks);
                }
            },
            (Pass::Transcendentals, ExprNode::Binary(op, a, b)) => {
                if transcendental_binary(op) {
                    lemma_atan2_ok();
                    lemma_built(m, atan2_steps(), ks);
                } else {
                    lemma_copy_means(src, m, i, ks);
                }
            },
            (Pass::Gathers, ExprNode::Ternary(op, b, x, y)) => {
                if op is Gather {
                    assert(src.kids(i)[0] == b);
                    assert(m.nodes[ks[0].0 as int] == src.nodes[b.0 as int]);
                    assert(src.node_ok(i, n));
                    assert(src.kids_of(n)[0].0 < i);
                    assert(m.has(ks[0]));
                    lemma_term_kids(m, ks[0].0 as int);
                    assert(ts[0] == m.term(ks[0].0 as int));
                    let slot = src.nodes[b.0 as int]->Buffer_0;
                    lemma_gather_ok(m.buffers[slot.0 as int]);
                    lemma_built(m, gather_steps(m.buffers[slot.0 as int]), ks);
                } else {
                    lemma_copy_means(src, m, i, ks);
                }
            },
            (Pass::Folds, ExprNode::Reduce { fold, body }) => {
                assert(ts[0] == m.term(ks[0].0 as int));
                assert(m.has(ks[0]));
                if fold.start >= fold.end {
                    lemma_push_const(m, fold.monoid.spec_identity());
                } else {
                    lemma_accumulated(m, fold, ks[0], fold.start as int);
                }
            },
            (Pass::Bind(var, bits), _) => {
                if n == ExprNode::Var(var) {
                    lemma_push_const(m, bits);
                } else {
                    lemma_copy_means(src, m, i, ks);
                }
            },
            _ => {
                lemma_copy_means(src, m, i, ks);
            },
        }
    }
}

/// Lowering keeps the meaning: the new root denotes the expression with each
/// node replaced, operands first, by what the pass makes of it. Nothing stored
/// before changes.
pub proof fn lowering_keeps_meaning(pass: Pass, m: ArenaModel, root: ExprId)
    requires
        m.wf(),
        m.has(root),
        pass is Gathers ==> gathers_name_buffers(m, root),
        fits(lowered(pass, m, root).0),
    ensures
        lowered(pass, m, root).0.wf(),
        extends(m, lowered(pass, m, root).0),
        lowered(pass, m, root).0.has(lowered(pass, m, root).1),
        lowered(pass, m, root).0.term(lowered(pass, m, root).1.0 as int) == m.term(
            root.0 as int,
        ).folded(mean_of(pass)),
{
    lemma_pass_grows(pass);
    assert forall|a: ArenaModel, i: int, ks: Seq<ExprId>|
        0 <= i < m.nodes.len() && postorder(m, root).contains(
            ExprId(i as u32),
        ) implies #[trigger] step_means(emit_of(pass), mean_of(pass), m, a, i, ks) by {
        assert(pass is Gathers ==> gather_ok(m, m.nodes[i]));
        lemma_pass_step(pass, m, a, i, ks);
    }
    lemma_rebuilt_root(emit_of(pass), mean_of(pass), m, root);
}

// ---------------------------------------------------------------------------
// Running a pass
// ---------------------------------------------------------------------------

/// Whether `op` is a unary function that lowering expands.
fn is_transcendental_unary(op: OpKind) -> (b: bool)
    ensures
        b == transcendental_unary(op),
{
    match op {
        OpKind::Sin | OpKind::Cos | OpKind::Tan | OpKind::Exp | OpKind::Exp2 | OpKind::Ln
        | OpKind::Log2 | OpKind::Log10 | OpKind::Atan | OpKind::Asin | OpKind::Acos => true,
        _ => false,
    }
}

/// Whether `op` is a binary function that lowering expands.
fn is_transcendental_binary(op: OpKind) -> (b: bool)
    ensures
        b == transcendental_binary(op),
{
    match op {
        OpKind::Atan2 => true,
        _ => false,
    }
}

/// Append nodes computing sqrt(1 - x * x).
fn expand_cosine(arena: &mut ExprArena, x: ExprId) -> (id: ExprId)
    requires
        old(arena)@.nodes.len() + 4 <= u32::MAX + 1,
    ensures
        (final(arena)@, id) == cosine_nodes(old(arena)@, x),
{
    let one = arena.push_const(0x3F800000);
    let x2 = arena.push_binary(OpKind::Mul, x, x);
    let t = arena.push_binary(OpKind::Sub, one, x2);
    arena.push_unary(OpKind::Sqrt, t)
}

/// Append nodes computing sin(x + pi/2).
fn expand_cos(arena: &mut ExprArena, x: ExprId) -> (id: ExprId)
    requires
        old(arena)@.nodes.len() + 24 <= u32::MAX + 1,
    ensures
        (final(arena)@, id) == unary_nodes(old(arena)@, OpKind::Cos, x),
{
    proof {
        lemma_sin_ok();
    }
    let half_pi = arena.push_const(0x3FC90FDB);
    let shifted = arena.push_binary(OpKind::Add, x, half_pi);
    run_program(arena, &sin_program(), &[shifted])
}

/// Append nodes computing a transcendental function of `arg`.
fn expand_unary(arena: &mut ExprArena, op: OpKind, arg: ExprId) -> (id: ExprId)
    requires
        transcendental_unary(op),
        old(arena)@.nodes.len() + unary_size(op) <= u32::MAX + 1,
    ensures
        (final(arena)@, id) == unary_nodes(old(arena)@, op, arg),
{
    proof {
        lemma_sin_ok();
        lemma_exp2_ok();
        lemma_log2_ok();
        lemma_atan2_ok();
    }
    match op {
        OpKind::Sin => run_program(arena, &sin_program(), &[arg]),
        OpKind::Cos => expand_cos(arena, arg),
        OpKind::Tan => {
            let s = run_program(arena, &sin_program(), &[arg]);
            let c = expand_cos(arena, arg);
            arena.push_binary(OpKind::Div, s, c)
        },
        OpKind::Exp2 => run_program(arena, &exp2_program(), &[arg]),
        OpKind::Exp => {
            let log2e = arena.push_const(0x3FB8AA3B);
            let scaled = arena.push_binary(OpKind::Mul, arg, log2e);
            run_program(arena, &exp2_program(), &[scaled])
        },
        OpKind::Log2 => run_program(arena, &log2_program(), &[arg]),
        OpKind::Ln => {
            let l = run_program(arena, &log2_program(), &[arg]);
            let ln2 = arena.push_const(0x3F317218);
            arena.push_binary(OpKind::Mul, l, ln2)
        },
        OpKind::Log10 => {
            let l = run_program(arena, &log2_program(), &[arg]);
            let log10_2 = arena.push_const(0x3E9A209B);
            arena.push_binary(OpKind::Mul, l, log10_2)
        },
        OpKind::Atan => {
            let one = arena.push_const(0x3F800000);
            run_program(arena, &atan2_program(), &[arg, one])
        },
        OpKind::Asin => {
            let s = expand_cosine(arena, arg);
            run_program(arena, &atan2_program(), &[arg, s])
        },
        OpKind::Acos => {
            let s = expand_cosine(arena, arg);
            run_program(arena, &atan2_program(), &[s, arg])
        },
        _ => arg,
    }
}

/// Append the index arithmetic and primitive read of one buffer read.
fn lower_gather(arena: &mut ExprArena, kids: &Vec<ExprId>) -> (id: ExprId)
    requires
        old(arena)@.wf(),
        kids@.len() == 3,
        old(arena)@.has(kids@[0]),
        old(arena)@.nodes[kids@[0].0 as int] is Buffer,
        old(arena)@.nodes.len() + 11 <= u32::MAX + 1,
    ensures
        (final(arena)@, id) == gather_nodes(old(arena)@, kids@),
{
    let ghost m = arena@;
    assert(m.node_ok(kids@[0].0 as int, m.nodes[kids@[0].0 as int]));
    match *arena.node(kids[0]) {
        ExprNode::Buffer(b) => {
            let d: BufferDecl = *arena.buffer_decl(b);
            let max_x: u32 = if d.width == 0 {
                0
            } else {
                d.width - 1
            };
            let max_y: u32 = if d.height == 0 {
                0
            } else {
                d.height - 1
            };
            let prog: Vec<Step> = vec![
                Step::Const(0),
                Step::Const(float_from_u32(max_x)),
                Step::Const(float_from_u32(max_y)),
                Step::Const(float_from_u32(d.width)),
                Step::Unary(OpKind::Floor, Operand::Arg(1)),
                Step::Ternary(OpKind::Clamp, Operand::Step(4), Operand::Step(0), Operand::Step(1)),
                Step::Unary(OpKind::Floor, Operand::Arg(2)),
                Step::Ternary(OpKind::Clamp, Operand::Step(6), Operand::Step(0), Operand::Step(2)),
                Step::Binary(OpKind::Mul, Operand::Step(7), Operand::Step(3)),
                Step::Binary(OpKind::Add, Operand::Step(8), Operand::Step(5)),
                Step::Binary(OpKind::RawGather, Operand::Arg(0), Operand::Step(9)),
            ];
            assert(prog@ =~= gather_steps(d));
            proof {
                lemma_gather_ok(d);
            }
            run_program(arena, &prog, kids.as_slice())
        },
        _ => kids[0],
    }
}

proof fn lemma_accumulated_more(m: ArenaModel, fold: Fold, body: ExprId, a: int, b: int)
    requires
        a <= b < fold.end,
    ensures
        accumulated(m, fold, body, b).0.nodes.len() <= accumulated(m, fold, body, a).0.nodes.len(),
        accumulated(m, fold, body, b).0.nary.len() <= accumulated(m, fold, body, a).0.nary.len(),
    decreases b - a,
{
    if a < b {
        lemma_accumulated_more(m, fold, body, a + 1, b);
        let (m1, acc) = accumulated(m, fold, body, a + 1);
        lemma_bound_copy_grows(m1, body, fold.binder.0, float_bits(a as u32));
    }
}

/// If a fold fits, so does each of its parts.
proof fn lemma_fold_part_fits(m: ArenaModel, fold: Fold, body: ExprId, k: int)
    requires
        fold.start <= k < fold.end,
    ensures
        fits(fold_nodes(m, fold, body).0) ==> fits(accumulated(m, fold, body, k).0),
        k == fold.start ==> fold_nodes(m, fold, body) == accumulated(m, fold, body, k),
        k == fold.end - 1 ==> accumulated(m, fold, body, k) == bound_copy(
            m,
            body,
            fold.binder.0,
            float_bits(k as u32),
        ),
{
    lemma_accumulated_more(m, fold, body, fold.start as int, k);
}

/// Order of the passes: unrolling a fold binds its variable.
spec fn pass_rank(pass: Pass) -> nat {
    if pass is Folds {
        2
    } else {
        0
    }
}

proof fn lemma_bind_pass(m: ArenaModel, root: ExprId, var: u8, bits: u32)
    ensures
        lowered(Pass::Bind(var, bits), m, root) == bound_copy(m, root, var, bits),
{
    assert(emit_of(Pass::Bind(var, bits)) =~= bind_emit(var, bits));
}

/// Append the explicit accumulation of a fold, if it fits.
fn unroll_reduce(arena: &mut ExprArena, fold: Fold, body: ExprId) -> (r: Option<ExprId>)
    requires
        old(arena)@.wf(),
        old(arena)@.has(body),
        fits(old(arena)@),
    ensures
        match r {
            Some(id) => fits(final(arena)@) && (final(arena)@, id) == fold_nodes(
                old(arena)@,
                fold,
                body,
            ),
            None => !fits(fold_nodes(old(arena)@, fold, body).0),
        },
    decreases 1nat, 0nat,
{
    let ghost m = arena@;
    if fold.start >= fold.end {
        if !has_space(arena, 1) {
            return None;
        }
        return Some(arena.push_const(fold.monoid.identity()));
    }
    let var: u8 = fold.binder.0;
    let mut k: u32 = fold.end as u32 - 1;
    let last: u32 = float_from_u32(k);
    proof {
        lemma_fold_part_fits(m, fold, body, k as int);
        lemma_bind_pass(m, body, var, last);
    }
    let mut acc: ExprId = match rebuild_arena(arena, body, Pass::Bind(var, last)) {
        Some(id) => id,
        None => return None,
    };
    proof {
        lemma_accumulated(m, fold, body, k as int);
    }
    while k > fold.start as u32
        invariant
            fold.start <= k < fold.end,
            var == fold.binder.0,
            m == old(arena)@,
            m.wf(),
            m.has(body),
            fits(arena@),
            (arena@, acc) == accumulated(m, fold, body, k as int),
            grown(m, (arena@, acc), fold_sum(fold, m.term(body.0 as int), k as int)),
        decreases k,
    {
        k -= 1;
        let bits: u32 = float_from_u32(k);
        let ghost was = (arena@, acc);
        let ghost next = bound_copy(was.0, body, var, bits);
        assert(accumulated(m, fold, body, k as int) == pushed(
            next.0,
            ExprNode::Binary(fold.monoid.spec_op(), next.1, was.1),
        ));
        proof {
            lemma_fold_part_fits(m, fold, body, k as int);
            lemma_bind_pass(arena@, body, var, bits);
            lemma_bound_copy_grows(arena@, body, var, bits);
        }
        let term: ExprId = match rebuild_arena(arena, body, Pass::Bind(var, bits)) {
            Some(id) => id,
            None => return None,
        };
        if !has_space(arena, 1) {
            return None;
        }
        acc = arena.push_binary(fold.monoid.op(), term, acc);
        proof {
            lemma_accumulated(m, fold, body, k as int);
        }
    }
    proof {
        lemma_fold_part_fits(m, fold, body, k as int);
    }
    Some(acc)
}

/// Is there room for more nodes?
fn has_space(arena: &ExprArena, more: u64) -> (b: bool)
    requires
        arena@.nodes.len() <= u32::MAX + 1,
        more <= 0x1_0000_0000,
    ensures
        b == (arena@.nodes.len() + more <= u32::MAX + 1),
{
    arena.len() as u64 + more <= 0x1_0000_0000
}

/// Are the indices of the arena still in range?
fn is_fitting(arena: &ExprArena) -> (b: bool)
    ensures
        b == fits(arena@),
{
    arena.len() as u64 <= 0x1_0000_0000 && arena.operand_count() as u64 <= 0xFFFF_FFFF
}

/// The operands fit the node.
spec fn arity_ok(n: ExprNode, ks: Seq<ExprId>) -> bool {
    &&& n is Unary || n is Reduce ==> ks.len() == 1
    &&& n is Binary ==> ks.len() == 2
    &&& n is Ternary ==> ks.len() == 3
    &&& ks.len() <= u16::MAX
}

/// Number of nodes a transcendental function takes.
fn size_of_unary(op: OpKind) -> (n: u64)
    ensures
        n == unary_size(op),
        n <= 57,
{
    match op {
        OpKind::Sin => 22,
        OpKind::Cos => 24,
        OpKind::Tan => 47,
        OpKind::Exp2 => 28,
        OpKind::Exp => 30,
        OpKind::Log2 => 55,
        OpKind::Ln => 57,
        OpKind::Log10 => 57,
        OpKind::Atan => 35,
        OpKind::Asin => 38,
        OpKind::Acos => 38,
        _ => 0,
    }
}

/// Rebuild one node, if it fits.
fn emit_node(arena: &mut ExprArena, node: ExprNode, kids: &Vec<ExprId>, pass: Pass) -> (r: Option<
    ExprId,
>)
    requires
        old(arena)@.wf(),
        arity_ok(node, kids@),
        forall|j: int| 0 <= j < kids@.len() ==> old(arena)@.has(#[trigger] kids@[j]),
        pass is Gathers && node is Ternary && node->Ternary_0 is Gather
            ==> old(arena)@.nodes[kids@[0].0 as int] is Buffer,
        fits(old(arena)@),
    ensures
        match r {
            Some(id) => fits(final(arena)@) && (final(arena)@, id) == lower_node(
                pass,
                old(arena)@,
                node,
                kids@,
            ),
            None => !fits(lower_node(pass, old(arena)@, node, kids@).0),
        },
    decreases pass_rank(pass), 0nat,
{
    let ghost m = arena@;
    match (pass, node) {
        (Pass::Transcendentals, ExprNode::Unary(op, _)) => {
            if is_transcendental_unary(op) {
                proof {
                    lemma_unary_size(m, op, kids@[0]);
                }
                if !has_space(arena, size_of_unary(op)) {
                    return None;
                }
                return Some(expand_unary(arena, op, kids[0]));
            }
        },
        (Pass::Transcendentals, ExprNode::Binary(op, _, _)) => {
            if is_transcendental_binary(op) {
                proof {
                    lemma_atan2_ok();
                }
                if !has_space(arena, 34) {
                    return None;
                }
                return Some(run_program(arena, &atan2_program(), kids.as_slice()));
            }
        },
        (Pass::Gathers, ExprNode::Ternary(op, _, _, _)) => {
            if let OpKind::Gather = op {
                proof {
                    let b = m.nodes[kids@[0].0 as int]->Buffer_0;
                    lemma_gather_ok(m.buffers[b.0 as int]);
                }
                if !has_space(arena, 11) {
                    return None;
                }
                return Some(lower_gather(arena, kids));
            }
        },
        (Pass::Folds, ExprNode::Reduce { fold, body: _ }) => {
            assert(m.has(kids@[0]));
            return unroll_reduce(arena, fold, kids[0]);
        },
        (Pass::Bind(var, bits), ExprNode::Var(v)) => {
            if v == var {
                if !has_space(arena, 1) {
                    return None;
                }
                return Some(arena.push_const(bits));
            }
        },
        _ => {},
    }
    if !has_space(arena, 1) {
        return None;
    }
    if let ExprNode::Nary(_, _, _) = node {
        if arena.operand_count() as u64 + kids.len() as u64 > 0xFFFF_FFFF {
            return None;
        }
    }
    Some(arena.push_copy(node, kids))
}

proof fn lemma_extended_node(a: ArenaModel, b: ArenaModel, i: int)
    requires
        a.wf(),
        extends(a, b),
        0 <= i < a.nodes.len(),
    ensures
        b.nodes[i] == a.nodes[i],
        b.kids(i) == a.kids(i),
        b.range_ok(b.nodes[i]),
        arity_ok(a.nodes[i], a.kids(i)),
{
    assert(a.node_ok(i, a.nodes[i]));
    assert(b.kids(i) =~= a.kids(i));
}

/// Rebuild the expression at `root` operands first, each node as the pass says,
/// if all of it fits. Shared subexpressions are rebuilt once.
fn rebuild_arena(arena: &mut ExprArena, root: ExprId, pass: Pass) -> (r: Option<ExprId>)
    requires
        old(arena)@.wf(),
        old(arena)@.has(root),
        pass is Gathers ==> gathers_name_buffers(old(arena)@, root),
    ensures
        match r {
            Some(id) => fits(final(arena)@) && (final(arena)@, id) == lowered(
                pass,
                old(arena)@,
                root,
            ),
            None => !fits(lowered(pass, old(arena)@, root).0),
        },
    decreases pass_rank(pass), 1nat,
{
    let ghost src = arena@;
    proof {
        lemma_pass_grows(pass);
        let order = postorder(src, root);
        lemma_rebuilt_grows(emit_of(pass), src, order, 0, order.len());
    }
    if !is_fitting(arena) {
        return None;
    }
    let ghost emit = emit_of(pass);
    let ghost mean = mean_of(pass);
    let order = arena.postorder(root);
    let n: usize = arena.len();
    let mut map: Vec<Option<ExprId>> = Vec::new();
    while map.len() < n
        invariant
            map@.len() <= n,
            forall|i: int| 0 <= i < map@.len() ==> (#[trigger] map@[i]) is None,
        decreases n - map@.len(),
    {
        map.push(None);
    }
    let mut k: usize = 0;
    proof {
        lemma_pass_grows(pass);
        postorder_lists_the_expression(src, root);
        assert(map@ =~= rebuilt(emit, src, order@, 0).map);
    }
    while k < order.len()
        invariant
            k <= order@.len(),
            src.wf(),
            src.has(root),
            emit == emit_of(pass),
            mean == mean_of(pass),
            order@ == postorder(src, root),
            operands_first(src, order@),
            only_grows(emit),
            keeps_buffers(emit),
            pass is Gathers ==> gathers_name_buffers(src, root),
            src == old(arena)@,
            fits(arena@),
            (Rebuilt { dst: arena@, map: map@ }) == rebuilt(emit, src, order@, k as nat),
            rebuild_ok(mean, src, order@, k as nat, (Rebuilt { dst: arena@, map: map@ })),
        decreases order@.len() - k,
    {
        let id: ExprId = order[k];
        let ghost st = Rebuilt { dst: arena@, map: map@ };
        let ghost i = id.0 as int;
        proof {
            assert(src.has(order@[k as int]));
            assert(order@.contains(order@[k as int]));
            assert(ExprId(i as u32) == id);
            lemma_operands_placed(mean, src, order@, k as nat, st);
            lemma_rebuilt_grows(emit, src, order@, (k + 1) as nat, order@.len());
            lemma_extended_node(src, arena@, i);
        }
        let children = arena.children(id).collect();
        let kids = mapped_kids(&map, &children);
        let node: ExprNode = *arena.node(id);
        proof {
            assert(pass is Gathers ==> gather_ok(src, src.nodes[i]));
            if pass is Gathers && node is Ternary && node->Ternary_0 is Gather {
                assert(src.kids(i)[0] == node->Ternary_1);
            }
            lemma_pass_step(pass, src, arena@, i, kids@);
            assert(emit(st.dst, node, kids@) == lower_node(pass, st.dst, node, kids@));
        }
        let new_id: ExprId = match emit_node(arena, node, &kids, pass) {
            Some(id) => id,
            None => return None,
        };
        proof {
            lemma_rebuild_step(emit, mean, src, order@, k as nat, st);
        }
        map.set(id.0 as usize, Some(new_id));
        k += 1;
        assert((Rebuilt { dst: arena@, map: map@ }) =~= rebuilt(emit, src, order@, k as nat));
    }
    proof {
        let last = order@.len() - 1;
        assert(order@[last] == root);
        assert(placed_ok(mean, src, (Rebuilt { dst: arena@, map: map@ }), order@[last]));
    }
    map[root.0 as usize]
}

/// Expand every transcendental node of the expression at `root` into primitive
/// arithmetic, returning the new root in the same arena.
pub fn expand_transcendentals(arena: &mut ExprArena, root: ExprId) -> (id: ExprId)
    requires
        old(arena)@.wf(),
        old(arena)@.has(root),
        fits(lowered(Pass::Transcendentals, old(arena)@, root).0),
    ensures
        (final(arena)@, id) == lowered(Pass::Transcendentals, old(arena)@, root),
        final(arena)@.wf(),
        final(arena)@.has(id),
        final(arena)@.term(id.0 as int) == old(arena)@.term(root.0 as int).folded(
            mean_of(Pass::Transcendentals),
        ),
{
    proof {
        lowering_keeps_meaning(Pass::Transcendentals, arena@, root);
    }
    match rebuild_arena(arena, root, Pass::Transcendentals) {
        Some(id) => id,
        None => root,
    }
}

/// Lower every buffer read of the expression at `root` into index arithmetic
/// and a primitive read, returning the new root in the same arena.
pub fn expand_gather(arena: &mut ExprArena, root: ExprId) -> (id: ExprId)
    requires
        old(arena)@.wf(),
        old(arena)@.has(root),
        gathers_name_buffers(old(arena)@, root),
        fits(lowered(Pass::Gathers, old(arena)@, root).0),
    ensures
        (final(arena)@, id) == lowered(Pass::Gathers, old(arena)@, root),
        final(arena)@.wf(),
        final(arena)@.has(id),
        final(arena)@.term(id.0 as int) == old(arena)@.term(root.0 as int).folded(
            mean_of(Pass::Gathers),
        ),
{
    proof {
        lowering_keeps_meaning(Pass::Gathers, arena@, root);
    }
    match rebuild_arena(arena, root, Pass::Gathers) {
        Some(id) => id,
        None => root,
    }
}

/// Unroll every fold of the expression at `root` into an explicit accumulation,
/// returning the new root in the same arena.
pub fn expand_reduce(arena: &mut ExprArena, root: ExprId) -> (id: ExprId)
    requires
        old(arena)@.wf(),
        old(arena)@.has(root),
        fits(lowered(Pass::Folds, old(arena)@, root).0),
    ensures
        (final(arena)@, id) == lowered(Pass::Folds, old(arena)@, root),
        final(arena)@.wf(),
        final(arena)@.has(id),
        final(arena)@.term(id.0 as int) == old(arena)@.term(root.0 as int).folded(
            mean_of(Pass::Folds),
        ),
{
    proof {
        lowering_keeps_meaning(Pass::Folds, arena@, root);
    }
    match rebuild_arena(arena, root, Pass::Folds) {
        Some(id) => id,
        None => root,
    }
}

/// A node the pass replaces.
pub open spec fn touched(pass: Pass, n: ExprNode) -> bool {
    match (pass, n) {
        (Pass::Transcendentals, _) => transcendental(n),
        (Pass::Gathers, ExprNode::Ternary(op, _, _, _)) => op is Gather,
        (Pass::Folds, ExprNode::Reduce { fold: _, body: _ }) => true,
        (Pass::Bind(var, _), _) => n == ExprNode::Var(var),
        _ => false,
    }
}

/// Some node of the arena, used by the expression or not, is replaced.
pub open spec fn any_touched(pass: Pass, m: ArenaModel) -> bool {
    exists|i: int| 0 <= i < m.nodes.len() && touched(pass, #[trigger] m.nodes[i])
}

/// What an owned pass gives: the arena as it is if there is nothing to replace.
pub open spec fn lowered_owned(pass: Pass, m: ArenaModel, root: ExprId) -> (ArenaModel, ExprId) {
    if any_touched(pass, m) {
        lowered(pass, m, root)
    } else {
        (m, root)
    }
}

/// Whether the pass replaces the node.
fn is_touched(pass: Pass, n: ExprNode) -> (b: bool)
    ensures
        b == touched(pass, n),
{
    match (pass, n) {
        (Pass::Transcendentals, ExprNode::Unary(op, _)) => is_transcendental_unary(op),
        (Pass::Transcendentals, ExprNode::Binary(op, _, _)) => is_transcendental_binary(op),
        (Pass::Gathers, ExprNode::Ternary(op, _, _, _)) => match op {
            OpKind::Gather => true,
            _ => false,
        },
        (Pass::Folds, ExprNode::Reduce { fold: _, body: _ }) => true,
        (Pass::Bind(var, _), ExprNode::Var(v)) => v == var,
        _ => false,
    }
}

/// Whether the pass replaces some node of the arena.
fn has_touched(arena: &ExprArena, pass: Pass) -> (b: bool)
    ensures
        b == any_touched(pass, arena@),
{
    let nodes = arena.nodes();
    let mut i: usize = 0;
    while i < nodes.len()
        invariant
            i <= nodes@.len(),
            nodes@ == arena@.nodes,
            forall|j: int| 0 <= j < i ==> !touched(pass, #[trigger] nodes@[j]),
        decreases nodes@.len() - i,
    {
        if is_touched(pass, nodes[i]) {
            assert(touched(pass, arena@.nodes[i as int]));
            return true;
        }
        i += 1;
    }
    false
}

/// The pass changes nothing, or its result fits an arena.
pub open spec fn lowers(pass: Pass, m: ArenaModel, root: ExprId) -> bool {
    any_touched(pass, m) ==> fits(lowered(pass, m, root).0)
}

/// Run a pass on a copy of the arena, if the result fits; without anything to
/// replace the copy is left as it is, so that lowering does not disturb other
/// kernels.
fn lower_owned(arena: &ExprArena, root: ExprId, pass: Pass) -> (r: Option<(ExprArena, ExprId)>)
    requires
        arena@.wf(),
        arena@.has(root),
        pass is Gathers ==> gathers_name_buffers(arena@, root),
    ensures
        r is Some <==> lowers(pass, arena@, root),
        r matches Some(x) ==> (x.0@, x.1) == lowered_owned(pass, arena@, root) && x.0@.wf()
            && x.0@.has(x.1),
{
    let mut owned = arena.clone();
    if !has_touched(arena, pass) {
        return Some((owned, root));
    }
    match rebuild_arena(&mut owned, root, pass) {
        Some(new_root) => {
            proof {
                lowering_keeps_meaning(pass, arena@, root);
            }
            Some((owned, new_root))
        },
        None => None,
    }
}

/// Do all buffer reads of the expression at `root` name a buffer?
fn reads_name_buffers(arena: &ExprArena, root: ExprId) -> (b: bool)
    requires
        arena@.wf(),
        arena@.has(root),
    ensures
        b == gathers_name_buffers(arena@, root),
{
    let ghost m = arena@;
    let order: Vec<ExprId> = arena.postorder(root);
    let mut k: usize = 0;
    while k < order.len()
        invariant
            k <= order@.len(),
            m == arena@,
            m.wf(),
            order@ == postorder(m, root),
            operands_first(m, order@),
            forall|j: int|
                0 <= j < k ==> gather_ok(m, m.nodes[(#[trigger] order@[j]).0 as int]),
        decreases order@.len() - k,
    {
        let id: ExprId = order[k];
        proof {
            assert(m.has(order@[k as int]));
            assert(m.node_ok(id.0 as int, m.nodes[id.0 as int]));
            lemma_term_kids(m, id.0 as int);
        }
        if let ExprNode::Ternary(op, b, _, _) = *arena.node(id) {
            assert(m.kids(id.0 as int)[0] == b);
            let named: bool = match op {
                OpKind::Gather => match *arena.node(b) {
                    ExprNode::Buffer(_) => true,
                    _ => false,
                },
                _ => true,
            };
            if !named {
                proof {
                    assert(order@.contains(order@[k as int]));
                    assert(ExprId(id.0) == id);
                    assert(!gather_ok(m, m.nodes[id.0 as int]));
                }
                return false;
            }
        }
        k += 1;
    }
    proof {
        assert forall|i: int|
            0 <= i < m.nodes.len() && postorder(m, root).contains(
                ExprId(i as u32),
            ) implies gather_ok(m, #[trigger] m.nodes[i]) by {
            let j = choose|j: int| 0 <= j < order@.len() && order@[j] == ExprId(i as u32);
            assert(order@[j].0 == i);
        }
    }
    true
}

/// [`expand_transcendentals_owned`], if the result fits an arena.
pub fn try_expand_transcendentals_owned(arena: &ExprArena, root: ExprId) -> (r: Option<
    (ExprArena, ExprId),
>)
    requires
        arena@.wf(),
        arena@.has(root),
    ensures
        r is Some <==> lowers(Pass::Transcendentals, arena@, root),
        r matches Some(x) ==> (x.0@, x.1) == lowered_owned(Pass::Transcendentals, arena@, root)
            && x.0@.wf() && x.0@.has(x.1),
{
    lower_owned(arena, root, Pass::Transcendentals)
}

/// [`expand_gather_owned`], if every read names a buffer and the result fits an
/// arena.
pub fn try_expand_gather_owned(arena: &ExprArena, root: ExprId) -> (r: Option<(ExprArena, ExprId)>)
    requires
        arena@.wf(),
        arena@.has(root),
    ensures
        r is Some <==> gathers_name_buffers(arena@, root) && lowers(Pass::Gathers, arena@, root),
        r matches Some(x) ==> (x.0@, x.1) == lowered_owned(Pass::Gathers, arena@, root)
            && x.0@.wf() && x.0@.has(x.1),
{
    if !reads_name_buffers(arena, root) {
        return None;
    }
    lower_owned(arena, root, Pass::Gathers)
}

/// [`expand_reduce_owned`], if the result fits an arena.
pub fn try_expand_reduce_owned(arena: &ExprArena, root: ExprId) -> (r: Option<(ExprArena, ExprId)>)
    requires
        arena@.wf(),
        arena@.has(root),
    ensures
        r is Some <==> lowers(Pass::Folds, arena@, root),
        r matches Some(x) ==> (x.0@, x.1) == lowered_owned(Pass::Folds, arena@, root)
            && x.0@.wf() && x.0@.has(x.1),
{
    lower_owned(arena, root, Pass::Folds)
}

/// [`expand_transcendentals`] on a copy; the copy is unchanged if the arena
/// holds no transcendental node.
#[must_use]
pub fn expand_transcendentals_owned(arena: &ExprArena, root: ExprId) -> (r: (ExprArena, ExprId))
    requires
        arena@.wf(),
        arena@.has(root),
        lowers(Pass::Transcendentals, arena@, root),
    ensures
        (r.0@, r.1) == lowered_owned(Pass::Transcendentals, arena@, root),
{
    match lower_owned(arena, root, Pass::Transcendentals) {
        Some(x) => x,
        None => (arena.clone(), root),
    }
}

/// [`expand_gather`] on a copy; the copy is unchanged if the arena holds no
/// buffer read.
#[must_use]
pub fn expand_gather_owned(arena: &ExprArena, root: ExprId) -> (r: (ExprArena, ExprId))
    requires
        arena@.wf(),
        arena@.has(root),
        gathers_name_buffers(arena@, root),
        lowers(Pass::Gathers, arena@, root),
    ensures
        (r.0@, r.1) == lowered_owned(Pass::Gathers, arena@, root),
{
    match lower_owned(arena, root, Pass::Gathers) {
        Some(x) => x,
        None => (arena.clone(), root),
    }
}

/// [`expand_reduce`] on a copy; the copy is unchanged if the arena holds no
/// fold.
#[must_use]
pub fn expand_reduce_owned(arena: &ExprArena, root: ExprId) -> (r: (ExprArena, ExprId))
    requires
        arena@.wf(),
        arena@.has(root),
        lowers(Pass::Folds, arena@, root),
    ensures
        (r.0@, r.1) == lowered_owned(Pass::Folds, arena@, root),
{
    match lower_owned(arena, root, Pass::Folds) {
        Some(x) => x,
        None => (arena.clone(), root),
    }
}

/// A head the pass replaces.
pub open spec fn replaced(pass: Pass, h: Head) -> bool {
    match (pass, h) {
        (Pass::Transcendentals, Head::Unary(op)) => transcendental_unary(op),
        (Pass::Transcendentals, Head::Binary(op)) => transcendental_binary(op),
        (Pass::Gathers, Head::Ternary(op)) => op is Gather,
        (Pass::Folds, Head::Reduce(_)) => true,
        (Pass::Bind(var, _), Head::Var(v)) => v == var,
        _ => false,
    }
}

impl Term {
    /// Nothing in the expression is replaced by the pass.
    pub open spec fn clear_of(self, pass: Pass) -> bool
        decreases self,
    {
        !replaced(pass, self.head) && forall|j: int|
            0 <= j < self.kids.len() ==> (#[trigger] self.kids[j]).clear_of(pass)
    }
}

/// The head of a step.
spec fn step_head(s: Step) -> Head {
    match s {
        Step::Const(bits) => Head::Const(bits),
        Step::Unary(op, _) => Head::Unary(op),
        Step::Binary(op, _, _) => Head::Binary(op),
        Step::Ternary(op, _, _, _) => Head::Ternary(op),
    }
}

proof fn lemma_steps_clear(pass: Pass, prog: Seq<Step>, k: nat, args: Seq<Term>)
    requires
        program_ok(prog, args.len() as int),
        k <= prog.len(),
        forall|i: int| 0 <= i < prog.len() ==> !replaced(pass, step_head(#[trigger] prog[i])),
        forall|j: int| 0 <= j < args.len() ==> (#[trigger] args[j]).clear_of(pass),
    ensures
        step_terms(prog, k, args).len() == k,
        forall|j: int| 0 <= j < k ==> (#[trigger] step_terms(prog, k, args)[j]).clear_of(pass),
    decreases k,
{
    if k > 0 {
        lemma_steps_clear(pass, prog, (k - 1) as nat, args);
        let prior = step_terms(prog, (k - 1) as nat, args);
        let s = prog[k - 1];
        assert(s.ok(k - 1, args.len() as int));
        assert(!replaced(pass, step_head(s)));
        assert(step_term(s, args, prior).clear_of(pass));
        let now = step_terms(prog, k, args);
        assert forall|j: int| 0 <= j < k implies (#[trigger] now[j]).clear_of(pass) by {
            if j < k - 1 {
                assert(now[j] == prior[j]);
            }
        }
    }
}

proof fn lemma_program_clear(pass: Pass, prog: Seq<Step>, args: Seq<Term>)
    requires
        program_ok(prog, args.len() as int),
        forall|i: int| 0 <= i < prog.len() ==> !replaced(pass, step_head(#[trigger] prog[i])),
        forall|j: int| 0 <= j < args.len() ==> (#[trigger] args[j]).clear_of(pass),
    ensures
        program_term(prog, args).clear_of(pass),
{
    lemma_steps_clear(pass, prog, prog.len(), args);
    assert(step_terms(prog, prog.len(), args)[prog.len() - 1].clear_of(pass));
}

proof fn lemma_primitive_clear(prog: Seq<Step>, args: Seq<Term>)
    requires
        program_ok(prog, args.len() as int),
        forall|j: int|
            0 <= j < args.len() ==> (#[trigger] args[j]).clear_of(Pass::Transcendentals),
    ensures
        program_term(prog, args).clear_of(Pass::Transcendentals),
{
    assert forall|i: int| 0 <= i < prog.len() implies !replaced(
        Pass::Transcendentals,
        step_head(#[trigger] prog[i]),
    ) by {
        assert(prog[i].primitive());
    }
    lemma_program_clear(Pass::Transcendentals, prog, args);
}

proof fn lemma_unary_clear(op: OpKind, x: Term)
    requires
        transcendental_unary(op),
        x.clear_of(Pass::Transcendentals),
    ensures
        unary_term(op, x).clear_of(Pass::Transcendentals),
{
    let p = Pass::Transcendentals;
    lemma_sin_ok();
    lemma_exp2_ok();
    lemma_log2_ok();
    lemma_atan2_ok();
    let shifted = bin(OpKind::Add, x, cst(0x3FC90FDB));
    assert(cst(0x3FC90FDB).clear_of(p));
    assert(shifted.clear_of(p));
    match op {
        OpKind::Sin => lemma_primitive_clear(sin_steps(), seq![x]),
        OpKind::Cos => lemma_primitive_clear(sin_steps(), seq![shifted]),
        OpKind::Tan => {
            lemma_primitive_clear(sin_steps(), seq![x]);
            lemma_primitive_clear(sin_steps(), seq![shifted]);
        },
        OpKind::Exp2 => lemma_primitive_clear(exp2_steps(), seq![x]),
        OpKind::Exp => {
            let c = cst(0x3FB8AA3B);
            assert(c.clear_of(p));
            assert(bin(OpKind::Mul, x, c).clear_of(p));
            lemma_primitive_clear(exp2_steps(), seq![bin(OpKind::Mul, x, c)]);
        },
        OpKind::Log2 => lemma_primitive_clear(log2_steps(), seq![x]),
        OpKind::Ln => {
            lemma_primitive_clear(log2_steps(), seq![x]);
            assert(cst(0x3F317218).clear_of(p));
        },
        OpKind::Log10 => {
            lemma_primitive_clear(log2_steps(), seq![x]);
            assert(cst(0x3E9A209B).clear_of(p));
        },
        OpKind::Atan => {
            assert(cst(0x3F800000).clear_of(p));
            lemma_primitive_clear(atan2_steps(), seq![x, cst(0x3F800000)]);
        },
        OpKind::Asin => {
            lemma_cosine_clear(x);
            lemma_primitive_clear(atan2_steps(), seq![x, cosine_term(x)]);
        },
        OpKind::Acos => {
            lemma_cosine_clear(x);
            lemma_primitive_clear(atan2_steps(), seq![cosine_term(x), x]);
        },
        _ => {},
    }
}

proof fn lemma_cosine_clear(x: Term)
    requires
        x.clear_of(Pass::Transcendentals),
    ensures
        cosine_term(x).clear_of(Pass::Transcendentals),
{
    let p = Pass::Transcendentals;
    assert(cst(0x3F800000).clear_of(p));
    assert(bin(OpKind::Mul, x, x).clear_of(p));
    assert(bin(OpKind::Sub, cst(0x3F800000), bin(OpKind::Mul, x, x)).clear_of(p));
}

/// Binding a variable brings no fold in.
proof fn lemma_bind_clear(t: Term, var: u8, bits: u32)
    requires
        t.clear_of(Pass::Folds),
    ensures
        t.folded(bind_mean(var, bits)).clear_of(Pass::Folds),
    decreases t,
{
    let mean = bind_mean(var, bits);
    let kids = Term::folded_all(t.kids, mean);
    assert forall|j: int| 0 <= j < kids.len() implies (#[trigger] kids[j]).clear_of(
        Pass::Folds,
    ) by {
        assert(t.kids[j].clear_of(Pass::Folds));
        lemma_bind_clear(t.kids[j], var, bits);
    }
    assert(mean(t.head, kids) == bind_head(var, bits, t.head, kids));
}

proof fn lemma_fold_clear(fold: Fold, body: Term, from: int)
    requires
        body.clear_of(Pass::Folds),
    ensures
        fold_sum(fold, body, from).clear_of(Pass::Folds),
    decreases fold.end - from,
{
    if from >= fold.end - 1 {
        lemma_bind_clear(body, fold.binder.0, float_bits((fold.end - 1) as u32));
    } else {
        lemma_fold_clear(fold, body, from + 1);
        lemma_bind_clear(body, fold.binder.0, float_bits(from as u32));
    }
}

/// After a pass nothing is left for it to replace: no transcendental function
/// after expansion, no buffer read after gather lowering, no fold after
/// unrolling, and no bound variable after binding.
pub proof fn lowering_leaves_nothing(pass: Pass, t: Term)
    requires
        well_shaped(t),
    ensures
        t.folded(mean_of(pass)).clear_of(pass),
    decreases t,
{
    let mean = mean_of(pass);
    let kids = Term::folded_all(t.kids, mean);
    assert forall|j: int| 0 <= j < kids.len() implies (#[trigger] kids[j]).clear_of(pass) by {
        assert(well_shaped(t.kids[j]));
        lowering_leaves_nothing(pass, t.kids[j]);
    }
    assert(mean(t.head, kids) == lower_head(pass, t.head, kids));
    match (pass, t.head) {
        (Pass::Transcendentals, Head::Unary(op)) => {
            if transcendental_unary(op) {
                assert(kids[0].clear_of(pass));
                lemma_unary_clear(op, kids[0]);
            }
        },
        (Pass::Transcendentals, Head::Binary(op)) => {
            if transcendental_binary(op) {
                lemma_atan2_ok();
                lemma_primitive_clear(atan2_steps(), kids);
            }
        },
        (Pass::Gathers, Head::Ternary(op)) => {
            if op is Gather {
                assert(kids[0].clear_of(pass));
                if let Head::Buffer(_, d) = kids[0].head {
                    lemma_gather_ok(d);
                    let p = gather_steps(d);
                    assert forall|i: int| 0 <= i < p.len() implies !replaced(
                        pass,
                        step_head(#[trigger] p[i]),
                    ) by {
                        assert(i == 0 || i == 1 || i == 2 || i == 3 || i == 4 || i == 5 || i == 6
                            || i == 7 || i == 8 || i == 9 || i == 10);
                    }
                    lemma_program_clear(pass, p, kids);
                }
            }
        },
        (Pass::Folds, Head::Reduce(fold)) => {
            assert(kids[0].clear_of(pass));
            if fold.start < fold.end {
                lemma_fold_clear(fold, kids[0], fold.start as int);
            }
        },
        _ => {},
    }
}

/// Every operation has as many operands as its kind says.
pub open spec fn well_shaped(t: Term) -> bool
    decreases t,
{
    &&& t.head is Unary || t.head is Reduce ==> t.kids.len() == 1
    &&& t.head is Binary ==> t.kids.len() == 2
    &&& t.head is Ternary ==> t.kids.len() == 3
    &&& forall|j: int| 0 <= j < t.kids.len() ==> well_shaped(#[trigger] t.kids[j])
}

/// Expressions held in an arena are well shaped.
pub proof fn arena_terms_are_shaped(m: ArenaModel, i: int)
    requires
        m.wf(),
        0 <= i < m.nodes.len(),
    ensures
        well_shaped(m.term(i)),
    decreases i,
{
    lemma_term_kids(m, i);
    assert forall|j: int| 0 <= j < m.term(i).kids.len() implies well_shaped(
        #[trigger] m.term(i).kids[j],
    ) by {
        assert(m.kids(i)[j].0 < i);
        arena_terms_are_shaped(m, m.kids(i)[j].0 as int);
    }
}

/// A pass leaves alone what it has nothing to do with.
pub proof fn lowering_keeps_clear_expressions(pass: Pass, t: Term)
    requires
        t.clear_of(pass),
    ensures
        t.folded(mean_of(pass)) == t,
    decreases t,
{
    let mean = mean_of(pass);
    let kids = Term::folded_all(t.kids, mean);
    assert forall|j: int| 0 <= j < kids.len() implies #[trigger] kids[j] == t.kids[j] by {
        assert(t.kids[j].clear_of(pass));
        lowering_keeps_clear_expressions(pass, t.kids[j]);
    }
    assert(kids =~= t.kids);
    assert(mean(t.head, kids) == lower_head(pass, t.head, kids));
}

/// No backend sees a transcendental node: none occurs in the expression after its
/// transcendentals are expanded.
pub proof fn expanded_expressions_hold_no_transcendental(m: ArenaModel, root: ExprId, i: int)
    requires
        m.wf(),
        m.has(root),
        lowers(Pass::Transcendentals, m, root),
        ({
            let e = lowered_owned(Pass::Transcendentals, m, root);
            reaches(e.0, (e.1).0 as int, i)
        }),
    ensures
        !transcendental(lowered_owned(Pass::Transcendentals, m, root).0.nodes[i]),
{
    let pass = Pass::Transcendentals;
    let e = lowered_owned(pass, m, root);
    let top = (e.1).0 as int;
    if any_touched(pass, m) {
        lowering_keeps_meaning(pass, m, root);
        arena_terms_are_shaped(m, root.0 as int);
        lowering_leaves_nothing(pass, m.term(root.0 as int));
        lemma_clear_within(pass, e.0, top, i);
    } else {
        lemma_reaches_below(e.0, top, i);
        assert(!touched(pass, m.nodes[i]));
    }
}

/// What occurs in a clear expression is clear.
proof fn lemma_clear_within(pass: Pass, m: ArenaModel, from: int, i: int)
    requires
        m.wf(),
        0 <= from < m.nodes.len(),
        m.term(from).clear_of(pass),
        reaches(m, from, i),
    ensures
        0 <= i < m.nodes.len(),
        !replaced(pass, m.head_of(m.nodes[i])),
    decreases from,
{
    lemma_term_kids(m, from);
    if from != i {
        let j = choose|j: int|
            0 <= j < m.kids(from).len() && 0 <= (#[trigger] m.kids(from)[j]).0 < from && reaches(
                m,
                m.kids(from)[j].0 as int,
                i,
            );
        assert(m.term(from).kids[j].clear_of(pass));
        lemma_clear_within(pass, m, m.kids(from)[j].0 as int, i);
    }
}

} // verus!
