//! Running a straight-line program: one node per step.

use crate::arena::model::{ArenaModel, Head, Term};
use crate::arena::rewrite::{
    append_keeps_terms, appended, extends, lemma_new_term, lemma_wf_append,
};
use crate::arena::{ExprArena, ExprId, ExprNode};
use crate::backend::emit::lowering::programs::{
    program_ok, transcendental_binary, transcendental_unary, Operand, Step,
};
use crate::kind::OpKind;
use vstd::prelude::*;

verus! {

/// `m` with one more node, and its id.
pub open spec fn pushed(m: ArenaModel, n: ExprNode) -> (ArenaModel, ExprId) {
    (appended(m, n), ExprId(m.nodes.len() as u32))
}

/// A constant.
pub open spec fn cst(bits: u32) -> Term {
    Term { head: Head::Const(bits), kids: Seq::empty() }
}

/// A unary operation.
pub open spec fn un(op: OpKind, a: Term) -> Term {
    Term { head: Head::Unary(op), kids: seq![a] }
}

/// A binary operation.
pub open spec fn bin(op: OpKind, a: Term, b: Term) -> Term {
    Term { head: Head::Binary(op), kids: seq![a, b] }
}

/// A ternary operation.
pub open spec fn ter(op: OpKind, a: Term, b: Term, c: Term) -> Term {
    Term { head: Head::Ternary(op), kids: seq![a, b, c] }
}

/// The node is an application of a transcendental function.
pub open spec fn transcendental(n: ExprNode) -> bool {
    match n {
        ExprNode::Unary(op, _) => transcendental_unary(op),
        ExprNode::Binary(op, _, _) => transcendental_binary(op),
        _ => false,
    }
}

/// The id an operand stands for, the program's first node being `base`.
pub open spec fn operand_id(o: Operand, args: Seq<ExprId>, base: int) -> ExprId {
    match o {
        Operand::Arg(i) => args[i as int],
        Operand::Step(j) => ExprId((base + j) as u32),
    }
}

/// The node of a step.
pub open spec fn step_node(s: Step, args: Seq<ExprId>, base: int) -> ExprNode {
    match s {
        Step::Const(bits) => ExprNode::Const(bits),
        Step::Unary(op, a) => ExprNode::Unary(op, operand_id(a, args, base)),
        Step::Binary(op, a, b) => ExprNode::Binary(
            op,
            operand_id(a, args, base),
            operand_id(b, args, base),
        ),
        Step::Ternary(op, a, b, c) => ExprNode::Ternary(
            op,
            operand_id(a, args, base),
            operand_id(b, args, base),
            operand_id(c, args, base),
        ),
    }
}

/// The nodes of the first `k` steps.
pub open spec fn block(prog: Seq<Step>, k: nat, args: Seq<ExprId>, base: int) -> Seq<ExprNode> {
    Seq::new(k, |j: int| step_node(prog[j], args, base))
}

/// `m` after the first `k` steps.
pub open spec fn partly_built(
    m: ArenaModel,
    prog: Seq<Step>,
    k: nat,
    args: Seq<ExprId>,
) -> ArenaModel {
    ArenaModel { nodes: m.nodes + block(prog, k, args, m.nodes.len() as int), ..m }
}

/// `m` with the nodes of a program appended, and the id of the last.
pub open spec fn built(m: ArenaModel, prog: Seq<Step>, args: Seq<ExprId>) -> (ArenaModel, ExprId) {
    (
        partly_built(m, prog, prog.len(), args),
        ExprId((m.nodes.len() + prog.len() - 1) as u32),
    )
}

/// What an operand denotes.
pub open spec fn operand_term(o: Operand, args: Seq<Term>, prior: Seq<Term>) -> Term {
    match o {
        Operand::Arg(i) => args[i as int],
        Operand::Step(j) => prior[j as int],
    }
}

/// What a step denotes.
pub open spec fn step_term(s: Step, args: Seq<Term>, prior: Seq<Term>) -> Term {
    match s {
        Step::Const(bits) => cst(bits),
        Step::Unary(op, a) => un(op, operand_term(a, args, prior)),
        Step::Binary(op, a, b) => bin(
            op,
            operand_term(a, args, prior),
            operand_term(b, args, prior),
        ),
        Step::Ternary(op, a, b, c) => ter(
            op,
            operand_term(a, args, prior),
            operand_term(b, args, prior),
            operand_term(c, args, prior),
        ),
    }
}

/// What the first `k` steps denote.
pub open spec fn step_terms(prog: Seq<Step>, k: nat, args: Seq<Term>) -> Seq<Term>
    decreases k,
{
    if k == 0 {
        Seq::empty()
    } else {
        let prior = step_terms(prog, (k - 1) as nat, args);
        prior.push(step_term(prog[k - 1], args, prior))
    }
}

/// What a program denotes: its last step.
pub open spec fn program_term(prog: Seq<Step>, args: Seq<Term>) -> Term {
    step_terms(prog, prog.len(), args)[prog.len() - 1]
}

/// `r` extends `m`, keeping its tables, and its node denotes `t`.
pub open spec fn grown(m: ArenaModel, r: (ArenaModel, ExprId), t: Term) -> bool {
    &&& r.0.wf()
    &&& extends(m, r.0)
    &&& r.0.buffers == m.buffers
    &&& r.0.uniforms == m.uniforms
    &&& r.0.has(r.1)
    &&& r.0.term(r.1.0 as int) == t
}

/// What appending node `n` does: everything stays, and the new node denotes `t`.
pub open spec fn one_more(m: ArenaModel, n: ExprNode, t: Term) -> bool {
    let now = pushed(m, n).0;
    &&& now.wf()
    &&& extends(m, now)
    &&& now.nodes.len() == m.nodes.len() + 1
    &&& now.term(m.nodes.len() as int) == t
    &&& forall|i: int| 0 <= i < m.nodes.len() ==> #[trigger] now.term(i) == m.term(i)
}

pub proof fn lemma_push_node(m: ArenaModel, n: ExprNode, t: Term)
    requires
        m.wf(),
        m.nodes.len() <= u32::MAX,
        m.slot_ok(n),
        m.range_ok(n),
        forall|j: int| 0 <= j < m.kids_of(n).len() ==> m.has(#[trigger] m.kids_of(n)[j]),
        t.head == m.head_of(n),
        t.kids.len() == m.kids_of(n).len(),
        forall|j: int|
            0 <= j < m.kids_of(n).len() ==> #[trigger] t.kids[j] == m.term(
                m.kids_of(n)[j].0 as int,
            ),
    ensures
        one_more(m, n, t),
{
    let now = appended(m, n);
    let p = m.nodes.len() as int;
    assert(now.kids(p) =~= m.kids_of(n));
    assert(now.kids_of(n) =~= m.kids_of(n));
    assert(now.node_ok(p, now.nodes[p]));
    lemma_wf_append(m, now);
    lemma_new_term(m, now, m.kids_of(n));
    assert(now.term(p).kids =~= t.kids);
    assert forall|i: int| 0 <= i < m.nodes.len() implies #[trigger] now.term(i) == m.term(i) by {
        append_keeps_terms(m, now, i);
    }
}

/// The terms of a list of ids.
pub open spec fn terms_of(m: ArenaModel, ids: Seq<ExprId>) -> Seq<Term> {
    Seq::new(ids.len(), |j: int| m.term(ids[j].0 as int))
}

/// Nodes from `from` on apply no transcendental function.
pub open spec fn plain_from(m: ArenaModel, from: int) -> bool {
    forall|i: int| from <= i < m.nodes.len() ==> !transcendental(#[trigger] m.nodes[i])
}

proof fn lemma_partly_built(m: ArenaModel, prog: Seq<Step>, k: nat, args: Seq<ExprId>)
    requires
        m.wf(),
        program_ok(prog, args.len() as int),
        k <= prog.len(),
        forall|j: int| 0 <= j < args.len() ==> m.has(#[trigger] args[j]),
        m.nodes.len() + prog.len() <= u32::MAX + 1,
    ensures
        ({
            let now = partly_built(m, prog, k, args);
            let ts = step_terms(prog, k, terms_of(m, args));
            &&& now.wf()
            &&& extends(m, now)
            &&& now.nodes.len() == m.nodes.len() + k
            &&& ts.len() == k
            &&& forall|j: int| 0 <= j < k ==> #[trigger] ts[j] == now.term(m.nodes.len() + j)
            &&& forall|i: int|
                m.nodes.len() <= i < now.nodes.len() ==> !transcendental(#[trigger] now.nodes[i])
        }),
    decreases k,
{
    let now = partly_built(m, prog, k, args);
    let base = m.nodes.len() as int;
    if k == 0 {
        assert(now =~= m);
    } else {
        let p = (k - 1) as nat;
        lemma_partly_built(m, prog, p, args);
        let was = partly_built(m, prog, p, args);
        let targs = terms_of(m, args);
        let prior = step_terms(prog, p, targs);
        let s = prog[k - 1];
        assert(s.ok(k - 1, args.len() as int) && s.primitive());
        let n = step_node(s, args, base);
        assert(now.nodes =~= was.nodes.push(n));
        assert(now =~= appended(was, n));
        assert forall|o: Operand| #[trigger] o.ok(k - 1, args.len() as int) implies was.has(
            operand_id(o, args, base),
        ) && was.term(operand_id(o, args, base).0 as int) == operand_term(o, targs, prior) by {
            match o {
                Operand::Arg(i) => {
                    assert(m.has(args[i as int]));
                    append_keeps_terms(m, was, args[i as int].0 as int);
                },
                Operand::Step(j) => {
                    assert(prior[j as int] == was.term(base + j));
                },
            }
        }
        lemma_push_node(was, n, step_term(s, targs, prior));
        let ts = step_terms(prog, k, targs);
        assert forall|j: int| 0 <= j < k implies #[trigger] ts[j] == now.term(base + j) by {
            if j < k - 1 {
                assert(ts[j] == prior[j]);
                assert(now.term(base + j) == was.term(base + j));
            }
        }
        assert forall|i: int| base <= i < now.nodes.len() implies !transcendental(
            #[trigger] now.nodes[i],
        ) by {
            if i < was.nodes.len() {
                assert(now.nodes[i] == was.nodes[i]);
            }
        }
    }
}

/// Running a program extends the arena by nodes whose last denotes what the
/// program denotes, none of which is transcendental.
pub proof fn lemma_built(m: ArenaModel, prog: Seq<Step>, args: Seq<ExprId>)
    requires
        m.wf(),
        program_ok(prog, args.len() as int),
        forall|j: int| 0 <= j < args.len() ==> m.has(#[trigger] args[j]),
        m.nodes.len() + prog.len() <= u32::MAX + 1,
    ensures
        grown(m, built(m, prog, args), program_term(prog, terms_of(m, args))),
        plain_from(built(m, prog, args).0, m.nodes.len() as int),
        built(m, prog, args).0.nodes.len() == m.nodes.len() + prog.len(),
        built(m, prog, args).1.0 >= m.nodes.len(),
{
    lemma_partly_built(m, prog, prog.len(), args);
    let ts = step_terms(prog, prog.len(), terms_of(m, args));
    assert(ts[prog.len() - 1] == built(m, prog, args).0.term(m.nodes.len() + prog.len() - 1));
}

/// The id an operand stands for.
fn resolve(o: Operand, args: &[ExprId], base: usize, Ghost(k): Ghost<int>) -> (id: ExprId)
    requires
        o.ok(k, args@.len() as int),
        base + k <= u32::MAX,
    ensures
        id == operand_id(o, args@, base as int),
{
    match o {
        Operand::Arg(i) => args[i],
        Operand::Step(j) => ExprId(base as u32 + j as u32),
    }
}

/// Append the nodes of a program; returns the last.
pub(crate) fn run_program(arena: &mut ExprArena, prog: &Vec<Step>, args: &[ExprId]) -> (id: ExprId)
    requires
        program_ok(prog@, args@.len() as int),
        old(arena)@.nodes.len() + prog@.len() <= u32::MAX + 1,
    ensures
        (final(arena)@, id) == built(old(arena)@, prog@, args@),
{
    let base: usize = arena.len();
    let ghost m = arena@;
    let mut k: usize = 0;
    assert(arena@ =~= partly_built(m, prog@, 0, args@));
    while k < prog.len()
        invariant
            k <= prog@.len(),
            base == m.nodes.len(),
            program_ok(prog@, args@.len() as int),
            m.nodes.len() + prog@.len() <= u32::MAX + 1,
            arena@ == partly_built(m, prog@, k as nat, args@),
        decreases prog@.len() - k,
    {
        let ghost s = prog@[k as int];
        assert(s.ok(k as int, args@.len() as int));
        match prog[k] {
            Step::Const(bits) => {
                arena.push_const(bits);
            },
            Step::Unary(op, a) => {
                let a = resolve(a, args, base, Ghost(k as int));
                arena.push_unary(op, a);
            },
            Step::Binary(op, a, b) => {
                let a = resolve(a, args, base, Ghost(k as int));
                let b = resolve(b, args, base, Ghost(k as int));
                arena.push_binary(op, a, b);
            },
            Step::Ternary(op, a, b, c) => {
                let a = resolve(a, args, base, Ghost(k as int));
                let b = resolve(b, args, base, Ghost(k as int));
                let c = resolve(c, args, base, Ghost(k as int));
                arena.push_ternary(op, a, b, c);
            },
        }
        assert(arena@.nodes =~= partly_built(m, prog@, (k + 1) as nat, args@).nodes);
        k += 1;
    }
    ExprId((base + (prog.len() - 1)) as u32)
}

} // verus!
