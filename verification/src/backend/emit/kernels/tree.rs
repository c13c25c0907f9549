//! Expressions emitted as trees for SSE, without spilling.
//!
//! A node's result goes to the register of its depth, its operands to deeper
//! ones. Shared nodes are emitted once for each use.

use crate::arena::model::{lemma_term_kids, Head, Term};
use crate::arena::{ExprArena, ExprId, ExprNode};
use crate::backend::emit::bytes::CodeBytes;
use crate::backend::emit::isa::sse::{commutes, sse_binary, X86Backend};
use crate::backend::emit::isa::IsaBackend;
use crate::backend::emit::outcome::Outcome;
use crate::backend::emit::plan::meaning::{Algebra, Machine};
use crate::backend::emit::x86_64;
use crate::backend::emit::x86_64::X86Code;
use crate::backend::emit::{Reg, INPUT_REGS, SCRATCH_BASE};
use crate::kind::OpKind;
use vstd::prelude::*;

verus! {

/// Highest register for values; the ones above are scratch.
pub const X86_MAX_VALUE_REG: u8 = 11;

/// The greater of two numbers.
pub open spec fn greater(a: nat, b: nat) -> nat {
    if a >= b {
        a
    } else {
        b
    }
}

/// Registers needed to evaluate an expression: a leaf needs one; equally
/// demanding operands need one more than each, else the more demanding decides.
/// Parameters and leaves that are not plain values have no such number.
pub open spec fn needs(t: Term) -> Option<nat>
    decreases t,
{
    match t.head {
        Head::Var(_) | Head::Const(_) => Some(1),
        Head::Unary(_) => if t.kids.len() == 1 {
            needs(t.kids[0])
        } else {
            None
        },
        Head::Binary(_) => if t.kids.len() == 2 {
            match (needs(t.kids[0]), needs(t.kids[1])) {
                (Some(l), Some(r)) => if l == r {
                    Some(l + 1)
                } else {
                    Some(greater(l, r))
                },
                _ => None,
            }
        } else {
            None
        },
        Head::Ternary(_) => if t.kids.len() == 3 {
            match (needs(t.kids[0]), needs(t.kids[1]), needs(t.kids[2])) {
                (Some(a), Some(b), Some(c)) => {
                    let most = greater(greater(a, b), c);
                    if a == b || b == c || a == c {
                        Some(most + 1)
                    } else {
                        Some(most)
                    }
                },
                _ => None,
            }
        } else {
            None
        },
        Head::Nary(_) => match most_needed(t.kids) {
            Some(most) => Some(
                most + if t.kids.len() == 0 {
                    0nat
                } else {
                    (t.kids.len() - 1) as nat
                },
            ),
            None => None,
        },
        _ => None,
    }
}

/// The most that one of several expressions needs; zero if there is none.
pub open spec fn most_needed(ts: Seq<Term>) -> Option<nat>
    decreases ts,
{
    if ts.len() == 0 {
        Some(0)
    } else {
        match (most_needed(ts.drop_last()), needs(ts.last())) {
            (Some(a), Some(b)) => Some(greater(a, b)),
            _ => None,
        }
    }
}

/// The needs of an expression are a machine number.
pub open spec fn countable(t: Term) -> bool {
    needs(t) matches Some(n) && n <= usize::MAX
}

/// If one of several expressions has no countable needs, neither have all.
proof fn lemma_uncountable(ts: Seq<Term>, k: int)
    requires
        0 <= k < ts.len(),
        !countable(ts[k]),
    ensures
        !(most_needed(ts) matches Some(n) && n <= usize::MAX),
    decreases ts.len(),
{
    if k < ts.len() - 1 {
        assert(ts.drop_last()[k] == ts[k]);
        lemma_uncountable(ts.drop_last(), k);
    }
}

/// What is needed of the first of several expressions.
proof fn lemma_needed_step(ts: Seq<Term>, k: int)
    requires
        0 <= k < ts.len(),
    ensures
        most_needed(ts.take(k + 1)) == (match (most_needed(ts.take(k)), needs(ts[k])) {
            (Some(a), Some(b)) => Some(greater(a, b)),
            _ => None,
        }),
{
    let now = ts.take(k + 1);
    assert(now.drop_last() =~= ts.take(k));
    assert(now.last() == ts[k]);
}

/// Registers needed to evaluate the expression at `id`, if that is a machine
/// number.
pub fn count_needs(arena: &ExprArena, id: ExprId) -> (n: Option<usize>)
    requires
        arena@.wf(),
        arena@.has(id),
    ensures
        match n {
            Some(n) => needs(arena@.term(id.0 as int)) == Some(n as nat),
            None => !countable(arena@.term(id.0 as int)),
        },
    decreases id.0,
{
    let ghost m = arena@;
    let ghost t = m.term(id.0 as int);
    proof {
        lemma_term_kids(m, id.0 as int);
    }
    match *arena.node(id) {
        ExprNode::Var(_) | ExprNode::Const(_) => Some(1),
        ExprNode::Unary(_, child) => {
            assert(m.kids(id.0 as int)[0] == child);
            assert(t.kids[0] == m.term(child.0 as int));
            count_needs(arena, child)
        },
        ExprNode::Binary(_, left, right) => {
            assert(m.kids(id.0 as int)[0] == left && m.kids(id.0 as int)[1] == right);
            assert(t.kids[0] == m.term(left.0 as int) && t.kids[1] == m.term(right.0 as int));
            match (count_needs(arena, left), count_needs(arena, right)) {
                (Some(l), Some(r)) => if l == r {
                    l.checked_add(1)
                } else if l > r {
                    Some(l)
                } else {
                    Some(r)
                },
                _ => None,
            }
        },
        ExprNode::Ternary(_, a, b, c) => {
            assert(m.kids(id.0 as int)[0] == a && m.kids(id.0 as int)[1] == b && m.kids(
                id.0 as int,
            )[2] == c);
            assert(t.kids[0] == m.term(a.0 as int) && t.kids[1] == m.term(b.0 as int) && t.kids[2]
                == m.term(c.0 as int));
            match (count_needs(arena, a), count_needs(arena, b), count_needs(arena, c)) {
                (Some(na), Some(nb), Some(nc)) => {
                    let ab: usize = if na >= nb {
                        na
                    } else {
                        nb
                    };
                    let most: usize = if ab >= nc {
                        ab
                    } else {
                        nc
                    };
                    if na == nb || nb == nc || na == nc {
                        most.checked_add(1)
                    } else {
                        Some(most)
                    }
                },
                _ => None,
            }
        },
        ExprNode::Nary(_, start, len) => {
            assert(m.node_ok(id.0 as int, m.nodes[id.0 as int]));
            let children = arena.nary_children_slice(start, len);
            assert(children@ == m.kids(id.0 as int));
            let mut most: usize = 0;
            let mut k: usize = 0;
            assert(t.kids.take(0) =~= Seq::<Term>::empty());
            while k < children.len()
                invariant
                    k <= children@.len(),
                    m == arena@,
                    m.wf(),
                    m.has(id),
                    t == m.term(id.0 as int),
                    t.head is Nary,
                    children@ == m.kids(id.0 as int),
                    t.kids.len() == children@.len(),
                    forall|j: int|
                        0 <= j < children@.len() ==> 0 <= (#[trigger] m.kids(id.0 as int)[j]).0
                            < id.0,
                    forall|j: int|
                        0 <= j < children@.len() ==> #[trigger] t.kids[j] == m.term(
                            m.kids(id.0 as int)[j].0 as int,
                        ),
                    most_needed(t.kids.take(k as int)) == Some(most as nat),
                decreases children@.len() - k,
            {
                proof {
                    assert(m.kids(id.0 as int)[k as int] == children@[k as int]);
                    assert(t.kids[k as int] == m.term(children@[k as int].0 as int));
                    lemma_needed_step(t.kids, k as int);
                }
                match count_needs(arena, children[k]) {
                    Some(n) => {
                        if n > most {
                            most = n;
                        }
                    },
                    None => {
                        proof {
                            lemma_uncountable(t.kids, k as int);
                        }
                        return None;
                    },
                }
                k += 1;
            }
            assert(t.kids.take(k as int) =~= t.kids);
            if children.len() == 0 {
                Some(most)
            } else {
                most.checked_add(children.len() - 1)
            }
        },
        _ => None,
    }
}

/// Registers needed to evaluate the expression at `id`.
pub fn needs_arena(arena: &ExprArena, id: ExprId) -> (n: usize)
    requires
        arena@.wf(),
        arena@.has(id),
        countable(arena@.term(id.0 as int)),
    ensures
        Some(n as nat) == needs(arena@.term(id.0 as int)),
{
    match count_needs(arena, id) {
        Some(n) => n,
        None => 0,
    }
}

/// An instruction, with the registers it scratches.
pub enum Inst {
    /// A constant.
    Load(Reg, u32),
    /// A copy.
    Copy(Reg, Reg),
    /// A unary operation.
    Unary(OpKind, Reg, Reg, [Reg; 4]),
    /// A binary operation that updates its destination: the first operand is
    /// copied there.
    Binary(OpKind, Reg, Reg, Reg),
    /// A power or the length of a vector.
    Builtin(OpKind, Reg, Reg, Reg, [Reg; 4]),
    /// A choice by mask, with a scratch register.
    Select(Reg, Reg, Reg, Reg, Reg),
}

/// Code of an instruction.
#[verifier::opaque]
pub open spec fn encoded(code: Seq<u8>, i: Inst) -> Seq<u8> {
    match i {
        Inst::Load(dst, bits) => code.constant(dst, bits),
        Inst::Copy(dst, src) => code.sse(0x28, dst, src),
        Inst::Unary(op, dst, src, sc) => x86_64::unary_code(code, op, dst, src, sc)->0,
        Inst::Binary(op, dst, a, b) => x86_64::binary_code(code, op, dst, a, b)->0,
        Inst::Builtin(op, dst, a, b, sc) => x86_64::transcendental_code(
            code,
            op,
            dst,
            a,
            b,
            sc,
        )->0,
        Inst::Select(dst, mask, t, f, tmp) => x86_64::blend_code(code, dst, mask, t, f, tmp),
    }
}

/// Code of instructions in order.
pub open spec fn encoded_all(code: Seq<u8>, insts: Seq<Inst>) -> Seq<u8>
    decreases insts.len(),
{
    if insts.len() == 0 {
        code
    } else {
        encoded(encoded_all(code, insts.drop_last()), insts.last())
    }
}

/// Instructions in two parts are encoded one part after the other.
pub proof fn lemma_encoded_split(code: Seq<u8>, a: Seq<Inst>, b: Seq<Inst>)
    ensures
        encoded_all(code, a + b) == encoded_all(encoded_all(code, a), b),
    decreases b.len(),
{
    if b.len() == 0 {
        assert(a + b =~= a);
    } else {
        lemma_encoded_split(code, a, b.drop_last());
        assert((a + b).drop_last() =~= a + b.drop_last());
        assert((a + b).last() == b.last());
    }
}

/// One more instruction is encoded behind the others.
pub proof fn lemma_encoded_push(code: Seq<u8>, a: Seq<Inst>, i: Inst)
    ensures
        encoded_all(code, a.push(i)) == encoded(encoded_all(code, a), i),
{
    assert(a.push(i).drop_last() =~= a);
}

/// Scratch registers of unary operations and builtins.
pub open spec fn tree_scratch() -> [Reg; 4] {
    [Reg(12), Reg(13), Reg(14), Reg(15)]
}

/// Instructions of an expression and the register of its result.
pub type Tree = (Seq<Inst>, Reg);

/// The operand that goes to the destination register is the right one: it needs
/// more registers, and the operands may be swapped.
pub open spec fn right_first(op: OpKind, left: Term, right: Term) -> bool {
    needs(right)->0 > needs(left)->0 && commutes(op)
}

/// What the instruction of a binary node is.
pub open spec fn binary_inst(op: OpKind, dst: Reg, a: Reg, b: Reg) -> Option<Inst> {
    if op is Pow || op is Hypot {
        Some(Inst::Builtin(op, dst, a, b, tree_scratch()))
    } else if sse_binary(op) {
        Some(Inst::Binary(op, dst, a, b))
    } else {
        None
    }
}

/// What the instructions of a ternary node are.
pub open spec fn ternary_insts(op: OpKind, dst: Reg, a: Reg, b: Reg, c: Reg) -> Seq<Inst> {
    match op {
        OpKind::MulAdd => seq![
            Inst::Binary(OpKind::Mul, dst, a, b),
            Inst::Binary(OpKind::Add, dst, dst, c),
        ],
        OpKind::Clamp => seq![
            Inst::Binary(OpKind::Min, dst, a, c),
            Inst::Binary(OpKind::Max, dst, dst, b),
        ],
        _ => seq![Inst::Select(dst, a, b, c, Reg(15))],
    }
}

/// The register of a depth.
pub open spec fn depth_reg(depth: nat) -> Reg {
    Reg((SCRATCH_BASE + depth) as u8)
}

/// The instructions of an expression whose result goes to the register of
/// `depth`.
pub open spec fn tree_of(t: Term, depth: nat) -> Outcome<Tree>
    decreases t,
{
    let dst = depth_reg(depth);
    if !(t.head is Var) && SCRATCH_BASE + depth > X86_MAX_VALUE_REG {
        Outcome::Fail("x86 JIT: expression too deep for SSE register budget")
    } else {
        match t.head {
            Head::Var(i) => if i < 4 {
                Outcome::Done((Seq::empty(), Reg(i)))
            } else {
                Outcome::Fail("variable index out of range")
            },
            Head::Const(bits) => Outcome::Done((seq![Inst::Load(dst, bits)], dst)),
            Head::Param(_) => Outcome::Fail("Param not supported directly here"),
            Head::Unary(op) => if t.kids.len() == 1 {
                match tree_of(t.kids[0], depth + 1) {
                    Outcome::Done((insts, src)) => if X86Backend::unary_ok(op) {
                        Outcome::Done(
                            (insts.push(Inst::Unary(op, dst, src, tree_scratch())), dst),
                        )
                    } else {
                        Outcome::Refused
                    },
                    x => x,
                }
            } else {
                Outcome::Refused
            },
            Head::Binary(op) => if t.kids.len() == 2 && countable(t.kids[0]) && countable(
                t.kids[1],
            ) {
                let swap = right_first(op, t.kids[0], t.kids[1]);
                let first = if swap {
                    tree_of(t.kids[1], depth)
                } else {
                    tree_of(t.kids[0], depth)
                };
                let second = if swap {
                    tree_of(t.kids[0], depth + 1)
                } else {
                    tree_of(t.kids[1], depth + 1)
                };
                match first {
                    Outcome::Done((a, ra)) => match second {
                        Outcome::Done((b, rb)) => match binary_inst(op, dst, ra, rb) {
                            Some(i) => Outcome::Done(((a + b).push(i), dst)),
                            None => Outcome::Refused,
                        },
                        x => x,
                    },
                    x => x,
                }
            } else {
                Outcome::Refused
            },
            Head::Ternary(op) => if !(op is MulAdd || op is Clamp || op is Select) {
                Outcome::Fail("ternary emit not implemented")
            } else if t.kids.len() == 3 {
                match tree_of(t.kids[0], depth) {
                    Outcome::Done((a, ra)) => match tree_of(t.kids[1], depth + 1) {
                        Outcome::Done((b, rb)) => match tree_of(t.kids[2], depth + 2) {
                            Outcome::Done((c, rc)) => Outcome::Done(
                                (a + b + c + ternary_insts(op, dst, ra, rb, rc), dst),
                            ),
                            x => x,
                        },
                        x => x,
                    },
                    x => x,
                }
            } else {
                Outcome::Refused
            },
            Head::Nary(_) => Outcome::Fail("Nary not supported in JIT"),
            _ => Outcome::Refused,
        }
    }
}

/// Emit a constant.
pub(crate) fn emit_load(code: &mut Vec<u8>, dst: Reg, bits: u32)
    ensures
        final(code)@ == encoded(old(code)@, Inst::Load(dst, bits)),
        final(code)@.len() >= old(code)@.len(),
{
    proof {
        reveal(encoded);
        x86_64::lemma_constant_grows(code@, dst, bits);
    }
    x86_64::emit_const(code, dst, bits, [Reg(13), Reg(14), Reg(15), Reg(15)]);
}

/// Emit a unary instruction.
pub(crate) fn emit_unary(code: &mut Vec<u8>, op: OpKind, dst: Reg, src: Reg, scratch: [Reg; 4])
    requires
        X86Backend::unary_ok(op),
    ensures
        final(code)@ == encoded(old(code)@, Inst::Unary(op, dst, src, scratch)),
        final(code)@.len() >= old(code)@.len(),
{
    proof {
        reveal(encoded);
        reveal(x86_64::vex_code);
        reveal(x86_64::constant_code);
    }
    x86_64::emit_unary(code, op, dst, src, scratch);
}

/// Emit a binary instruction that updates its destination.
pub(crate) fn emit_binary(code: &mut Vec<u8>, op: OpKind, dst: Reg, a: Reg, b: Reg)
    requires
        sse_binary(op),
    ensures
        final(code)@ == encoded(old(code)@, Inst::Binary(op, dst, a, b)),
        final(code)@.len() >= old(code)@.len(),
{
    proof {
        reveal(encoded);
        reveal(x86_64::vex_code);
    }
    x86_64::emit_binary(code, op, dst, a, b);
}

/// Emit the instruction of a binary node.
fn emit_binary_node(code: &mut Vec<u8>, op: OpKind, dst: Reg, a: Reg, b: Reg)
    requires
        binary_inst(op, dst, a, b) is Some,
    ensures
        final(code)@ == encoded(old(code)@, binary_inst(op, dst, a, b)->0),
        final(code)@.len() >= old(code)@.len(),
{
    match op {
        OpKind::Pow | OpKind::Hypot => {
            proof {
                reveal(encoded);
                reveal(x86_64::vex_code);
                x86_64::lemma_pow_grows(code@, dst, a, b, tree_scratch());
            }
            x86_64::emit_binary_transcendental(
                code,
                op,
                dst,
                a,
                b,
                [Reg(12), Reg(13), Reg(14), Reg(15)],
            );
        },
        _ => emit_binary(code, op, dst, a, b),
    }
}

/// Emit the instructions of a ternary node.
fn emit_ternary_node(code: &mut Vec<u8>, op: OpKind, dst: Reg, a: Reg, b: Reg, c: Reg)
    requires
        op is MulAdd || op is Clamp || op is Select,
    ensures
        final(code)@ == encoded_all(old(code)@, ternary_insts(op, dst, a, b, c)),
        final(code)@.len() >= old(code)@.len(),
{
    let ghost c0 = code@;
    match op {
        OpKind::MulAdd => {
            emit_binary(code, OpKind::Mul, dst, a, b);
            emit_binary(code, OpKind::Add, dst, dst, c);
        },
        OpKind::Clamp => {
            emit_binary(code, OpKind::Min, dst, a, c);
            emit_binary(code, OpKind::Max, dst, dst, b);
        },
        _ => {
            proof {
                reveal(encoded);
                reveal(x86_64::vex_code);
            }
            x86_64::emit_select(code, dst, a, b, c, Reg(15));
        },
    }
    proof {
        let tail = ternary_insts(op, dst, a, b, c);
        reveal_with_fuel(encoded_all, 3);
        if !(op is Select) {
            assert(tail.drop_last() =~= seq![tail[0]]);
            assert(tail.drop_last().drop_last() =~= Seq::<Inst>::empty());
        } else {
            assert(tail.drop_last() =~= Seq::<Inst>::empty());
        }
    }
}

/// Emit the code of the expression at `id`; returns the register of its result.
pub(crate) fn emit_arena(
    arena: &ExprArena,
    id: ExprId,
    depth: u8,
    code: &mut Vec<u8>,
) -> (r: Outcome<Reg>)
    requires
        arena@.wf(),
        arena@.has(id),
        depth <= 9,
    ensures
        match tree_of(arena@.term(id.0 as int), depth as nat) {
            Outcome::Done((insts, reg)) => r == Outcome::Done(reg) && final(code)@
                == encoded_all(old(code)@, insts) && final(code)@.len() >= old(code)@.len(),
            Outcome::Fail(e) => r == Outcome::<Reg>::Fail(e),
            Outcome::Refused => r is Refused,
        },
    decreases id.0,
{
    let ghost m = arena@;
    let ghost t = m.term(id.0 as int);
    let ghost c0 = code@;
    proof {
        lemma_term_kids(m, id.0 as int);
    }
    let node: ExprNode = *arena.node(id);
    if let ExprNode::Var(i) = node {
        if i as usize >= INPUT_REGS.len() {
            return Outcome::Fail("variable index out of range");
        }
        return Outcome::Done(Reg(INPUT_REGS[i as usize]));
    }
    if SCRATCH_BASE + depth > X86_MAX_VALUE_REG {
        return Outcome::Fail("x86 JIT: expression too deep for SSE register budget");
    }
    let dst: Reg = Reg(SCRATCH_BASE + depth);
    match node {
        ExprNode::Const(bits) => {
            emit_load(code, dst, bits);
            proof {
                let i = Inst::Load(dst, bits);
                lemma_encoded_push(c0, Seq::empty(), i);
                assert(Seq::<Inst>::empty().push(i) =~= seq![i]);
            }
            Outcome::Done(dst)
        },
        ExprNode::Param(_) => Outcome::Fail("Param not supported directly here"),
        ExprNode::Unary(op, child) => {
            assert(m.kids(id.0 as int)[0] == child);
            assert(t.kids[0] == m.term(child.0 as int));
            let src: Reg = match emit_arena(arena, child, depth + 1, code) {
                Outcome::Done(s) => s,
                x => return x,
            };
            if !X86Backend::can_unary(op) {
                return Outcome::Refused;
            }
            emit_unary(code, op, dst, src, [Reg(12), Reg(13), Reg(14), Reg(15)]);
            proof {
                let insts = tree_of(t.kids[0], (depth + 1) as nat)->Done_0.0;
                lemma_encoded_push(c0, insts, Inst::Unary(op, dst, src, tree_scratch()));
            }
            Outcome::Done(dst)
        },
        ExprNode::Binary(op, left, right) => {
            assert(m.kids(id.0 as int)[0] == left && m.kids(id.0 as int)[1] == right);
            assert(t.kids[0] == m.term(left.0 as int) && t.kids[1] == m.term(right.0 as int));
            let (n_l, n_r): (usize, usize) = match (
                count_needs(arena, left),
                count_needs(arena, right),
            ) {
                (Some(l), Some(r)) => (l, r),
                _ => return Outcome::Refused,
            };
            let commutative: bool = match op {
                OpKind::Add | OpKind::Mul | OpKind::Min | OpKind::Max | OpKind::Eq
                | OpKind::Ne => true,
                _ => false,
            };
            let swap: bool = n_r > n_l && commutative;
            let (first, second): (ExprId, ExprId) = if swap {
                (right, left)
            } else {
                (left, right)
            };
            let src1: Reg = match emit_arena(arena, first, depth, code) {
                Outcome::Done(s) => s,
                x => return x,
            };
            let src2: Reg = match emit_arena(arena, second, depth + 1, code) {
                Outcome::Done(s) => s,
                x => return x,
            };
            let ghost a = tree_of(m.term(first.0 as int), depth as nat)->Done_0.0;
            let ghost b = tree_of(m.term(second.0 as int), (depth + 1) as nat)->Done_0.0;
            if !X86Backend::can_binary(op) {
                return Outcome::Refused;
            }
            emit_binary_node(code, op, dst, src1, src2);
            proof {
                lemma_encoded_split(c0, a, b);
                lemma_encoded_push(c0, a + b, binary_inst(op, dst, src1, src2)->0);
            }
            Outcome::Done(dst)
        },
        ExprNode::Ternary(op, a, b, c) => {
            assert(m.kids(id.0 as int)[0] == a && m.kids(id.0 as int)[1] == b && m.kids(
                id.0 as int,
            )[2] == c);
            assert(t.kids[0] == m.term(a.0 as int) && t.kids[1] == m.term(b.0 as int) && t.kids[2]
                == m.term(c.0 as int));
            match op {
                OpKind::MulAdd | OpKind::Clamp | OpKind::Select => {},
                _ => return Outcome::Fail("ternary emit not implemented"),
            }
            let ra: Reg = match emit_arena(arena, a, depth, code) {
                Outcome::Done(s) => s,
                x => return x,
            };
            let rb: Reg = match emit_arena(arena, b, depth + 1, code) {
                Outcome::Done(s) => s,
                x => return x,
            };
            let rc: Reg = match emit_arena(arena, c, depth + 2, code) {
                Outcome::Done(s) => s,
                x => return x,
            };
            let ghost ia = tree_of(t.kids[0], depth as nat)->Done_0.0;
            let ghost ib = tree_of(t.kids[1], (depth + 1) as nat)->Done_0.0;
            let ghost ic = tree_of(t.kids[2], (depth + 2) as nat)->Done_0.0;
            emit_ternary_node(code, op, dst, ra, rb, rc);
            proof {
                lemma_encoded_split(c0, ia, ib);
                lemma_encoded_split(c0, ia + ib, ic);
                lemma_encoded_split(c0, ia + ib + ic, ternary_insts(op, dst, ra, rb, rc));
            }
            Outcome::Done(dst)
        },
        ExprNode::Nary(_, _, _) => Outcome::Fail("Nary not supported in JIT"),
        _ => Outcome::Refused,
    }
}

impl Algebra {
    /// After an instruction. What it leaves in its scratch registers is left
    /// open.
    pub open spec fn inst(self, m: Machine, i: Inst) -> Machine {
        match i {
            Inst::Load(dst, bits) => m.with_reg(dst, (self.constant)(bits)),
            Inst::Copy(dst, src) => m.with_reg(dst, m.regs[src]),
            Inst::Unary(op, dst, src, sc) => {
                let m = m.with_reg(sc[0], arbitrary());
                m.with_reg(dst, (self.unary)(op, m.regs[src]))
            },
            Inst::Binary(op, dst, a, b) => {
                let m = m.with_reg(dst, m.regs[a]);
                m.with_reg(dst, (self.binary)(op, m.regs[dst], m.regs[b]))
            },
            Inst::Builtin(op, dst, a, b, sc) => {
                let m = m.with_reg(sc[0], arbitrary()).with_reg(sc[1], arbitrary()).with_reg(
                    sc[2],
                    arbitrary(),
                ).with_reg(sc[3], arbitrary());
                m.with_reg(dst, (self.binary)(op, m.regs[a], m.regs[b]))
            },
            Inst::Select(dst, mask, t, f, tmp) => {
                let m = m.with_reg(tmp, arbitrary());
                m.with_reg(dst, (self.select)(m.regs[mask], m.regs[t], m.regs[f]))
            },
        }
    }

    /// After instructions in order.
    pub open spec fn insts(self, m: Machine, is: Seq<Inst>) -> Machine
        decreases is.len(),
    {
        if is.len() == 0 {
            m
        } else {
            self.inst(self.insts(m, is.drop_last()), is.last())
        }
    }

    /// The value of an expression of variables, constants and operations.
    pub open spec fn value(self, t: Term, inputs: spec_fn(u8) -> int) -> int
        decreases t,
    {
        match t.head {
            Head::Var(i) => inputs(i),
            Head::Const(bits) => (self.constant)(bits),
            Head::Unary(op) => if t.kids.len() == 1 {
                (self.unary)(op, self.value(t.kids[0], inputs))
            } else {
                arbitrary()
            },
            Head::Binary(op) => if t.kids.len() == 2 {
                (self.binary)(
                    op,
                    self.value(t.kids[0], inputs),
                    self.value(t.kids[1], inputs),
                )
            } else {
                arbitrary()
            },
            Head::Ternary(op) => if t.kids.len() == 3 {
                let a = self.value(t.kids[0], inputs);
                let b = self.value(t.kids[1], inputs);
                let c = self.value(t.kids[2], inputs);
                match op {
                    OpKind::MulAdd => (self.binary)(
                        OpKind::Add,
                        (self.binary)(OpKind::Mul, a, b),
                        c,
                    ),
                    OpKind::Clamp => (self.binary)(OpKind::Max, (self.binary)(OpKind::Min, a, c), b),
                    _ => (self.select)(a, b, c),
                }
            } else {
                arbitrary()
            },
            _ => arbitrary(),
        }
    }

    /// The operands of commutative operations may be swapped.
    pub open spec fn commutes_as_told(self) -> bool {
        forall|op: OpKind, x: int, y: int|
            commutes(op) ==> #[trigger] (self.binary)(op, x, y) == (self.binary)(op, y, x)
    }
}

/// Instructions in two parts run one part after the other.
pub proof fn lemma_insts_split(alg: Algebra, m: Machine, a: Seq<Inst>, b: Seq<Inst>)
    ensures
        alg.insts(m, a + b) == alg.insts(alg.insts(m, a), b),
    decreases b.len(),
{
    if b.len() == 0 {
        assert(a + b =~= a);
    } else {
        lemma_insts_split(alg, m, a, b.drop_last());
        assert((a + b).drop_last() =~= a + b.drop_last());
        assert((a + b).last() == b.last());
    }
}

/// One more instruction runs after the others.
pub proof fn lemma_insts_push(alg: Algebra, m: Machine, a: Seq<Inst>, i: Inst)
    ensures
        alg.insts(m, a.push(i)) == alg.inst(alg.insts(m, a), i),
{
    assert(a.push(i).drop_last() =~= a);
}

/// The inputs are in their registers.
pub open spec fn inputs_in(m: Machine, inputs: spec_fn(u8) -> int) -> bool {
    forall|i: u8| i < 4 ==> #[trigger] m.regs[Reg(i)] == inputs(i)
}

/// Registers below number `n` hold the same in both machines.
pub open spec fn same_below(a: Machine, b: Machine, n: int) -> bool {
    forall|r: Reg| r.0 < n ==> #[trigger] a.regs[r] == b.regs[r]
}

/// Code emitted for an expression computes it: from the inputs in their
/// registers, its instructions leave the expression's value in the register they
/// are said to, which is an input register or that of the depth, and change no
/// register before that.
#[verifier::rlimit(30)]
pub proof fn tree_code_computes_the_expression(
    alg: Algebra,
    m: Machine,
    t: Term,
    depth: nat,
    inputs: spec_fn(u8) -> int,
)
    requires
        alg.commutes_as_told(),
        inputs_in(m, inputs),
        tree_of(t, depth) is Done,
    ensures
        ({
            let (insts, reg) = tree_of(t, depth)->Done_0;
            let after = alg.insts(m, insts);
            &&& after.regs[reg] == alg.value(t, inputs)
            &&& same_below(after, m, SCRATCH_BASE + depth)
            &&& reg.0 < 4 || (reg == depth_reg(depth) && SCRATCH_BASE + depth <= 11)
        }),
    decreases t,
{
    let dst = depth_reg(depth);
    let (insts, reg) = tree_of(t, depth)->Done_0;
    match t.head {
        Head::Var(i) => {
            assert(m.regs[Reg(i)] == inputs(i));
        },
        Head::Const(bits) => {
            lemma_insts_push(alg, m, Seq::empty(), Inst::Load(dst, bits));
            assert(Seq::<Inst>::empty().push(Inst::Load(dst, bits)) =~= insts);
        },
        Head::Unary(op) => {
            tree_code_computes_the_expression(alg, m, t.kids[0], depth + 1, inputs);
            let (a, src) = tree_of(t.kids[0], depth + 1)->Done_0;
            lemma_insts_push(alg, m, a, Inst::Unary(op, dst, src, tree_scratch()));
        },
        Head::Binary(op) => {
            let swap = right_first(op, t.kids[0], t.kids[1]);
            let first = if swap {
                t.kids[1]
            } else {
                t.kids[0]
            };
            let second = if swap {
                t.kids[0]
            } else {
                t.kids[1]
            };
            tree_code_computes_the_expression(alg, m, first, depth, inputs);
            let (a, ra) = tree_of(first, depth)->Done_0;
            let m1 = alg.insts(m, a);
            lemma_inputs_kept(m, m1, depth, inputs);
            tree_code_computes_the_expression(alg, m1, second, depth + 1, inputs);
            let (b, rb) = tree_of(second, depth + 1)->Done_0;
            let m2 = alg.insts(m1, b);
            let i = binary_inst(op, dst, ra, rb)->0;
            lemma_insts_split(alg, m, a, b);
            lemma_insts_push(alg, m, a + b, i);
            assert(m2.regs[ra] == m1.regs[ra]);
            if swap {
                assert((alg.binary)(op, m2.regs[ra], m2.regs[rb]) == (alg.binary)(
                    op,
                    m2.regs[rb],
                    m2.regs[ra],
                ));
            }
        },
        Head::Ternary(op) => {
            tree_code_computes_the_expression(alg, m, t.kids[0], depth, inputs);
            let (a, ra) = tree_of(t.kids[0], depth)->Done_0;
            let m1 = alg.insts(m, a);
            lemma_inputs_kept(m, m1, depth, inputs);
            tree_code_computes_the_expression(alg, m1, t.kids[1], depth + 1, inputs);
            let (b, rb) = tree_of(t.kids[1], depth + 1)->Done_0;
            let m2 = alg.insts(m1, b);
            lemma_inputs_kept(m1, m2, depth + 1, inputs);
            tree_code_computes_the_expression(alg, m2, t.kids[2], depth + 2, inputs);
            let (c, rc) = tree_of(t.kids[2], depth + 2)->Done_0;
            let m3 = alg.insts(m2, c);
            let tail = ternary_insts(op, dst, ra, rb, rc);
            lemma_insts_split(alg, m, a, b);
            lemma_insts_split(alg, m, a + b, c);
            lemma_insts_split(alg, m, a + b + c, tail);
            assert(m2.regs[ra] == m1.regs[ra] && m3.regs[ra] == m2.regs[ra]);
            assert(m3.regs[rb] == m2.regs[rb]);
            reveal_with_fuel(Algebra::insts, 3);
            if !(op is Select) {
                assert(tail.drop_last() =~= seq![tail[0]]);
                assert(tail.drop_last().drop_last() =~= Seq::<Inst>::empty());
            } else {
                assert(tail.drop_last() =~= Seq::<Inst>::empty());
            }
        },
        _ => {},
    }
}

/// Inputs stay where they are if no register below a value register changes.
proof fn lemma_inputs_kept(m: Machine, after: Machine, depth: nat, inputs: spec_fn(u8) -> int)
    requires
        inputs_in(m, inputs),
        same_below(after, m, SCRATCH_BASE + depth),
    ensures
        inputs_in(after, inputs),
{
    assert forall|i: u8| i < 4 implies #[trigger] after.regs[Reg(i)] == inputs(i) by {
        assert(m.regs[Reg(i)] == inputs(i));
    }
}

} // verus!
