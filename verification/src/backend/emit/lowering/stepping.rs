//! The value of a program, one step at a time.

use crate::backend::emit::lowering::exact::{
    at, exact_binary, exact_unary, larger, operand_value, signed, size, smaller, told, whole, Exact,
};
use crate::backend::emit::lowering::programs::{Operand, Step};
use crate::kind::OpKind;
use vstd::prelude::*;

verus! {

/// The value of an operand once every step before it has one.
#[verifier::opaque]
pub open spec fn nth(prog: Seq<Step>, args: Seq<Exact>, o: Operand) -> Exact {
    match o {
        Operand::Arg(i) => args[i as int],
        Operand::Step(j) => at(prog, args, j as nat),
    }
}

pub(crate) proof fn lemma_arg(prog: Seq<Step>, args: Seq<Exact>, i: usize)
    ensures
        nth(prog, args, Operand::Arg(i)) == args[i as int],
{
    reveal(nth);
}

pub(crate) proof fn lemma_const(prog: Seq<Step>, args: Seq<Exact>, k: usize, bits: u32)
    requires
        prog[k as int] == Step::Const(bits),
    ensures
        nth(prog, args, Operand::Step(k)) == Exact::Word(bits),
{
    reveal(nth);
}

/// A step has the value that its operation gives to those of its operands.
pub(crate) proof fn lemma_unary(prog: Seq<Step>, args: Seq<Exact>, k: usize, op: OpKind, a: Operand)
    requires
        prog[k as int] == Step::Unary(op, a),
        a.ok(k as int, args.len() as int),
    ensures
        nth(prog, args, Operand::Step(k)) == exact_unary(op, nth(prog, args, a)),
{
    reveal(nth);
    reveal_with_fuel(at, 2);
    reveal_with_fuel(operand_value, 2);
}

pub(crate) proof fn lemma_binary(
    prog: Seq<Step>,
    args: Seq<Exact>,
    k: usize,
    op: OpKind,
    a: Operand,
    b: Operand,
)
    requires
        prog[k as int] == Step::Binary(op, a, b),
        a.ok(k as int, args.len() as int),
        b.ok(k as int, args.len() as int),
    ensures
        nth(prog, args, Operand::Step(k)) == exact_binary(
            op,
            nth(prog, args, a),
            nth(prog, args, b),
        ),
{
    reveal(nth);
    reveal_with_fuel(at, 2);
    reveal_with_fuel(operand_value, 2);
}

pub(crate) proof fn lemma_select(
    prog: Seq<Step>,
    args: Seq<Exact>,
    k: usize,
    a: Operand,
    b: Operand,
    c: Operand,
)
    requires
        prog[k as int] == Step::Ternary(OpKind::Select, a, b, c),
        a.ok(k as int, args.len() as int),
        b.ok(k as int, args.len() as int),
        c.ok(k as int, args.len() as int),
    ensures
        forall|t: bool| nth(prog, args, a) == #[trigger] told(t) ==> nth(prog, args, Operand::Step(k))
            == if t {
            nth(prog, args, b)
        } else {
            nth(prog, args, c)
        },
{
    reveal(nth);
    reveal_with_fuel(at, 2);
    reveal_with_fuel(operand_value, 2);
}

pub(crate) proof fn lemma_floor(prog: Seq<Step>, args: Seq<Exact>, k: usize, a: Operand)
    requires
        prog[k as int] == Step::Unary(OpKind::Floor, a),
        a.ok(k as int, args.len() as int),
    ensures
        ({
            let x = nth(prog, args, a).num();
            nth(prog, args, Operand::Step(k)) == Exact::Num(x.floor() as real)
        }),
{
    lemma_unary(prog, args, k, OpKind::Floor, a);
}

pub(crate) proof fn lemma_trunctoint(prog: Seq<Step>, args: Seq<Exact>, k: usize, a: Operand)
    requires
        prog[k as int] == Step::Unary(OpKind::TruncToInt, a),
        a.ok(k as int, args.len() as int),
    ensures
        ({
            let x = nth(prog, args, a).num();
            nth(prog, args, Operand::Step(k)) == Exact::Word((whole(x) % 0x1_0000_0000) as u32)
        }),
{
    lemma_unary(prog, args, k, OpKind::TruncToInt, a);
}

pub(crate) proof fn lemma_inttofloat(prog: Seq<Step>, args: Seq<Exact>, k: usize, a: Operand)
    requires
        prog[k as int] == Step::Unary(OpKind::IntToFloat, a),
        a.ok(k as int, args.len() as int),
    ensures
        ({
            let x = nth(prog, args, a).num();
            nth(prog, args, Operand::Step(k)) == Exact::Num(signed(nth(prog, args, a).word()) as real)
        }),
{
    lemma_unary(prog, args, k, OpKind::IntToFloat, a);
}

pub(crate) proof fn lemma_abs(prog: Seq<Step>, args: Seq<Exact>, k: usize, a: Operand)
    requires
        prog[k as int] == Step::Unary(OpKind::Abs, a),
        a.ok(k as int, args.len() as int),
    ensures
        ({
            let x = nth(prog, args, a).num();
            nth(prog, args, Operand::Step(k)) == Exact::Num(size(x))
        }),
{
    lemma_unary(prog, args, k, OpKind::Abs, a);
}

pub(crate) proof fn lemma_neg(prog: Seq<Step>, args: Seq<Exact>, k: usize, a: Operand)
    requires
        prog[k as int] == Step::Unary(OpKind::Neg, a),
        a.ok(k as int, args.len() as int),
    ensures
        ({
            let x = nth(prog, args, a).num();
            nth(prog, args, Operand::Step(k)) == Exact::Num(-x)
        }),
{
    lemma_unary(prog, args, k, OpKind::Neg, a);
}

pub(crate) proof fn lemma_recip(prog: Seq<Step>, args: Seq<Exact>, k: usize, a: Operand)
    requires
        prog[k as int] == Step::Unary(OpKind::Recip, a),
        a.ok(k as int, args.len() as int),
    ensures
        ({
            let x = nth(prog, args, a).num();
            nth(prog, args, Operand::Step(k)) == Exact::Num((1 as real) / x)
        }),
{
    lemma_unary(prog, args, k, OpKind::Recip, a);
}

pub(crate) proof fn lemma_add(prog: Seq<Step>, args: Seq<Exact>, k: usize, a: Operand, b: Operand)
    requires
        prog[k as int] == Step::Binary(OpKind::Add, a, b),
        a.ok(k as int, args.len() as int),
        b.ok(k as int, args.len() as int),
    ensures
        ({
            let x = nth(prog, args, a).num();
            let y = nth(prog, args, b).num();
            nth(prog, args, Operand::Step(k)) == Exact::Num(x + y)
        }),
{
    lemma_binary(prog, args, k, OpKind::Add, a, b);
}

pub(crate) proof fn lemma_sub(prog: Seq<Step>, args: Seq<Exact>, k: usize, a: Operand, b: Operand)
    requires
        prog[k as int] == Step::Binary(OpKind::Sub, a, b),
        a.ok(k as int, args.len() as int),
        b.ok(k as int, args.len() as int),
    ensures
        ({
            let x = nth(prog, args, a).num();
            let y = nth(prog, args, b).num();
            nth(prog, args, Operand::Step(k)) == Exact::Num(x - y)
        }),
{
    lemma_binary(prog, args, k, OpKind::Sub, a, b);
}

pub(crate) proof fn lemma_mul(prog: Seq<Step>, args: Seq<Exact>, k: usize, a: Operand, b: Operand)
    requires
        prog[k as int] == Step::Binary(OpKind::Mul, a, b),
        a.ok(k as int, args.len() as int),
        b.ok(k as int, args.len() as int),
    ensures
        ({
            let x = nth(prog, args, a).num();
            let y = nth(prog, args, b).num();
            nth(prog, args, Operand::Step(k)) == Exact::Num(x * y)
        }),
{
    lemma_binary(prog, args, k, OpKind::Mul, a, b);
}

pub(crate) proof fn lemma_max(prog: Seq<Step>, args: Seq<Exact>, k: usize, a: Operand, b: Operand)
    requires
        prog[k as int] == Step::Binary(OpKind::Max, a, b),
        a.ok(k as int, args.len() as int),
        b.ok(k as int, args.len() as int),
    ensures
        ({
            let x = nth(prog, args, a).num();
            let y = nth(prog, args, b).num();
            nth(prog, args, Operand::Step(k)) == Exact::Num(larger(x, y))
        }),
{
    lemma_binary(prog, args, k, OpKind::Max, a, b);
}

pub(crate) proof fn lemma_min(prog: Seq<Step>, args: Seq<Exact>, k: usize, a: Operand, b: Operand)
    requires
        prog[k as int] == Step::Binary(OpKind::Min, a, b),
        a.ok(k as int, args.len() as int),
        b.ok(k as int, args.len() as int),
    ensures
        ({
            let x = nth(prog, args, a).num();
            let y = nth(prog, args, b).num();
            nth(prog, args, Operand::Step(k)) == Exact::Num(smaller(x, y))
        }),
{
    lemma_binary(prog, args, k, OpKind::Min, a, b);
}

pub(crate) proof fn lemma_lt(prog: Seq<Step>, args: Seq<Exact>, k: usize, a: Operand, b: Operand)
    requires
        prog[k as int] == Step::Binary(OpKind::Lt, a, b),
        a.ok(k as int, args.len() as int),
        b.ok(k as int, args.len() as int),
    ensures
        ({
            let x = nth(prog, args, a).num();
            let y = nth(prog, args, b).num();
            nth(prog, args, Operand::Step(k)) == told(x < y)
        }),
{
    lemma_binary(prog, args, k, OpKind::Lt, a, b);
}

pub(crate) proof fn lemma_gt(prog: Seq<Step>, args: Seq<Exact>, k: usize, a: Operand, b: Operand)
    requires
        prog[k as int] == Step::Binary(OpKind::Gt, a, b),
        a.ok(k as int, args.len() as int),
        b.ok(k as int, args.len() as int),
    ensures
        ({
            let x = nth(prog, args, a).num();
            let y = nth(prog, args, b).num();
            nth(prog, args, Operand::Step(k)) == told(x > y)
        }),
{
    lemma_binary(prog, args, k, OpKind::Gt, a, b);
}

pub(crate) proof fn lemma_ge(prog: Seq<Step>, args: Seq<Exact>, k: usize, a: Operand, b: Operand)
    requires
        prog[k as int] == Step::Binary(OpKind::Ge, a, b),
        a.ok(k as int, args.len() as int),
        b.ok(k as int, args.len() as int),
    ensures
        ({
            let x = nth(prog, args, a).num();
            let y = nth(prog, args, b).num();
            nth(prog, args, Operand::Step(k)) == told(x >= y)
        }),
{
    lemma_binary(prog, args, k, OpKind::Ge, a, b);
}

pub(crate) proof fn lemma_shl(prog: Seq<Step>, args: Seq<Exact>, k: usize, a: Operand, b: Operand, n: u32)
    requires
        prog[k as int] == Step::Binary(OpKind::Shl, a, b),
        a.ok(k as int, args.len() as int),
        b.ok(k as int, args.len() as int),
        nth(prog, args, b).num() == n as real,
    ensures
        nth(prog, args, Operand::Step(k)) == Exact::Word(nth(prog, args, a).word() << n),
{
    lemma_binary(prog, args, k, OpKind::Shl, a, b);
    let y = nth(prog, args, b).num();
    assert(y.floor() == n as int);
    assert((y.floor() as u32) == n);
}

pub(crate) proof fn lemma_shr(prog: Seq<Step>, args: Seq<Exact>, k: usize, a: Operand, b: Operand, n: u32)
    requires
        prog[k as int] == Step::Binary(OpKind::Shr, a, b),
        a.ok(k as int, args.len() as int),
        b.ok(k as int, args.len() as int),
        nth(prog, args, b).num() == n as real,
    ensures
        nth(prog, args, Operand::Step(k)) == Exact::Word(nth(prog, args, a).word() >> n),
{
    lemma_binary(prog, args, k, OpKind::Shr, a, b);
    let y = nth(prog, args, b).num();
    assert(y.floor() == n as int);
    assert((y.floor() as u32) == n);
}

pub(crate) proof fn lemma_iadd(prog: Seq<Step>, args: Seq<Exact>, k: usize, a: Operand, b: Operand)
    requires
        prog[k as int] == Step::Binary(OpKind::IAdd, a, b),
        a.ok(k as int, args.len() as int),
        b.ok(k as int, args.len() as int),
    ensures
        ({
            let x = nth(prog, args, a).num();
            let y = nth(prog, args, b).num();
            nth(prog, args, Operand::Step(k)) == Exact::Word(
                ((nth(prog, args, a).word() + nth(prog, args, b).word()) % 0x1_0000_0000) as u32,
            )
        }),
{
    lemma_binary(prog, args, k, OpKind::IAdd, a, b);
}

pub(crate) proof fn lemma_bitand(prog: Seq<Step>, args: Seq<Exact>, k: usize, a: Operand, b: Operand)
    requires
        prog[k as int] == Step::Binary(OpKind::BitAnd, a, b),
        a.ok(k as int, args.len() as int),
        b.ok(k as int, args.len() as int),
    ensures
        ({
            let x = nth(prog, args, a).num();
            let y = nth(prog, args, b).num();
            nth(prog, args, Operand::Step(k)) == Exact::Word(
                nth(prog, args, a).word() & nth(prog, args, b).word(),
            )
        }),
{
    lemma_binary(prog, args, k, OpKind::BitAnd, a, b);
}

pub(crate) proof fn lemma_bitor(prog: Seq<Step>, args: Seq<Exact>, k: usize, a: Operand, b: Operand)
    requires
        prog[k as int] == Step::Binary(OpKind::BitOr, a, b),
        a.ok(k as int, args.len() as int),
        b.ok(k as int, args.len() as int),
    ensures
        ({
            let x = nth(prog, args, a).num();
            let y = nth(prog, args, b).num();
            nth(prog, args, Operand::Step(k)) == Exact::Word(
                nth(prog, args, a).word() | nth(prog, args, b).word(),
            )
        }),
{
    lemma_binary(prog, args, k, OpKind::BitOr, a, b);
}

} // verus!
