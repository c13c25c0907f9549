//! Expressions evaluated in exact arithmetic, on real numbers.

use crate::arena::model::{Head, Term};
use crate::arena::BufferId;
use crate::backend::emit::lane::mask;
use crate::backend::emit::lowering::programs::{program_ok, Operand, Step};
use crate::backend::emit::lowering::runner::{program_term, step_term, step_terms};
use crate::kind::OpKind;
use crate::number::two_to;
use vstd::prelude::*;

verus! {

/// Two to an integer power.
pub open spec fn power(e: int) -> real {
    if e >= 0 {
        two_to(e as nat) as real
    } else {
        (1 as real) / (two_to((-e) as nat) as real)
    }
}

/// The number that the bits of an `f32` stand for: a sign, a biased exponent and 23 bits
/// of fraction. Exponent zero is the exponent of the smallest numbers, without the
/// leading one.
pub open spec fn float(bits: u32) -> real {
    let size = bits % 0x8000_0000;
    let e = size / 0x80_0000;
    let f = size % 0x80_0000;
    let whole: int = if e == 0 {
        f as int
    } else {
        0x80_0000 + f
    };
    let x = (whole as real) * power(
        if e == 0 {
            -149
        } else {
            e - 150
        },
    );
    if bits < 0x8000_0000 {
        x
    } else {
        -x
    }
}

/// The bits are those of a number that is neither infinite nor tiny, or of zero.
pub open spec fn finite(bits: u32) -> bool {
    bits == 0 || 1 <= (bits / 0x80_0000) % 256 < 255
}

/// A value: a real number, or a word of bits, which also stands for a number.
pub enum Exact {
    Num(real),
    Word(u32),
}

impl Exact {
    /// As a number.
    pub open spec fn num(self) -> real {
        match self {
            Exact::Num(x) => x,
            Exact::Word(w) => float(w),
        }
    }

    /// As bits: those of the number, if it has bits.
    pub open spec fn word(self) -> u32 {
        match self {
            Exact::Num(x) => choose|w: u32| finite(w) && float(w) == x,
            Exact::Word(w) => w,
        }
    }
}

/// The larger of two numbers.
pub open spec fn larger(a: real, b: real) -> real {
    if a >= b {
        a
    } else {
        b
    }
}

/// The smaller of two numbers.
pub open spec fn smaller(a: real, b: real) -> real {
    if a <= b {
        a
    } else {
        b
    }
}

/// A number without its sign.
pub open spec fn size(a: real) -> real {
    if a >= 0 as real {
        a
    } else {
        -a
    }
}

/// A word as a signed integer.
pub open spec fn signed(w: u32) -> int {
    if w < 0x8000_0000 {
        w as int
    } else {
        w - 0x1_0000_0000
    }
}

/// A number without its fraction.
pub open spec fn whole(a: real) -> int {
    if a >= 0 as real {
        a.floor()
    } else {
        -((-a).floor())
    }
}

/// A comparison as a mask.
pub open spec fn told(b: bool) -> Exact {
    Exact::Word(mask(b))
}

/// `r` is the square root of `x`.
pub open spec fn root_of(x: real, r: real) -> bool {
    r >= 0 as real && r * r == x
}

/// A unary operation in exact arithmetic.
pub open spec fn exact_unary(op: OpKind, a: Exact) -> Exact {
    let x = a.num();
    match op {
        OpKind::Neg => Exact::Num(-x),
        OpKind::Abs => Exact::Num(size(x)),
        OpKind::Floor => Exact::Num(x.floor() as real),
        OpKind::Sqrt => Exact::Num(choose|r: real| #[trigger] root_of(x, r)),
        OpKind::Recip => Exact::Num((1 as real) / x),
        OpKind::TruncToInt => Exact::Word((whole(x) % 0x1_0000_0000) as u32),
        OpKind::IntToFloat => Exact::Num(signed(a.word()) as real),
        _ => arbitrary(),
    }
}

/// A binary operation in exact arithmetic.
pub open spec fn exact_binary(op: OpKind, a: Exact, b: Exact) -> Exact {
    let x = a.num();
    let y = b.num();
    match op {
        OpKind::Add => Exact::Num(x + y),
        OpKind::Sub => Exact::Num(x - y),
        OpKind::Mul => Exact::Num(x * y),
        OpKind::Div => Exact::Num(x / y),
        OpKind::Min => Exact::Num(smaller(x, y)),
        OpKind::Max => Exact::Num(larger(x, y)),
        OpKind::Lt => told(x < y),
        OpKind::Le => told(x <= y),
        OpKind::Gt => told(x > y),
        OpKind::Ge => told(x >= y),
        OpKind::Eq => told(x == y),
        OpKind::Ne => told(x != y),
        OpKind::IAdd => Exact::Word(((a.word() + b.word()) % 0x1_0000_0000) as u32),
        OpKind::BitAnd => Exact::Word(a.word() & b.word()),
        OpKind::BitOr => Exact::Word(a.word() | b.word()),
        OpKind::Shl => Exact::Word(a.word() << (y.floor() as u32)),
        OpKind::Shr => Exact::Word(a.word() >> (y.floor() as u32)),
        _ => arbitrary(),
    }
}

/// A ternary operation in exact arithmetic.
pub open spec fn exact_ternary(op: OpKind, a: Exact, b: Exact, c: Exact) -> Exact {
    match op {
        OpKind::MulAdd => Exact::Num(a.num() * b.num() + c.num()),
        OpKind::Clamp => Exact::Num(larger(smaller(a.num(), c.num()), b.num())),
        OpKind::Select => if a.word() == 0xFFFF_FFFF {
            b
        } else if a.word() == 0 {
            c
        } else {
            arbitrary()
        },
        _ => arbitrary(),
    }
}

/// What an expression is evaluated with: its variables, and the samples of buffers.
pub struct World {
    pub inputs: spec_fn(u8) -> Exact,
    pub sample: spec_fn(BufferId, int) -> real,
}

/// An expression in exact arithmetic.
pub open spec fn exact(t: Term, w: World) -> Exact
    decreases t,
{
    match t.head {
        Head::Var(i) => (w.inputs)(i),
        Head::Const(bits) => Exact::Word(bits),
        Head::Unary(op) => if t.kids.len() == 1 {
            exact_unary(op, exact(t.kids[0], w))
        } else {
            arbitrary()
        },
        Head::Binary(op) => if t.kids.len() == 2 {
            if op is RawGather {
                match t.kids[0].head {
                    Head::Buffer(b, _) => Exact::Num(
                        (w.sample)(b, exact(t.kids[1], w).num().floor()),
                    ),
                    _ => arbitrary(),
                }
            } else {
                exact_binary(op, exact(t.kids[0], w), exact(t.kids[1], w))
            }
        } else {
            arbitrary()
        },
        Head::Ternary(op) => if t.kids.len() == 3 {
            exact_ternary(op, exact(t.kids[0], w), exact(t.kids[1], w), exact(t.kids[2], w))
        } else {
            arbitrary()
        },
        _ => arbitrary(),
    }
}

/// The value of an operand of a program.
pub open spec fn operand_value(o: Operand, prog: Seq<Step>, args: Seq<Exact>, k: nat) -> Exact
    decreases k, 0nat,
{
    match o {
        Operand::Arg(i) => args[i as int],
        Operand::Step(j) => if j < k {
            at(prog, args, j as nat)
        } else {
            arbitrary()
        },
    }
}

/// The value of a step of a program.
pub open spec fn at(prog: Seq<Step>, args: Seq<Exact>, k: nat) -> Exact
    decreases k, 1nat,
{
    match prog[k as int] {
        Step::Const(bits) => Exact::Word(bits),
        Step::Unary(op, a) => exact_unary(op, operand_value(a, prog, args, k)),
        Step::Binary(op, a, b) => exact_binary(
            op,
            operand_value(a, prog, args, k),
            operand_value(b, prog, args, k),
        ),
        Step::Ternary(op, a, b, c) => exact_ternary(
            op,
            operand_value(a, prog, args, k),
            operand_value(b, prog, args, k),
            operand_value(c, prog, args, k),
        ),
    }
}

/// No step reads a buffer.
pub open spec fn computes_only(prog: Seq<Step>) -> bool {
    forall|k: int| 0 <= k < prog.len() ==> !(#[trigger] prog[k] matches Step::Binary(op, _, _) && op is RawGather)
}

/// The terms of a program have the values of its steps.
pub proof fn lemma_steps(prog: Seq<Step>, terms: Seq<Term>, args: Seq<Exact>, w: World, n: nat, k: nat)
    requires
        program_ok(prog, terms.len() as int),
        n <= prog.len(),
        forall|j: int| 0 <= j < n ==> !(#[trigger] prog[j] matches Step::Binary(op, _, _) && op is RawGather),
        k < n,
        args.len() == terms.len(),
        forall|i: int| 0 <= i < args.len() ==> #[trigger] args[i] == exact(terms[i], w),
    ensures
        step_terms(prog, n, terms).len() == n,
        exact(step_terms(prog, n, terms)[k as int], w) == at(prog, args, k),
        k < n - 1 ==> step_terms(prog, n, terms)[k as int] == step_terms(
            prog,
            (n - 1) as nat,
            terms,
        )[k as int],
    decreases n,
{
    lemma_terms_len(prog, terms, n);
    lemma_terms_len(prog, terms, (n - 1) as nat);
    let prior = step_terms(prog, (n - 1) as nat, terms);
    if k < n - 1 {
        lemma_steps(prog, terms, args, w, (n - 1) as nat, k);
    } else {
        assert(prog[n - 1].ok(n - 1, terms.len() as int));
        let s = prog[n - 1];
        let t = step_term(s, terms, prior);
        assert(step_terms(prog, n, terms)[k as int] == t);
        match s {
            Step::Const(_) => {},
            Step::Unary(_, a) => {
                lemma_operand(prog, terms, args, w, n, a);
                assert(t.kids[0] == crate::backend::emit::lowering::runner::operand_term(a, terms, prior));
            },
            Step::Binary(_, a, b) => {
                lemma_operand(prog, terms, args, w, n, a);
                lemma_operand(prog, terms, args, w, n, b);
            },
            Step::Ternary(_, a, b, c) => {
                lemma_operand(prog, terms, args, w, n, a);
                lemma_operand(prog, terms, args, w, n, b);
                lemma_operand(prog, terms, args, w, n, c);
            },
        }
    }
}

proof fn lemma_terms_len(prog: Seq<Step>, terms: Seq<Term>, n: nat)
    ensures
        step_terms(prog, n, terms).len() == n,
    decreases n,
{
    if n > 0 {
        lemma_terms_len(prog, terms, (n - 1) as nat);
    }
}

proof fn lemma_operand(
    prog: Seq<Step>,
    terms: Seq<Term>,
    args: Seq<Exact>,
    w: World,
    n: nat,
    o: Operand,
)
    requires
        program_ok(prog, terms.len() as int),
        1 <= n <= prog.len(),
        forall|j: int| 0 <= j < n ==> !(#[trigger] prog[j] matches Step::Binary(op, _, _) && op is RawGather),
        args.len() == terms.len(),
        forall|i: int| 0 <= i < args.len() ==> #[trigger] args[i] == exact(terms[i], w),
        o.ok(n - 1, terms.len() as int),
    ensures
        exact(
            crate::backend::emit::lowering::runner::operand_term(
                o,
                terms,
                step_terms(prog, (n - 1) as nat, terms),
            ),
            w,
        ) == operand_value(o, prog, args, (n - 1) as nat),
    decreases n, 0nat,
{
    match o {
        Operand::Arg(i) => {
            assert(args[i as int] == exact(terms[i as int], w));
        },
        Operand::Step(j) => {
            lemma_steps(prog, terms, args, w, (n - 1) as nat, j as nat);
        },
    }
}

/// A program has the value of its last step.
pub proof fn lemma_program(prog: Seq<Step>, terms: Seq<Term>, args: Seq<Exact>, w: World)
    requires
        program_ok(prog, terms.len() as int),
        computes_only(prog),
        args.len() == terms.len(),
        forall|i: int| 0 <= i < args.len() ==> #[trigger] args[i] == exact(terms[i], w),
    ensures
        exact(program_term(prog, terms), w) == at(prog, args, (prog.len() - 1) as nat),
{
    lemma_steps(prog, terms, args, w, prog.len(), (prog.len() - 1) as nat);
}

} // verus!
