//! The derivatives of jets by the rules of calculus.

use crate::arena::model::{Head, Term};
use crate::backend::emit::kernels::derivative::{holds, jet_holds, jet_kernels_differentiate};
use crate::backend::emit::kernels::jets::{fresh, jet_of, Partial};
use crate::backend::emit::kernels::tree::inputs_in;
use crate::backend::emit::plan::meaning::{Algebra, Machine};
use crate::kind::OpKind;
use vstd::prelude::*;

verus! {

impl Algebra {
    /// Addition, subtraction, multiplication and negation are those of the integers,
    /// and the bits of one stand for one.
    pub open spec fn ordinary(self) -> bool {
        &&& forall|a: int, b: int| #[trigger] (self.binary)(OpKind::Add, a, b) == a + b
        &&& forall|a: int, b: int| #[trigger] (self.binary)(OpKind::Sub, a, b) == a - b
        &&& forall|a: int, b: int| #[trigger] (self.binary)(OpKind::Mul, a, b) == a * b
        &&& forall|a: int| #[trigger] (self.unary)(OpKind::Neg, a) == -a
        &&& (self.constant)(0x3F800000) == 1
    }

    /// The derivative as a number: zero if it is zero whatever the inputs.
    pub open spec fn slope(self, t: Term, v: u8, inputs: spec_fn(u8) -> int) -> int {
        match self.derivative(t, v, inputs) {
            None => 0,
            Some(d) => d,
        }
    }
}

/// Derivatives follow the rules of calculus, in ordinary arithmetic: that of a sum is
/// the sum, that of a difference the difference, that of a product `u'v + uv'`, that of
/// a negation the negation; a variable has derivative one with respect to itself and
/// zero to others, a constant zero. Rounding down counts as constant. The derivative of
/// a square root is that of its operand times a half over the root.
pub proof fn derivatives_follow_the_rules_of_calculus(
    alg: Algebra,
    t: Term,
    v: u8,
    inputs: spec_fn(u8) -> int,
)
    requires
        alg.ordinary(),
    ensures
        t.head matches Head::Var(i) ==> alg.slope(t, v, inputs) == if i == v {
            1int
        } else {
            0int
        },
        t.head is Const ==> alg.slope(t, v, inputs) == 0,
        t.head == Head::Unary(OpKind::Neg) && t.kids.len() == 1 ==> alg.slope(t, v, inputs)
            == -alg.slope(t.kids[0], v, inputs),
        t.head == Head::Unary(OpKind::Floor) ==> alg.slope(t, v, inputs) == 0,
        t.head == Head::Unary(OpKind::Sqrt) && t.kids.len() == 1 ==> alg.slope(t, v, inputs)
            == alg.slope(t.kids[0], v, inputs) * (alg.binary)(
            OpKind::Div,
            (alg.constant)(0x3F000000),
            (alg.unary)(OpKind::Sqrt, alg.value(t.kids[0], inputs)),
        ),
        t.head == Head::Binary(OpKind::Add) && t.kids.len() == 2 ==> alg.slope(t, v, inputs)
            == alg.slope(t.kids[0], v, inputs) + alg.slope(t.kids[1], v, inputs),
        t.head == Head::Binary(OpKind::Sub) && t.kids.len() == 2 ==> alg.slope(t, v, inputs)
            == alg.slope(t.kids[0], v, inputs) - alg.slope(t.kids[1], v, inputs),
        t.head == Head::Binary(OpKind::Mul) && t.kids.len() == 2 ==> alg.slope(t, v, inputs)
            == alg.slope(t.kids[0], v, inputs) * alg.value(t.kids[1], inputs) + alg.value(
            t.kids[0],
            inputs,
        ) * alg.slope(t.kids[1], v, inputs),
{
    assert forall|a: int| #[trigger] (0 * a) == 0 && a * 0 == 0 by {}
}

/// An expression of variables, constants, negations, sums, differences and products.
pub open spec fn polynomial(t: Term) -> bool
    decreases t,
{
    match t.head {
        Head::Var(_) | Head::Const(_) => true,
        Head::Unary(op) => op is Neg && t.kids.len() == 1 && polynomial(t.kids[0]),
        Head::Binary(op) => (op is Add || op is Sub || op is Mul) && t.kids.len() == 2
            && polynomial(t.kids[0]) && polynomial(t.kids[1]),
        _ => false,
    }
}

/// The inputs with variable `v` moved by `h`.
pub open spec fn moved(inputs: spec_fn(u8) -> int, v: u8, h: int) -> spec_fn(u8) -> int {
    |i: u8|
        if i == v {
            inputs(i) + h
        } else {
            inputs(i)
        }
}

proof fn lemma_product_expands(h: int, a: int, da: int, qa: int, b: int, db: int, qb: int) -> (q: int)
    ensures
        (a + h * da + h * h * qa) * (b + h * db + h * h * qb) == a * b + h * (da * b + a * db) + h
            * h * q,
{
    let u = da + h * qa;
    let w = db + h * qb;
    let q = u * w + qa * b + a * qb;
    assert(a + h * da + h * h * qa == a + h * u) by (nonlinear_arith)
        requires
            u == da + h * qa,
    ;
    assert(b + h * db + h * h * qb == b + h * w) by (nonlinear_arith)
        requires
            w == db + h * qb,
    ;
    let x = h * u;
    let y = h * w;
    assert((a + x) * (b + y) == a * b + x * b + a * y + x * y) by (nonlinear_arith);
    assert(x * b == h * (u * b)) by (nonlinear_arith)
        requires
            x == h * u,
    ;
    assert(a * y == h * (a * w)) by (nonlinear_arith)
        requires
            y == h * w,
    ;
    assert(x * y == h * h * (u * w)) by (nonlinear_arith)
        requires
            x == h * u,
            y == h * w,
    ;
    assert(h * (u * b) + h * (a * w) == h * (u * b + a * w)) by (nonlinear_arith);
    assert(u * b + a * w == (da * b + a * db) + h * (qa * b + a * qb)) by (nonlinear_arith)
        requires
            u == da + h * qa,
            w == db + h * qb,
    ;
    let s = da * b + a * db;
    let r = qa * b + a * qb;
    let p = u * w;
    assert(h * (s + h * r) + h * h * p == h * s + h * h * (p + r)) by (nonlinear_arith);
    q
}

proof fn lemma_expansion(alg: Algebra, t: Term, v: u8, inputs: spec_fn(u8) -> int, h: int) -> (q: int)
    requires
        alg.ordinary(),
        polynomial(t),
    ensures
        alg.value(t, moved(inputs, v, h)) == alg.value(t, inputs) + h * alg.slope(t, v, inputs) + h
            * h * q,
    decreases t,
{
    derivatives_follow_the_rules_of_calculus(alg, t, v, inputs);
    let d = alg.slope(t, v, inputs);
    match t.head {
        Head::Var(i) => {
            assert(h * d == if i == v {
                h
            } else {
                0int
            }) by (nonlinear_arith)
                requires
                    d == if i == v {
                        1int
                    } else {
                        0int
                    },
            ;
            assert(h * h * 0 == 0);
            0
        },
        Head::Unary(_) => {
            let q = lemma_expansion(alg, t.kids[0], v, inputs, h);
            let k = alg.slope(t.kids[0], v, inputs);
            assert(h * -k == -(h * k) && h * h * -q == -(h * h * q)) by (nonlinear_arith);
            -q
        },
        Head::Binary(op) => {
            let qa = lemma_expansion(alg, t.kids[0], v, inputs, h);
            let qb = lemma_expansion(alg, t.kids[1], v, inputs, h);
            let a = alg.value(t.kids[0], inputs);
            let b = alg.value(t.kids[1], inputs);
            let da = alg.slope(t.kids[0], v, inputs);
            let db = alg.slope(t.kids[1], v, inputs);
            match op {
                OpKind::Add => {
                    assert(h * (da + db) == h * da + h * db && h * h * (qa + qb) == h * h * qa + h
                        * h * qb) by (nonlinear_arith);
                    qa + qb
                },
                OpKind::Sub => {
                    assert(h * (da - db) == h * da - h * db && h * h * (qa - qb) == h * h * qa - h
                        * h * qb) by (nonlinear_arith);
                    qa - qb
                },
                _ => lemma_product_expands(h, a, da, qa, b, db, qb),
            }
        },
        _ => {
            assert(h * 0 == 0 && h * h * 0 == 0);
            0
        },
    }
}

/// The derivative of an expression is its rate of change: moving variable `v` by `h`
/// changes the value by `h` times the derivative, up to a multiple of `h * h`.
pub proof fn derivatives_are_rates_of_change(
    alg: Algebra,
    t: Term,
    v: u8,
    inputs: spec_fn(u8) -> int,
    h: int,
)
    requires
        alg.ordinary(),
        polynomial(t),
    ensures
        exists|q: int|
            alg.value(t, moved(inputs, v, h)) == alg.value(t, inputs) + h * alg.slope(t, v, inputs)
                + #[trigger] (h * h * q),
{
    let q = lemma_expansion(alg, t, v, inputs, h);
    assert(alg.value(t, moved(inputs, v, h)) == alg.value(t, inputs) + h * alg.slope(t, v, inputs)
        + h * h * q);
}

/// A partial as a number, in a machine.
pub open spec fn partial_value(m: Machine, p: Partial) -> int {
    match p {
        Partial::Zero => 0,
        Partial::Reg(r) => m.regs[r],
    }
}

/// What the code of a jet leaves in its registers is the value of the expression and its
/// rates of change: at inputs of which one is moved by `h`, the value is the one computed
/// plus `h` times the partial computed, up to a multiple of `h * h`.
pub proof fn jets_hold_rates_of_change(
    alg: Algebra,
    m: Machine,
    t: Term,
    seed: Seq<u8>,
    inputs: spec_fn(u8) -> int,
    j: int,
    h: int,
)
    requires
        alg.ordinary(),
        polynomial(t),
        inputs_in(m, inputs),
        jet_of(t, seed, fresh()) is Done,
        0 <= j < seed.len(),
    ensures
        ({
            let (jet, after) = jet_of(t, seed, fresh())->Done_0;
            let end = alg.insts(m, after.insts);
            &&& end.regs[jet.val] == alg.value(t, inputs)
            &&& exists|q: int|
                alg.value(t, moved(inputs, seed[j], h)) == end.regs[jet.val] + h * partial_value(
                    end,
                    jet.partials[j],
                ) + #[trigger] (h * h * q)
        }),
{
    jet_kernels_differentiate(alg, m, t, seed, inputs);
    let (jet, after) = jet_of(t, seed, fresh())->Done_0;
    let end = alg.insts(m, after.insts);
    assert(jet_holds(alg, end, jet, t, seed, inputs));
    assert(holds(end, jet.partials[j], alg.derivative(t, seed[j], inputs)));
    assert(partial_value(end, jet.partials[j]) == alg.slope(t, seed[j], inputs));
    derivatives_are_rates_of_change(alg, t, seed[j], inputs, h);
}

} // verus!
