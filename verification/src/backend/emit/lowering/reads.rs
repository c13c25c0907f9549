//! What lowered buffer reads and folds compute.

use crate::arena::model::{Head, Term};
use crate::arena::{BufferDecl, BufferId};
use crate::backend::emit::lowering::exact::{at, exact, float, lemma_steps, power, Exact, World};
use crate::backend::emit::lowering::runner::{program_term, step_terms};
use crate::backend::emit::lowering::{
    bind_head, bind_mean, fold_sum, gather_steps, last_index, lemma_gather_ok, lower_head, Pass,
};
use crate::fold::{Fold, Monoid};
use crate::kind::OpKind;
use crate::number::{
    float_bits, high_bit, lemma_high_bit, lemma_small_powers, lemma_two_to_grows, lemma_two_to_sum,
    two_to,
};
use vstd::prelude::*;

verus! {

proof fn lemma_product_cast(a: int, b: int)
    ensures
        (a as real) * (b as real) == (a * b) as real,
{
    assert((a as real) * (b as real) == (a * b) as real) by (nonlinear_arith);
}

/// The bits of a whole number up to two to the 24th stand for that number.
pub proof fn whole_numbers_have_bits(n: u32)
    requires
        n <= 0x100_0000,
    ensures
        float(float_bits(n)) == n as real,
{
    lemma_small_powers();
    if n > 0 {
        let e = high_bit(n as nat);
        lemma_high_bit(n as nat);
        if e >= 25 {
            lemma_two_to_grows(25, e);
            assert(two_to(25) == 2 * two_to(24));
        }
        if e <= 23 {
            let k = (23 - e) as nat;
            let s = two_to(k) as int;
            lemma_two_to_sum(e, k);
            lemma_two_to_sum((e + 1) as nat, k);
            lemma_two_to_grows(0, k);
            let lo = two_to(e) as int;
            let hi = two_to((e + 1) as nat) as int;
            let x = n as int;
            assert(lo * s <= x * s < hi * s) by (nonlinear_arith)
                requires
                    lo <= x < hi,
                    s >= 1,
            ;
            assert(hi * s == 0x100_0000);
            let f = x * s - 0x80_0000;
            assert(0 <= f < 0x80_0000);
            let bits = float_bits(n);
            assert(bits == (e + 127) * 0x80_0000 + f);
            assert(bits / 0x80_0000 == e + 127 && bits % 0x80_0000 == f);
            assert(bits % 0x8000_0000 == bits);
            lemma_product_cast(x, s);
            let r = s as real;
            let y = x as real;
            assert(power(e - 23) == if e == 23 {
                1 as real
            } else {
                (1 as real) / r
            });
            assert((y * r) * ((1 as real) / r) == y) by (nonlinear_arith)
                requires
                    r >= 1 as real,
            ;
            assert(s == 1 ==> r == 1 as real);
            assert(two_to(0) == 1);
            assert((x * s) as real == y * r);
            let p = power(e - 23);
            assert((y * r) * p == y) by {
                if e == 23 {
                    assert((y * r) * (1 as real) == y);
                }
            }
            assert(0x80_0000 + f == x * s);
            assert(float(bits) == ((x * s) as real) * p);
        } else {
            assert(e == 24);
            assert(n == 0x100_0000);
            assert(two_to(1) == 2 * two_to(0));
            assert(float_bits(n) == 151 * 0x80_0000);
            let bits = float_bits(n);
            assert(bits / 0x80_0000 == 151 && bits % 0x80_0000 == 0 && bits % 0x8000_0000 == bits);
            assert(power(1) == 2 as real);
            assert(float(bits) == (0x80_0000 as real) * power(1));
            assert((0x80_0000 as real) * (2 as real) == 0x100_0000 as real);
        }
    } else {
        assert(float_bits(0) == 0);
        assert((0 as real) * power(-149) == 0 as real);
    }
}

/// `i` held to the indices of `n` samples.
pub open spec fn nearest_index(i: int, n: int) -> int {
    if i < 0 {
        0
    } else if i >= n {
        n - 1
    } else {
        i
    }
}

/// A lowered buffer read gives the sample at its coordinates: with both rounded down, the
/// one at `y * width + x`; outside the buffer, the nearest sample of it.
pub proof fn lowered_reads_give_the_nearest_sample(
    b: BufferId,
    d: BufferDecl,
    kids: Seq<Term>,
    w: World,
)
    requires
        1 <= d.width <= 0x100_0000,
        1 <= d.height <= 0x100_0000,
        kids.len() == 3,
        kids[0].head == Head::Buffer(b, d),
    ensures
        exact(lower_head(Pass::Gathers, Head::Ternary(OpKind::Gather), kids), w) == Exact::Num(
            (w.sample)(
                b,
                nearest_index(exact(kids[2], w).num().floor(), d.height as int) * d.width
                    + nearest_index(exact(kids[1], w).num().floor(), d.width as int),
            ),
        ),
{
    let prog = gather_steps(d);
    let args = Seq::new(3, |i: int| exact(kids[i], w));
    lemma_gather_ok(d);
    lemma_steps(prog, kids, args, w, 10, 9);
    let prior = step_terms(prog, 10, kids);
    let t = program_term(prog, kids);
    assert(step_terms(prog, 11, kids) == prior.push(
        crate::backend::emit::lowering::runner::step_term(prog[10], kids, prior),
    ));
    assert(t.kids[0] == kids[0] && t.kids[1] == prior[9]);
    let x = args[1].num();
    let y = args[2].num();
    let wd = d.width as int;
    let ht = d.height as int;
    whole_numbers_have_bits(last_index(d.width));
    whole_numbers_have_bits(last_index(d.height));
    whole_numbers_have_bits(d.width);
    assert((0 as real) * power(-149) == 0 as real);
    assert(float(0) == 0 as real);
    assert(at(prog, args, 0).num() == 0 as real);
    assert(at(prog, args, 1).num() == (wd - 1) as real);
    assert(at(prog, args, 2).num() == (ht - 1) as real);
    assert(at(prog, args, 3).num() == wd as real);
    assert(at(prog, args, 4).num() == x.floor() as real);
    let i = nearest_index(x.floor(), wd);
    let j = nearest_index(y.floor(), ht);
    assert(at(prog, args, 5).num() == i as real);
    assert(at(prog, args, 6).num() == y.floor() as real);
    assert(at(prog, args, 7).num() == j as real);
    lemma_product_cast(j, wd);
    assert(at(prog, args, 8).num() == (j * wd) as real);
    assert(at(prog, args, 9).num() == (j * wd + i) as real);
    assert(((j * wd + i) as real).floor() == j * wd + i);
}

/// The world with a fold's index in place of its variable.
pub open spec fn indexed(w: World, v: u8, k: int) -> World {
    World {
        inputs: |i: u8|
            if i == v {
                Exact::Word(float_bits(k as u32))
            } else {
                (w.inputs)(i)
            },
        ..w
    }
}

/// An expression with a constant in place of a variable has the value of the expression
/// where the variable is the constant.
pub proof fn bound_expressions_are_expressions_at_the_constant(t: Term, v: u8, bits: u32, w: World)
    ensures
        exact(t.folded(bind_mean(v, bits)), w) == exact(
            t,
            (World {
                inputs: |i: u8|
                    if i == v {
                        Exact::Word(bits)
                    } else {
                        (w.inputs)(i)
                    },
                ..w
            }),
        ),
    decreases t,
{
    let f = bind_mean(v, bits);
    let kids = Term::folded_all(t.kids, f);
    let u = t.folded(f);
    assert(u == bind_head(v, bits, t.head, kids));
    assert forall|j: int| 0 <= j < t.kids.len() implies exact(#[trigger] kids[j], w) == exact(
        t.kids[j],
        (World {
            inputs: |i: u8|
                if i == v {
                    Exact::Word(bits)
                } else {
                    (w.inputs)(i)
                },
            ..w
        }),
    ) by {
        bound_expressions_are_expressions_at_the_constant(t.kids[j], v, bits, w);
    }
    if t.kids.len() == 2 {
        let k = t.kids[0];
        assert(kids[0] == bind_head(v, bits, k.head, Term::folded_all(k.kids, f)));
    }
    if !(t.head is Var) {
        assert(u.head == t.head && u.kids == kids);
        assert(u.kids.len() == t.kids.len());
        if t.kids.len() >= 1 {
            assert(u.kids[0] == kids[0]);
        }
        if t.kids.len() >= 2 {
            assert(u.kids[1] == kids[1]);
        }
        if t.kids.len() >= 3 {
            assert(u.kids[2] == kids[2]);
        }
    }
}

/// The sum of `f` from `a` up to `b`.
pub open spec fn sum_of(f: spec_fn(int) -> real, a: int, b: int) -> real
    decreases b - a,
{
    if a >= b {
        0 as real
    } else {
        f(a) + sum_of(f, a + 1, b)
    }
}

/// The product of `f` from `a` up to `b`.
pub open spec fn product_of(f: spec_fn(int) -> real, a: int, b: int) -> real
    decreases b - a,
{
    if a >= b {
        1 as real
    } else {
        f(a) * product_of(f, a + 1, b)
    }
}

proof fn lemma_fold_sum(fold: Fold, body: Term, from: int, w: World)
    requires
        0 <= from < fold.end,
    ensures
        ({
            let f = |k: int| exact(body, indexed(w, fold.binder.0, k)).num();
            let x = exact(fold_sum(fold, body, from), w).num();
            match fold.monoid {
                Monoid::Sum => x == sum_of(f, from, fold.end as int),
                Monoid::Product => x == product_of(f, from, fold.end as int),
                Monoid::Min => (exists|k: int| from <= k < fold.end && x == #[trigger] f(k))
                    && forall|k: int| from <= k < fold.end ==> x <= #[trigger] f(k),
                Monoid::Max => (exists|k: int| from <= k < fold.end && x == #[trigger] f(k))
                    && forall|k: int| from <= k < fold.end ==> x >= #[trigger] f(k),
            }
        }),
    decreases fold.end - from,
{
    let v = fold.binder.0;
    let end = fold.end as int;
    let f = |k: int| exact(body, indexed(w, v, k)).num();
    let here = body.folded(bind_mean(v, float_bits(from as u32)));
    bound_expressions_are_expressions_at_the_constant(body, v, float_bits(from as u32), w);
    assert(indexed(w, v, from).inputs =~= |i: u8|
        if i == v {
            Exact::Word(float_bits(from as u32))
        } else {
            (w.inputs)(i)
        });
    assert(exact(here, w).num() == f(from));
    if from < end - 1 {
        lemma_fold_sum(fold, body, from + 1, w);
        let rest = fold_sum(fold, body, from + 1);
        let t = fold_sum(fold, body, from);
        assert(t.kids[0] == here && t.kids[1] == rest);
        let x = exact(t, w).num();
        let y = exact(rest, w).num();
        if fold.monoid is Min {
            if f(from) <= y {
                assert(x == f(from));
            } else {
                let k = choose|k: int| from + 1 <= k < end && y == #[trigger] f(k);
                assert(x == f(k));
            }
        } else if fold.monoid is Max {
            if f(from) >= y {
                assert(x == f(from));
            } else {
                let k = choose|k: int| from + 1 <= k < end && y == #[trigger] f(k);
                assert(x == f(k));
            }
        }
    } else {
        assert(sum_of(f, end, end) == 0 as real && product_of(f, end, end) == 1 as real);
        assert(f(from) * (1 as real) == f(from));
        assert(exact(fold_sum(fold, body, from), w).num() == f(from));
    }
}

/// An unrolled fold accumulates its body over the range of its index: the sum, the
/// product, the least or the largest of what the body is at each index. Over an empty
/// range a sum is zero and a product one.
pub proof fn unrolled_folds_accumulate(fold: Fold, body: Term, w: World)
    ensures
        ({
            let f = |k: int| exact(body, indexed(w, fold.binder.0, k)).num();
            let x = exact(lower_head(Pass::Folds, Head::Reduce(fold), seq![body]), w).num();
            match fold.monoid {
                Monoid::Sum => x == sum_of(f, fold.start as int, fold.end as int),
                Monoid::Product => x == product_of(f, fold.start as int, fold.end as int),
                Monoid::Min => fold.start < fold.end ==> (exists|k: int|
                    fold.start <= k < fold.end && x == #[trigger] f(k)) && forall|k: int|
                    fold.start <= k < fold.end ==> x <= #[trigger] f(k),
                Monoid::Max => fold.start < fold.end ==> (exists|k: int|
                    fold.start <= k < fold.end && x == #[trigger] f(k)) && forall|k: int|
                    fold.start <= k < fold.end ==> x >= #[trigger] f(k),
            }
        }),
        forall|k: int|
            0 <= k <= u16::MAX ==> ((#[trigger] indexed(w, fold.binder.0, k)).inputs)(
                fold.binder.0,
            ).num() == k as real,
{
    if fold.start < fold.end {
        lemma_fold_sum(fold, body, fold.start as int, w);
    } else {
        assert((0 as real) * power(-149) == 0 as real);
        assert(float(0) == 0 as real);
        whole_numbers_have_bits(1);
        assert(high_bit(1) == 0);
        lemma_small_powers();
        assert(float_bits(1) == 127 * 0x80_0000);
    }
    assert forall|k: int| 0 <= k <= u16::MAX implies ((#[trigger] indexed(
        w,
        fold.binder.0,
        k,
    )).inputs)(fold.binder.0).num() == k as real by {
        whole_numbers_have_bits(k as u32);
    }
}

} // verus!
