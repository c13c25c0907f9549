//! How well the expansions of the inverse circular functions approximate them.

use crate::arena::model::{Head, Term};
use crate::backend::emit::lowering::accuracy::{
    gap, lemma_gap, lemma_powers, lemma_scaled_size, poly,
};
use crate::backend::emit::lowering::exact::{
    at, computes_only, exact, float, lemma_program, power, root_of, size, Exact, World,
};
use crate::backend::emit::lowering::programs::{atan2_steps, lemma_atan2_ok, Operand};
use crate::backend::emit::lowering::runner::{bin, cst, program_term};
use crate::backend::emit::lowering::stepping::{
    lemma_abs, lemma_add, lemma_arg, lemma_const, lemma_ge, lemma_gt, lemma_lt, lemma_mul,
    lemma_neg, lemma_recip, lemma_select, lemma_sub, nth,
};
use crate::backend::emit::lowering::trigonometry::lemma_poly4;
use crate::backend::emit::lowering::{cosine_term, lower_head, Pass};
use crate::kind::OpKind;
use vstd::prelude::*;

verus! {

/// The series of the arctangent of a number, divided by it, in its square `u`, from the
/// `k`-th term to the `n`-th: `1/(2k+1) - u * (1/(2k+3) - u * (...))`.
pub open spec fn arctan_series(u: real, k: nat, n: nat) -> real
    decreases n + 1 - k,
{
    if k > n {
        0 as real
    } else {
        (1 as real) / ((2 * k + 1) as real) - u * arctan_series(u, k + 1, n)
    }
}

/// `a` is the arctangent of `r`, which is at most one in size, by the series as far as its
/// `n`-th term, within an eighth, and within a part in 4000 for `r` of at most a half.
#[verifier::opaque]
pub open spec fn near_arctan(r: real, a: real, n: nat) -> bool {
    let s = r * arctan_series(r * r, 0, n);
    &&& size(r) <= 1 as real
    &&& (8 as real) * size(a - s) <= 1 as real
    &&& (2 as real) * size(r) <= 1 as real ==> (4000 as real) * size(a - s) <= 1 as real
}

/// `half` is half a turn.
pub open spec fn half_turn(half: real) -> bool {
    31415926 as real <= (10000000 as real) * half <= 31415928 as real
}

/// `v` is the angle of the point `x`, `y`: by the arctangent `a` of the smaller coordinate
/// divided by the larger one, and quarters of a turn, where half a turn is `half`.
#[verifier::opaque]
pub open spec fn angle_of(y: real, x: real, v: real, r: real, a: real, half: real) -> bool {
    if size(y) > size(x) {
        &&& r * y == x
        &&& v == if y > 0 as real {
            half / (2 as real) - a
        } else {
            -(half / (2 as real)) - a
        }
    } else {
        &&& r * x == y
        &&& v == if x >= 0 as real {
            a
        } else if y < 0 as real {
            a - half
        } else {
            a + half
        }
    }
}

proof fn lemma_arctan_rest(u: real, k: nat, n: nat)
    requires
        0 as real <= u <= 1 as real,
    ensures
        0 as real <= arctan_series(u, k, n),
        arctan_series(u, k, n) * ((2 * k + 1) as real) <= 1 as real,
    decreases n + 1 - k,
{
    if k <= n {
        lemma_arctan_rest(u, k + 1, n);
        let q = (2 * k + 1) as real;
        let s = arctan_series(u, k + 1, n);
        let o = (1 as real) / q;
        assert(o * q == 1 as real) by (nonlinear_arith)
            requires
                q >= 1 as real,
                o == (1 as real) / q,
        ;
        let q2 = (2 * (k + 1) + 1) as real;
        assert(q2 == q + (2 as real));
        assert(s <= o) by (nonlinear_arith)
            requires
                s * q2 <= 1 as real,
                q2 == q + (2 as real),
                q >= 1 as real,
                s >= 0 as real,
                o * q == 1 as real,
        ;
        assert(0 as real <= u * s <= s) by (nonlinear_arith)
            requires
                0 as real <= u <= 1 as real,
                0 as real <= s,
        ;
        let us = u * s;
        assert((o - us) * q <= 1 as real) by (nonlinear_arith)
            requires
                o * q == 1 as real,
                us >= 0 as real,
                q >= 1 as real,
        ;
    }
}

/// The first coefficients of the series, and what is left in place of the fifth.
spec fn arctan_terms(rest: real) -> Seq<real> {
    seq![
        1 as real,
        -((1 as real) / (3 as real)),
        (1 as real) / (5 as real),
        -((1 as real) / (7 as real)),
        rest,
    ]
}

proof fn lemma_arctan_terms(u: real, n: nat)
    requires
        n >= 4,
    ensures
        poly(arctan_terms(arctan_series(u, 4, n)), u, 0) == arctan_series(u, 0, n),
{
    let s4 = arctan_series(u, 4, n);
    let s3 = arctan_series(u, 3, n);
    let s2 = arctan_series(u, 2, n);
    let s1 = arctan_series(u, 1, n);
    assert((2 * 3nat + 1) as real == 7 as real && (2 * 2nat + 1) as real == 5 as real && (2 * 1nat
        + 1) as real == 3 as real && (2 * 0nat + 1) as real == 1 as real);
    assert(s3 == (1 as real) / (7 as real) - u * s4);
    assert(s2 == (1 as real) / (5 as real) - u * s3);
    assert(s1 == (1 as real) / (3 as real) - u * s2);
    assert(arctan_series(u, 0, n) == (1 as real) - u * s1);
    let c = arctan_terms(s4);
    reveal_with_fuel(poly, 6);
    assert(u * (0 as real) == 0 as real);
    assert(poly(c, u, 4) == s4);
    assert(poly(c, u, 3) == -s3);
    assert(u * (-s3) == -(u * s3)) by (nonlinear_arith);
    assert(poly(c, u, 2) == s2);
    assert(poly(c, u, 1) == -s1);
    assert(u * (-s1) == -(u * s1)) by (nonlinear_arith);
}

/// The coefficients of the expansion of `Atan2`.
spec fn arctan_constants() -> Seq<real> {
    seq![float(0x3F80_0000), float(0xBEAA_AAAB), float(0x3E4C_CCCD), float(0xBE12_4924)]
}

proof fn lemma_arctan_constants()
    ensures
        float(0x3F80_0000) == 1 as real,
        float(0xBEAA_AAAB) == -((11184811 as real) / (0x200_0000 as real)),
        float(0x3E4C_CCCD) == (13421773 as real) / (0x400_0000 as real),
        float(0xBE12_4924) == -((9586980 as real) / (0x400_0000 as real)),
        float(0) == 0 as real,
        31415926 as real <= (10000000 as real) * float(0x4049_0FDB) <= 31415928 as real,
        float(0x3FC9_0FDB) == float(0x4049_0FDB) / (2 as real),
{
    lemma_powers();
    assert(float(0x3F80_0000) == (0x80_0000 as real) * power(-23));
    assert(float(0xBEAA_AAAB) == -((11184811 as real) * power(-25)));
    assert(float(0x3E4C_CCCD) == (13421773 as real) * power(-26));
    assert(float(0xBE12_4924) == -((9586980 as real) * power(-26)));
    assert(float(0x4049_0FDB) == (13176795 as real) * power(-22));
    assert(float(0x3FC9_0FDB) == (13176795 as real) * power(-23));
    assert(float(0) == (0 as real) * power(-149));
}

/// The coefficients of the expansion are those of the series of the arctangent.
proof fn lemma_arctan_close(u: real, n: nat)
    requires
        0 as real <= u <= 1 as real,
        n >= 4,
    ensures
        size(poly(arctan_constants(), u, 0) - arctan_series(u, 0, n)) * (8 as real) <= 1 as real,
        (4 as real) * u <= 1 as real ==> size(
            poly(arctan_constants(), u, 0) - arctan_series(u, 0, n),
        ) * (2000 as real) <= 1 as real,
{
    lemma_arctan_rest(u, 4, n);
    lemma_arctan_terms(u, n);
    let s4 = arctan_series(u, 4, n);
    assert((2 * 4nat + 1) as real == 9 as real);
    assert(s4 * (9 as real) <= 1 as real);
    let e = arctan_terms(s4);
    let d = arctan_constants();
    let d5 = d.push(0 as real);
    assert(poly(d5, u, 0) == poly(d, u, 0)) by {
        reveal_with_fuel(poly, 6);
        assert(u * (0 as real) == 0 as real);
    }
    lemma_arctan_constants();
    lemma_gap(d5, e, u, 1 as real, 0);
    reveal_with_fuel(gap, 6);
    if (4 as real) * u <= 1 as real {
        lemma_gap(d5, e, u, (1 as real) / (4 as real), 0);
    }
}

proof fn lemma_near_arctan(r: real, n: nat)
    requires
        size(r) <= 1 as real,
        n >= 4,
    ensures
        near_arctan(r, r * poly(arctan_constants(), r * r, 0), n),
{
    reveal(near_arctan);
    let u = r * r;
    assert(0 as real <= r * r <= 1 as real) by (nonlinear_arith)
        requires
            -(1 as real) <= r <= 1 as real,
    ;
    if (2 as real) * size(r) <= 1 as real {
        assert((4 as real) * (r * r) <= 1 as real) by (nonlinear_arith)
            requires
                -(1 as real) <= (2 as real) * r <= 1 as real,
        ;
    }
    lemma_arctan_close(u, n);
    let f = poly(arctan_constants(), u, 0);
    let s = arctan_series(u, 0, n);
    assert(r * f - r * s == r * (f - s)) by (nonlinear_arith);
    lemma_scaled_size(r, f - s, 1 as real, (1 as real) / (8 as real));
    if (2 as real) * size(r) <= 1 as real {
        lemma_scaled_size(r, f - s, (1 as real) / (2 as real), (1 as real) / (2000 as real));
    }
}

/// A number times the inverse of another is their ratio.
proof fn lemma_ratio(x: real, y: real)
    requires
        y != 0 as real,
        size(x) <= size(y),
    ensures
        (x * ((1 as real) / y)) * y == x,
        size(x * ((1 as real) / y)) <= 1 as real,
        x > 0 as real && y > 0 as real ==> x * ((1 as real) / y) > 0 as real,
        x > 0 as real && y < 0 as real ==> x * ((1 as real) / y) < 0 as real,
        x < 0 as real && y > 0 as real ==> x * ((1 as real) / y) < 0 as real,
        x < 0 as real && y < 0 as real ==> x * ((1 as real) / y) > 0 as real,
        x == 0 as real ==> x * ((1 as real) / y) == 0 as real,
{
    let q = (1 as real) / y;
    assert(q * y == 1 as real) by (nonlinear_arith)
        requires
            y != 0 as real,
            q == (1 as real) / y,
    ;
    assert((x * q) * y == x * (q * y)) by (nonlinear_arith);
    let r = x * q;
    assert(r <= 1 as real && -r <= 1 as real) by (nonlinear_arith)
        requires
            r * y == x,
            y != 0 as real,
            -size(y) <= x <= size(y),
            size(y) == y || size(y) == -y,
            size(y) >= 0 as real,
    ;
    assert(x > 0 as real && y > 0 as real ==> r > 0 as real) by (nonlinear_arith)
        requires
            r * y == x,
    ;
    assert(x > 0 as real && y < 0 as real ==> r < 0 as real) by (nonlinear_arith)
        requires
            r * y == x,
    ;
    assert(x < 0 as real && y > 0 as real ==> r < 0 as real) by (nonlinear_arith)
        requires
            r * y == x,
    ;
    assert(x < 0 as real && y < 0 as real ==> r > 0 as real) by (nonlinear_arith)
        requires
            r * y == x,
    ;
    assert((0 as real) * q == 0 as real);
}

/// The value of the expansion of `Atan2`.
proof fn lemma_atan2_value(b: Exact, a: Exact) -> (r: (real, real))
    requires
        a.num() != 0 as real || b.num() > 0 as real,
    ensures
        size(r.0) <= 1 as real,
        r.1 == r.0 * poly(arctan_constants(), r.0 * r.0, 0),
        angle_of(
            b.num(),
            a.num(),
            at(atan2_steps(), seq![b, a], 33).num(),
            r.0,
            r.1,
            float(0x4049_0FDB),
        ),
{
    reveal(atan2_steps);
    let p = atan2_steps();
    let args = seq![b, a];
    let y = b.num();
    let x = a.num();
    assert(float(0) == 0 as real && float(0x3FC9_0FDB) == float(0x4049_0FDB) / (2 as real)) by {
        lemma_arctan_constants();
    }
    lemma_arg(p, args, 0);
    lemma_arg(p, args, 1);
    lemma_const(p, args, 0, 0x40490FDB);
    lemma_const(p, args, 1, 0x3FC90FDB);
    lemma_const(p, args, 2, 0x00000000);
    lemma_abs(p, args, 3, Operand::Arg(1));
    lemma_abs(p, args, 4, Operand::Arg(0));
    lemma_gt(p, args, 5, Operand::Step(4), Operand::Step(3));
    lemma_recip(p, args, 6, Operand::Arg(0));
    lemma_recip(p, args, 7, Operand::Arg(1));
    lemma_mul(p, args, 8, Operand::Arg(1), Operand::Step(6));
    lemma_mul(p, args, 9, Operand::Arg(0), Operand::Step(7));
    lemma_select(p, args, 10, Operand::Step(5), Operand::Step(8), Operand::Step(9));
    lemma_mul(p, args, 11, Operand::Step(10), Operand::Step(10));
    lemma_const(p, args, 12, 0x3F800000);
    lemma_const(p, args, 13, 0xBEAAAAAB);
    lemma_const(p, args, 14, 0x3E4CCCCD);
    lemma_const(p, args, 15, 0xBE124924);
    lemma_mul(p, args, 16, Operand::Step(15), Operand::Step(11));
    lemma_add(p, args, 17, Operand::Step(16), Operand::Step(14));
    lemma_mul(p, args, 18, Operand::Step(17), Operand::Step(11));
    lemma_add(p, args, 19, Operand::Step(18), Operand::Step(13));
    lemma_mul(p, args, 20, Operand::Step(19), Operand::Step(11));
    lemma_add(p, args, 21, Operand::Step(20), Operand::Step(12));
    lemma_mul(p, args, 22, Operand::Step(10), Operand::Step(21));
    lemma_ge(p, args, 23, Operand::Step(10), Operand::Step(2));
    lemma_neg(p, args, 24, Operand::Step(1));
    lemma_select(p, args, 25, Operand::Step(23), Operand::Step(1), Operand::Step(24));
    lemma_sub(p, args, 26, Operand::Step(25), Operand::Step(22));
    lemma_select(p, args, 27, Operand::Step(5), Operand::Step(26), Operand::Step(22));
    lemma_lt(p, args, 28, Operand::Arg(1), Operand::Step(2));
    lemma_lt(p, args, 29, Operand::Arg(0), Operand::Step(2));
    lemma_neg(p, args, 30, Operand::Step(0));
    lemma_select(p, args, 31, Operand::Step(29), Operand::Step(30), Operand::Step(0));
    lemma_add(p, args, 32, Operand::Step(27), Operand::Step(31));
    lemma_select(p, args, 33, Operand::Step(28), Operand::Step(32), Operand::Step(27));
    let w = |k: usize| nth(p, args, Operand::Step(k)).num();
    let r = w(10);
    if size(y) > size(x) {
        lemma_ratio(x, y);
        assert(r == x * ((1 as real) / y));
    } else {
        lemma_ratio(y, x);
        assert(r == y * ((1 as real) / x));
    }
    lemma_poly4(arctan_constants(), r * r);
    let v = w(22);
    assert(v == r * poly(arctan_constants(), r * r, 0));
    assert(at(p, args, 33) == nth(p, args, Operand::Step(33))) by {
        reveal(nth);
    }
    let half = float(0x4049_0FDB);
    assert(angle_of(y, x, w(33), r, v, half)) by {
        reveal(angle_of);
    }
    (r, v)
}

proof fn lemma_atan2_program(s: Term, t: Term, w: World, n: nat) -> (r: (real, real, real))
    requires
        exact(t, w).num() != 0 as real || exact(s, w).num() > 0 as real,
        n >= 4,
    ensures
        near_arctan(r.0, r.1, n),
        half_turn(r.2),
        angle_of(
            exact(s, w).num(),
            exact(t, w).num(),
            exact(program_term(atan2_steps(), seq![s, t]), w).num(),
            r.0,
            r.1,
            r.2,
        ),
{
    lemma_atan2_ok();
    assert(computes_only(atan2_steps())) by {
        reveal(atan2_steps);
    }
    let b = exact(s, w);
    let a = exact(t, w);
    lemma_program(atan2_steps(), seq![s, t], seq![b, a], w);
    let r = lemma_atan2_value(b, a);
    lemma_near_arctan(r.0, n);
    lemma_arctan_constants();
    (r.0, r.1, float(0x4049_0FDB))
}

/// The expansion of `Atan2` is the angle of the point that its operands give, `y` before `x`,
/// but for the origin and the points straight below it.
pub proof fn atan2_expansion_is_the_angle(s: Term, t: Term, w: World, n: nat)
    requires
        exact(t, w).num() != 0 as real || exact(s, w).num() > 0 as real,
        n >= 4,
    ensures
        exists|r: real, a: real, half: real|
            #![trigger near_arctan(r, a, n), half_turn(half)]
            near_arctan(r, a, n) && half_turn(half) && angle_of(
                exact(s, w).num(),
                exact(t, w).num(),
                exact(
                    lower_head(Pass::Transcendentals, Head::Binary(OpKind::Atan2), seq![s, t]),
                    w,
                ).num(),
                r,
                a,
                half,
            ),
{
    let r = lemma_atan2_program(s, t, w, n);
}

/// The expansion of `Atan` is the angle of the point at one from the axis and the operand
/// above it.
pub proof fn atan_expansion_is_the_arctangent(t: Term, w: World, n: nat)
    requires
        n >= 4,
    ensures
        exists|r: real, a: real, half: real|
            #![trigger near_arctan(r, a, n), half_turn(half)]
            near_arctan(r, a, n) && half_turn(half) && angle_of(
                exact(t, w).num(),
                1 as real,
                exact(lower_head(Pass::Transcendentals, Head::Unary(OpKind::Atan), seq![t]), w).num(),
                r,
                a,
                half,
            ),
{
    lemma_arctan_constants();
    assert(exact(cst(0x3F80_0000), w).num() == 1 as real);
    let r = lemma_atan2_program(t, cst(0x3F80_0000), w, n);
}

/// The other side of the triangle: the square root of one less the square.
proof fn lemma_other_side(t: Term, w: World, c: real)
    requires
        root_of((1 as real) - exact(t, w).num() * exact(t, w).num(), c),
    ensures
        exact(cosine_term(t), w).num() == c,
{
    lemma_arctan_constants();
    let x = exact(t, w).num();
    let m = bin(OpKind::Mul, t, t);
    let d = bin(OpKind::Sub, cst(0x3F80_0000), m);
    let q = cosine_term(t);
    assert(m.kids[0] == t && m.kids[1] == t);
    assert(d.kids[0] == cst(0x3F80_0000) && d.kids[1] == m);
    assert(q.kids[0] == d);
    assert(exact(cst(0x3F80_0000), w).num() == 1 as real);
    assert(exact(m, w) == Exact::Num(x * x));
    assert(exact(d, w) == Exact::Num((1 as real) - x * x));
    let z = (1 as real) - x * x;
    let o = choose|r: real| #[trigger] root_of(z, r);
    assert(exact(q, w) == Exact::Num(o));
    assert(o == c) by (nonlinear_arith)
        requires
            o >= 0 as real,
            c >= 0 as real,
            o * o == c * c,
    ;
}

/// The expansion of `Asin` is the angle whose sine is the operand: that of the point with the
/// operand above the axis on the circle around the origin, right of it.
pub proof fn asin_expansion_is_the_angle_of_the_sine(t: Term, w: World, c: real, n: nat)
    requires
        root_of((1 as real) - exact(t, w).num() * exact(t, w).num(), c),
        c > 0 as real || exact(t, w).num() > 0 as real,
        n >= 4,
    ensures
        exists|r: real, a: real, half: real|
            #![trigger near_arctan(r, a, n), half_turn(half)]
            near_arctan(r, a, n) && half_turn(half) && angle_of(
                exact(t, w).num(),
                c,
                exact(lower_head(Pass::Transcendentals, Head::Unary(OpKind::Asin), seq![t]), w).num(),
                r,
                a,
                half,
            ),
{
    lemma_other_side(t, w, c);
    let r = lemma_atan2_program(t, cosine_term(t), w, n);
}

/// The expansion of `Acos` is the angle whose cosine is the operand: that of the point with the
/// operand right of the origin on the circle around it, not below the axis.
pub proof fn acos_expansion_is_the_angle_of_the_cosine(t: Term, w: World, c: real, n: nat)
    requires
        root_of((1 as real) - exact(t, w).num() * exact(t, w).num(), c),
        n >= 4,
    ensures
        exists|r: real, a: real, half: real|
            #![trigger near_arctan(r, a, n), half_turn(half)]
            near_arctan(r, a, n) && half_turn(half) && angle_of(
                c,
                exact(t, w).num(),
                exact(lower_head(Pass::Transcendentals, Head::Unary(OpKind::Acos), seq![t]), w).num(),
                r,
                a,
                half,
            ),
{
    let x = exact(t, w).num();
    if x == 0 as real && c == 0 as real {
        assert((0 as real) * (0 as real) == 0 as real);
    }
    lemma_other_side(t, w, c);
    let r = lemma_atan2_program(cosine_term(t), t, w, n);
}

} // verus!
