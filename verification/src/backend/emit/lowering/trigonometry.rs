//! How well the expansions of the circular functions approximate them.

use crate::arena::model::{Head, Term};
use crate::backend::emit::lowering::accuracy::{
    gap, lemma_gap, lemma_powers, lemma_scaled_size, poly,
};
use crate::backend::emit::lowering::exact::{
    at, computes_only, exact, float, lemma_program, power, size, Exact, World,
};
use crate::backend::emit::lowering::programs::{lemma_sin_ok, sin_steps, Operand};
use crate::backend::emit::lowering::runner::{bin, cst, program_term};
use crate::backend::emit::lowering::stepping::{
    lemma_add, lemma_arg, lemma_const, lemma_floor, lemma_mul, lemma_sub, nth,
};
use crate::backend::emit::lowering::{lower_head, Pass};
use crate::kind::OpKind;
use vstd::prelude::*;

verus! {

/// The series of the sine of `y`, divided by `y`, in `u`, the square of `y`, as far as its
/// `n`-th term, without the terms before the `k`-th and divided by that one:
/// `1 - u/((2k+2)(2k+3)) * (1 - u/((2k+4)(2k+5)) * (...))`.
pub open spec fn sine_series(u: real, k: nat, n: nat) -> real
    decreases n - k,
{
    if k >= n {
        1 as real
    } else {
        (1 as real) - (u / (((2 * k + 2) * (2 * k + 3)) as real)) * sine_series(u, k + 1, n)
    }
}

/// `y` is `x` less `k` turns.
#[verifier::opaque]
pub open spec fn reduced(x: real, y: real, k: int, turn: real) -> bool {
    &&& (62831853 as real) / (10000000 as real) <= turn <= (62831855 as real) / (10000000 as real)
    &&& y == x - (k as real) * turn
}

/// `v` is the sine of `y`, by the series as far as its `n`-th term, within a twelfth, and
/// within a part in 5000 less than a quarter turn from zero.
#[verifier::opaque]
pub open spec fn near_sine(y: real, v: real, n: nat) -> bool {
    let s = y * sine_series(y * y, 0, n);
    &&& (7 as real) * size(y) <= 22 as real
    &&& (12 as real) * size(v - s) <= 1 as real
    &&& (7 as real) * size(y) <= 11 as real ==> (5000 as real) * size(v - s) <= 1 as real
}

/// What is left of the series after its fourth term.
proof fn lemma_sine_rest(u: real, k: nat, n: nat)
    requires
        0 as real <= u <= 10 as real,
        k >= 1,
    ensures
        0 as real <= sine_series(u, k, n) <= 1 as real,
    decreases n - k,
{
    if k < n {
        lemma_sine_rest(u, k + 1, n);
        let d: nat = (2 * k + 2) * (2 * k + 3);
        assert(d >= 20) by (nonlinear_arith)
            requires
                d == (2 * k + 2) * (2 * k + 3),
                k >= 1,
        ;
        let q = d as real;
        let s = sine_series(u, k + 1, n);
        assert(0 as real <= u / q <= 1 as real) by (nonlinear_arith)
            requires
                q >= 20 as real,
                0 as real <= u <= 10 as real,
        ;
        let v = u / q;
        assert(0 as real <= v * s <= 1 as real) by (nonlinear_arith)
            requires
                0 as real <= v <= 1 as real,
                0 as real <= s <= 1 as real,
        ;
    }
}

/// The first coefficients of the series, and what is left in place of the fifth.
spec fn sine_terms(rest: real) -> Seq<real> {
    seq![
        1 as real,
        -((1 as real) / (6 as real)),
        (1 as real) / (120 as real),
        -((1 as real) / (5040 as real)),
        rest / (362880 as real),
    ]
}

/// One term of the series.
proof fn lemma_sine_term(u: real, k: nat, n: nat, d: int, q: real)
    requires
        k < n,
        d == (2 * k + 2) * (2 * k + 3),
        d > 0,
        q == d as real,
    ensures
        sine_series(u, k, n) * q == q - u * sine_series(u, k + 1, n),
{
    let s = sine_series(u, k + 1, n);
    let v = u / q;
    assert(v * q == u) by (nonlinear_arith)
        requires
            q > 0 as real,
            v == u / q,
    ;
    assert(sine_series(u, k, n) == (1 as real) - v * s);
    assert(((1 as real) - v * s) * q == q - (v * q) * s) by (nonlinear_arith);
}

proof fn lemma_sine_terms(u: real, n: nat)
    requires
        n >= 4,
    ensures
        poly(sine_terms(sine_series(u, 4, n)), u, 0) == sine_series(u, 0, n),
{
    let s4 = sine_series(u, 4, n);
    let s3 = sine_series(u, 3, n);
    let s2 = sine_series(u, 2, n);
    let s1 = sine_series(u, 1, n);
    assert((2 * 3nat + 2) * (2 * 3nat + 3) == 72 && (2 * 2nat + 2) * (2 * 2nat + 3) == 42 && (2 * 1nat
        + 2) * (2 * 1nat + 3) == 20) by (nonlinear_arith);
    lemma_sine_term(u, 3, n, 72, 72 as real);
    lemma_sine_term(u, 2, n, 42, 42 as real);
    lemma_sine_term(u, 1, n, 20, 20 as real);
    lemma_sine_term(u, 0, n, 6, 6 as real);
    let c = sine_terms(s4);
    reveal_with_fuel(poly, 6);
    assert(u * (0 as real) == 0 as real);
    let p4 = poly(c, u, 4);
    assert((362880 as real) * p4 == s4);
    assert((362880 as real) * (u * p4) == u * ((362880 as real) * p4)) by (nonlinear_arith);
    let p3 = poly(c, u, 3);
    assert((5040 as real) * p3 == -s3);
    assert((5040 as real) * (u * p3) == u * ((5040 as real) * p3)) by (nonlinear_arith);
    assert(u * (-s3) == -(u * s3)) by (nonlinear_arith);
    let p2 = poly(c, u, 2);
    assert((120 as real) * p2 == s2);
    assert((120 as real) * (u * p2) == u * ((120 as real) * p2)) by (nonlinear_arith);
    let p1 = poly(c, u, 1);
    assert((6 as real) * p1 == -s1);
    assert((6 as real) * (u * p1) == u * ((6 as real) * p1)) by (nonlinear_arith);
    assert(u * (-s1) == -(u * s1)) by (nonlinear_arith);
}

proof fn lemma_sin_constants()
    ensures
        float(0x3F00_0000) == (1 as real) / (2 as real),
        float(0x3EA2_F983) == (10680707 as real) / (0x200_0000 as real),
        float(0x3E22_F983) == (10680707 as real) / (0x400_0000 as real),
        float(0x40C9_0FDB) == (13176795 as real) / (0x20_0000 as real),
        float(0x4049_0FDB) == (13176795 as real) / (0x40_0000 as real),
        float(0xC0A5_5DE7) == -((10837479 as real) / (0x20_0000 as real)),
        float(0x4023_35E3) == (10696163 as real) / (0x40_0000 as real),
        float(0xBF19_6966) == -((10053990 as real) / (0x100_0000 as real)),
{
    lemma_powers();
    assert(float(0x3F00_0000) == (0x80_0000 as real) * power(-24));
    assert(float(0x3EA2_F983) == (10680707 as real) * power(-25));
    assert(float(0x3E22_F983) == (10680707 as real) * power(-26));
    assert(float(0x40C9_0FDB) == (13176795 as real) * power(-21));
    assert(float(0x4049_0FDB) == (13176795 as real) * power(-22));
    assert(float(0xC0A5_5DE7) == -((10837479 as real) * power(-21)));
    assert(float(0x4023_35E3) == (10696163 as real) * power(-22));
    assert(float(0xBF19_6966) == -((10053990 as real) * power(-24)));
}

/// `i` times the `k`-th power of `s`.
spec fn scale(i: real, s: real, k: nat) -> real
    decreases k,
{
    if k == 0 {
        i
    } else {
        scale(i, s, (k - 1) as nat) * s
    }
}

/// The coefficients of `i` times a polynomial of `s * u`, as one of `u`.
spec fn scaled(c: Seq<real>, i: real, s: real) -> Seq<real> {
    Seq::new(c.len(), |k: int| c[k] * scale(i, s, k as nat))
}

proof fn lemma_scaled(c: Seq<real>, i: real, s: real, u: real, k: nat)
    ensures
        poly(c, s * u, k) * scale(i, s, k) == poly(scaled(c, i, s), u, k),
    decreases c.len() - k,
{
    let p = scale(i, s, k);
    if k < c.len() {
        lemma_scaled(c, i, s, u, k + 1);
        let x = poly(c, s * u, k + 1);
        let y = s * u;
        let ck = c[k as int];
        assert((ck + y * x) * p == ck * p + (y * x) * p) by (nonlinear_arith);
        assert(((s * u) * x) * p == u * (x * (p * s))) by (nonlinear_arith);
        assert(scale(i, s, k + 1) == p * s);
    } else {
        assert((0 as real) * p == 0 as real);
    }
}

/// The coefficients of the expansion of `Sin`.
spec fn sin_constants() -> Seq<real> {
    seq![float(0x4049_0FDB), float(0xC0A5_5DE7), float(0x4023_35E3), float(0xBF19_6966)]
}

/// The coefficients of the expansion of `Sin`, in the square of the angle.
spec fn sin_coefficients() -> Seq<real> {
    scaled(sin_constants(), float(0x3EA2_F983), float(0x3EA2_F983) * float(0x3EA2_F983))
}

/// The value of a polynomial of degree three, step by step.
pub(crate) proof fn lemma_poly4(c: Seq<real>, x: real)
    requires
        c.len() == 4,
    ensures
        poly(c, x, 0) == ((c[3] * x + c[2]) * x + c[1]) * x + c[0],
{
    reveal_with_fuel(poly, 5);
    let c3 = c[3];
    let p2 = c[2] + x * c3;
    let p1 = c[1] + x * p2;
    assert(x * (0 as real) == 0 as real);
    assert(x * c3 == c3 * x) by (nonlinear_arith);
    assert(x * p2 == p2 * x) by (nonlinear_arith);
    assert(x * p1 == p1 * x) by (nonlinear_arith);
}

/// An odd polynomial of degree seven of `y * i`, step by step.
proof fn lemma_odd(c: Seq<real>, i: real, y: real, v: Seq<real>)
    requires
        c.len() == 4,
        v.len() == 9,
        v[0] == y * i,
        v[1] == v[0] * v[0],
        v[2] == c[3] * v[1],
        v[3] == v[2] + c[2],
        v[4] == v[3] * v[1],
        v[5] == v[4] + c[1],
        v[6] == v[5] * v[1],
        v[7] == v[6] + c[0],
        v[8] == v[0] * v[7],
    ensures
        v[8] == y * poly(scaled(c, i, i * i), y * y, 0),
{
    let s = i * i;
    let u = y * y;
    lemma_poly4(c, v[1]);
    assert((y * i) * (y * i) == (i * i) * (y * y)) by (nonlinear_arith);
    assert(v[7] == poly(c, s * u, 0));
    lemma_scaled(c, i, s, u, 0);
    let b = v[7];
    assert((y * i) * b == y * (b * i)) by (nonlinear_arith);
}

/// The value of the expansion of `Sin`: an odd polynomial of what is left of the angle less
/// whole turns.
proof fn lemma_sin_value(a: Exact) -> (y: real)
    ensures
        y == a.num() - ((a.num() * float(0x3E22_F983) + (1 as real) / (2 as real)).floor() as real)
            * float(0x40C9_0FDB),
        at(sin_steps(), seq![a], 21).num() == y * poly(sin_coefficients(), y * y, 0),
{
    reveal(sin_steps);
    assert(float(0x3F00_0000) == (1 as real) / (2 as real)) by {
        lemma_sin_constants();
    }
    let p = sin_steps();
    let args = seq![a];
    lemma_arg(p, args, 0);
    lemma_const(p, args, 0, 0x3E22F983);
    lemma_const(p, args, 1, 0x3F000000);
    lemma_mul(p, args, 2, Operand::Arg(0), Operand::Step(0));
    lemma_add(p, args, 3, Operand::Step(2), Operand::Step(1));
    lemma_floor(p, args, 4, Operand::Step(3));
    lemma_const(p, args, 5, 0x40C90FDB);
    lemma_mul(p, args, 6, Operand::Step(4), Operand::Step(5));
    lemma_sub(p, args, 7, Operand::Arg(0), Operand::Step(6));
    lemma_const(p, args, 8, 0x3EA2F983);
    lemma_mul(p, args, 9, Operand::Step(7), Operand::Step(8));
    lemma_mul(p, args, 10, Operand::Step(9), Operand::Step(9));
    lemma_const(p, args, 11, 0x40490FDB);
    lemma_const(p, args, 12, 0xC0A55DE7);
    lemma_const(p, args, 13, 0x402335E3);
    lemma_const(p, args, 14, 0xBF196966);
    lemma_mul(p, args, 15, Operand::Step(14), Operand::Step(10));
    lemma_add(p, args, 16, Operand::Step(15), Operand::Step(13));
    lemma_mul(p, args, 17, Operand::Step(16), Operand::Step(10));
    lemma_add(p, args, 18, Operand::Step(17), Operand::Step(12));
    lemma_mul(p, args, 19, Operand::Step(18), Operand::Step(10));
    lemma_add(p, args, 20, Operand::Step(19), Operand::Step(11));
    lemma_mul(p, args, 21, Operand::Step(9), Operand::Step(20));
    let w = |k: usize| nth(p, args, Operand::Step(k)).num();
    lemma_odd(
        sin_constants(),
        float(0x3EA2_F983),
        w(7),
        seq![w(9), w(10), w(15), w(16), w(17), w(18), w(19), w(20), w(21)],
    );
    assert(at(p, args, 21) == nth(p, args, Operand::Step(21))) by {
        reveal(nth);
    }
    w(7)
}

/// A product of two numbers, each between two bounds.
pub(crate) proof fn lemma_times(x: real, lo: real, hi: real, y: real, lo2: real, hi2: real)
    requires
        0 as real <= lo <= x <= hi,
        0 as real <= lo2 <= y <= hi2,
    ensures
        lo * lo2 <= x * y <= hi * hi2,
{
    assert(lo * lo2 <= x * lo2) by (nonlinear_arith)
        requires
            lo <= x,
            0 as real <= lo2,
    ;
    assert(x * lo2 <= x * y) by (nonlinear_arith)
        requires
            0 as real <= x,
            lo2 <= y,
    ;
    assert(x * y <= hi * y) by (nonlinear_arith)
        requires
            x <= hi,
            0 as real <= y,
    ;
    assert(hi * y <= hi * hi2) by (nonlinear_arith)
        requires
            0 as real <= hi,
            y <= hi2,
    ;
}

proof fn lemma_scales(i: real)
    requires
        (318309872 as real) / (1000000000 as real) <= i <= (318309875 as real) / (1000000000 as real),
    ensures
        (32251528 as real) / (1000000000 as real) <= scale(i, i * i, 1) <= (32251533 as real) / (1000000000 as real),
        (3267761 as real) / (1000000000 as real) <= scale(i, i * i, 2) <= (3267765 as real) / (1000000000 as real),
        (331092 as real) / (1000000000 as real) <= scale(i, i * i, 3) <= (331095 as real) / (1000000000 as real),
{
    let m = 1000000000 as real;
    assert(scale(i, i * i, 0) == i);
    lemma_times(i, (318309872 as real) / m, (318309875 as real) / m, i, (318309872 as real) / m, (318309875 as real) / m);
    assert((101321173 as real) / m <= i * i <= (101321178 as real) / m);
    let s = i * i;
    assert(scale(i, s, 1) == scale(i, s, 0) * s);
    lemma_times(scale(i, s, 0), (318309872 as real) / m, (318309875 as real) / m, s, (101321173 as real) / m, (101321178 as real) / m);
    assert((32251528 as real) / m <= scale(i, s, 1) <= (32251533 as real) / m);
    assert(scale(i, s, 2) == scale(i, s, 1) * s);
    lemma_times(scale(i, s, 1), (32251528 as real) / m, (32251533 as real) / m, s, (101321173 as real) / m, (101321178 as real) / m);
    assert((3267761 as real) / m <= scale(i, s, 2) <= (3267765 as real) / m);
    assert(scale(i, s, 3) == scale(i, s, 2) * s);
    lemma_times(scale(i, s, 2), (3267761 as real) / m, (3267765 as real) / m, s, (101321173 as real) / m, (101321178 as real) / m);
    assert((331092 as real) / m <= scale(i, s, 3) <= (331095 as real) / m);
}

proof fn lemma_products(c: Seq<real>, s0: real, s1: real, s2: real, s3: real)
    requires
        (3141592740 as real) / (1000000000 as real) <= c[0] <= (3141592743 as real) / (1000000000 as real),
        (5167712687 as real) / (1000000000 as real) <= -c[1] <= (5167712690 as real) / (1000000000 as real),
        (2550163983 as real) / (1000000000 as real) <= c[2] <= (2550163986 as real) / (1000000000 as real),
        (599264501 as real) / (1000000000 as real) <= -c[3] <= (599264504 as real) / (1000000000 as real),
        (318309872 as real) / (1000000000 as real) <= s0 <= (318309875 as real) / (1000000000 as real),
        (32251528 as real) / (1000000000 as real) <= s1 <= (32251533 as real) / (1000000000 as real),
        (3267761 as real) / (1000000000 as real) <= s2 <= (3267765 as real) / (1000000000 as real),
        (331092 as real) / (1000000000 as real) <= s3 <= (331095 as real) / (1000000000 as real),
    ensures
        (999999981 as real) / (1000000000 as real) <= c[0] * s0 <= (999999995 as real) / (1000000000 as real),
        (166666629 as real) / (1000000000 as real) <= -(c[1] * s1) <= (166666658 as real) / (1000000000 as real),
        (8333325 as real) / (1000000000 as real) <= c[2] * s2 <= (8333338 as real) / (1000000000 as real),
        (198410 as real) / (1000000000 as real) <= -(c[3] * s3) <= (198415 as real) / (1000000000 as real),
{
    let m = 1000000000 as real;
    lemma_times(c[0], (3141592740 as real) / m, (3141592743 as real) / m, s0, (318309872 as real) / m, (318309875 as real) / m);
    assert((999999981 as real) / m <= (c[0]) * s0 <= (999999995 as real) / m);
    lemma_times(-c[1], (5167712687 as real) / m, (5167712690 as real) / m, s1, (32251528 as real) / m, (32251533 as real) / m);
    assert((166666629 as real) / m <= (-c[1]) * s1 <= (166666658 as real) / m);
    lemma_negated(c[1], s1);
    lemma_times(c[2], (2550163983 as real) / m, (2550163986 as real) / m, s2, (3267761 as real) / m, (3267765 as real) / m);
    assert((8333325 as real) / m <= (c[2]) * s2 <= (8333338 as real) / m);
    lemma_times(-c[3], (599264501 as real) / m, (599264504 as real) / m, s3, (331092 as real) / m, (331095 as real) / m);
    assert((198410 as real) / m <= (-c[3]) * s3 <= (198415 as real) / m);
    lemma_negated(c[3], s3);
}

proof fn lemma_sin_coefficients(d: Seq<real>)
    requires
        d == sin_coefficients(),
    ensures
        (999999981 as real) / (1000000000 as real) <= d[0] <= (999999995 as real) / (1000000000 as real),
        (166666629 as real) / (1000000000 as real) <= -d[1] <= (166666658 as real) / (1000000000 as real),
        (8333325 as real) / (1000000000 as real) <= d[2] <= (8333338 as real) / (1000000000 as real),
        (198410 as real) / (1000000000 as real) <= -d[3] <= (198415 as real) / (1000000000 as real),
{
    lemma_sin_constants();
    let i = float(0x3EA2_F983);
    lemma_scales(i);
    lemma_products(
        sin_constants(),
        scale(i, i * i, 0),
        scale(i, i * i, 1),
        scale(i, i * i, 2),
        scale(i, i * i, 3),
    );
}

proof fn lemma_negated(x: real, y: real)
    ensures
        (-x) * y == -(x * y),
{
    assert((-x) * y == -(x * y)) by (nonlinear_arith);
}

/// The coefficients of the expansion are those of the series of the sine.
proof fn lemma_sin_close(u: real, n: nat)
    requires
        0 as real <= u,
        (49 as real) * u <= 484 as real,
        n >= 4,
    ensures
        size(poly(sin_coefficients(), u, 0) - sine_series(u, 0, n)) * (10000 as real) <= 263 as real,
        (49 as real) * u <= 121 as real ==> size(
            poly(sin_coefficients(), u, 0) - sine_series(u, 0, n),
        ) * (100000 as real) <= 11 as real,
{
    lemma_sine_rest(u, 4, n);
    lemma_sine_terms(u, n);
    let s4 = sine_series(u, 4, n);
    let e = sine_terms(s4);
    let d = sin_coefficients();
    let d5 = d.push(0 as real);
    assert(poly(d5, u, 0) == poly(d, u, 0)) by {
        reveal_with_fuel(poly, 6);
        assert(u * (0 as real) == 0 as real);
    }
    lemma_sin_coefficients(d);
    let r = (484 as real) / (49 as real);
    lemma_gap(d5, e, u, r, 0);
    reveal_with_fuel(gap, 6);
    assert(size(d5[4] - e[4]) * (362880 as real) <= 1 as real);
    if (49 as real) * u <= 121 as real {
        lemma_gap(d5, e, u, (121 as real) / (49 as real), 0);
    }
}

/// What is left of an angle less whole turns is at most half a turn, and what the inverse of a
/// turn is off by.
proof fn lemma_reduced(x: real, xi: real, k: real, kt: real)
    requires
        size(x) <= 100000 as real,
        xi == x * ((10680707 as real) / (0x400_0000 as real)),
        kt == k * ((13176795 as real) / (0x20_0000 as real)),
        k <= xi + (1 as real) / (2 as real) < k + (1 as real),
    ensures
        (7 as real) * size(x - kt) <= 22 as real,
{
}

proof fn lemma_near_sine(y: real, n: nat)
    requires
        (7 as real) * size(y) <= 22 as real,
        n >= 4,
    ensures
        near_sine(y, y * poly(sin_coefficients(), y * y, 0), n),
{
    reveal(near_sine);
    let u = y * y;
    assert(0 as real <= y * y && (49 as real) * (y * y) <= 484 as real) by (nonlinear_arith)
        requires
            -(22 as real) <= (7 as real) * y <= 22 as real,
    ;
    if (7 as real) * size(y) <= 11 as real {
        assert((49 as real) * (y * y) <= 121 as real) by (nonlinear_arith)
            requires
                -(11 as real) <= (7 as real) * y <= 11 as real,
        ;
    }
    lemma_sin_close(u, n);
    let f = poly(sin_coefficients(), u, 0);
    let s = sine_series(u, 0, n);
    assert(y * f - y * s == y * (f - s)) by (nonlinear_arith);
    lemma_scaled_size(y, f - s, (22 as real) / (7 as real), (263 as real) / (10000 as real));
    if (7 as real) * size(y) <= 11 as real {
        lemma_scaled_size(y, f - s, (11 as real) / (7 as real), (11 as real) / (100000 as real));
    }
}

proof fn lemma_turns(x: real) -> (k: int)
    requires
        size(x) <= 100000 as real,
    ensures
        k == (x * float(0x3E22_F983) + (1 as real) / (2 as real)).floor(),
        (62831853 as real) / (10000000 as real) <= float(0x40C9_0FDB) <= (62831855 as real) / (
        10000000 as real),
        (7 as real) * size(x - (k as real) * float(0x40C9_0FDB)) <= 22 as real,
{
    lemma_sin_constants();
    let xi = x * float(0x3E22_F983);
    let k = (xi + (1 as real) / (2 as real)).floor();
    lemma_reduced(x, xi, k as real, (k as real) * float(0x40C9_0FDB));
    k
}

/// The expansion of `Sin` is the sine of its operand, for angles up to 100000 in size.
pub proof fn sin_expansion_is_the_sine(t: Term, w: World, n: nat)
    requires
        size(exact(t, w).num()) <= 100000 as real,
        n >= 4,
    ensures
        exists|y: real, k: int, turn: real|
            #![trigger reduced(exact(t, w).num(), y, k, turn)]
            reduced(exact(t, w).num(), y, k, turn) && near_sine(
                y,
                exact(lower_head(Pass::Transcendentals, Head::Unary(OpKind::Sin), seq![t]), w).num(),
                n,
            ),
{
    lemma_sin_near(t, w, n);
}

proof fn lemma_sin_near(t: Term, w: World, n: nat) -> (r: (real, int, real))
    requires
        size(exact(t, w).num()) <= 100000 as real,
        n >= 4,
    ensures
        reduced(exact(t, w).num(), r.0, r.1, r.2),
        near_sine(r.0, exact(program_term(sin_steps(), seq![t]), w).num(), n),
{
    let a = exact(t, w);
    let x = a.num();
    lemma_sin_program(t, w);
    let k = lemma_turns(x);
    let y = lemma_sin_value(a);
    lemma_near_sine(y, n);
    assert(reduced(x, y, k, float(0x40C9_0FDB))) by {
        reveal(reduced);
    }
    (y, k, float(0x40C9_0FDB))
}

/// `z` is `x` and a quarter turn, which lies between 1.5707963 and 1.5707964.
#[verifier::opaque]
pub open spec fn quarter_on(x: real, z: real) -> bool {
    15707963 as real <= (10000000 as real) * (z - x) <= 15707964 as real
}

/// The expansion of `Cos` is the sine of its operand and a quarter turn.
pub proof fn cos_expansion_is_the_cosine(t: Term, w: World, n: nat)
    requires
        size(exact(t, w).num()) <= 99990 as real,
        n >= 4,
    ensures
        exists|z: real, y: real, k: int, turn: real|
            #![trigger reduced(z, y, k, turn)]
            quarter_on(exact(t, w).num(), z) && reduced(z, y, k, turn) && near_sine(
                y,
                exact(lower_head(Pass::Transcendentals, Head::Unary(OpKind::Cos), seq![t]), w).num(),
                n,
            ),
{
    let s = bin(OpKind::Add, t, cst(0x3FC9_0FDB));
    lemma_shifted(t, w);
    assert(size(exact(s, w).num()) <= 100000 as real) by {
        reveal(quarter_on);
    }
    let r = lemma_sin_near(s, w, n);
}

proof fn lemma_shifted(t: Term, w: World)
    ensures
        quarter_on(exact(t, w).num(), exact(bin(OpKind::Add, t, cst(0x3FC9_0FDB)), w).num()),
{
    reveal(quarter_on);
    let s = bin(OpKind::Add, t, cst(0x3FC9_0FDB));
    reveal_with_fuel(exact, 3);
    assert(s.kids[0] == t && s.kids[1] == cst(0x3FC9_0FDB));
    lemma_powers();
    assert(float(0x3FC9_0FDB) == (13176795 as real) * power(-23));
}

/// The expansion of `Tan` is the sine divided by the cosine.
pub proof fn tan_expansion_is_the_sine_by_the_cosine(t: Term, w: World)
    ensures
        exact(lower_head(Pass::Transcendentals, Head::Unary(OpKind::Tan), seq![t]), w).num() == exact(
            lower_head(Pass::Transcendentals, Head::Unary(OpKind::Sin), seq![t]),
            w,
        ).num() / exact(
            lower_head(Pass::Transcendentals, Head::Unary(OpKind::Cos), seq![t]),
            w,
        ).num(),
{
    let s = bin(OpKind::Add, t, cst(0x3FC9_0FDB));
    let a = program_term(sin_steps(), seq![t]);
    let b = program_term(sin_steps(), seq![s]);
    let d = bin(OpKind::Div, a, b);
    assert(d.kids[0] == a && d.kids[1] == b);
}

/// The value of the program on a term.
proof fn lemma_sin_program(t: Term, w: World)
    ensures
        exact(program_term(sin_steps(), seq![t]), w) == at(sin_steps(), seq![exact(t, w)], 21),
{
    lemma_sin_ok();
    assert(computes_only(sin_steps())) by {
        reveal(sin_steps);
    }
    lemma_program(sin_steps(), seq![t], seq![exact(t, w)], w);
}

} // verus!
