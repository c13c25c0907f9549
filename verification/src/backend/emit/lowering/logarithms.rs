//! How well the expansions of the logarithms approximate them.

use crate::arena::model::{Head, Term};
use crate::backend::emit::lowering::accuracy::{
    about_times, gap, lemma_about, lemma_gap, lemma_power_step, lemma_power_up, lemma_powers,
    lemma_scaled_size, poly,
};
use crate::backend::emit::lowering::exact::{
    at, computes_only, exact, float, lemma_program, power, size, told, Exact, World,
};
use crate::backend::emit::lowering::programs::{lemma_log2_ok, log2_steps, Operand};
use crate::backend::emit::lowering::runner::{bin, cst, program_term};
use crate::backend::emit::lowering::stepping::{
    lemma_add, lemma_arg, lemma_bitand, lemma_bitor, lemma_const, lemma_ge, lemma_inttofloat,
    lemma_mul, lemma_select, lemma_shr, lemma_sub, nth,
};
use crate::backend::emit::lowering::{lower_head, Pass};
use crate::kind::OpKind;
use crate::number::two_to;
use vstd::prelude::*;

verus! {

/// The series of the logarithm of `1 + t`, divided by `t`, from its `k`-th term to the `n`-th:
/// `1/k - t * (1/(k+1) - t * (...))`.
pub open spec fn log_series(t: real, k: nat, n: nat) -> real
    decreases n + 1 - k,
{
    if k > n {
        0 as real
    } else {
        (1 as real) / (k as real) - t * log_series(t, k + 1, n)
    }
}

/// `x` is `1 + t` times the `e`-th power of two, and no further from it than the root of two.
#[verifier::opaque]
pub open spec fn scaled_by(x: real, e: int, t: real) -> bool {
    &&& x == ((1 as real) + t) * power(e)
    &&& -(2929 as real) <= (10000 as real) * t <= 4143 as real
}

/// `v` is the binary logarithm of `1 + t` and `e`, within a part in 50000, where `l` is that
/// of e and the natural logarithm is told by the series as far as its `n`-th term.
#[verifier::opaque]
pub open spec fn near_log2(e: int, t: real, v: real, l: real, n: nat) -> bool {
    (50000 as real) * size(v - ((e as real) + (t * log_series(t, 1, n)) * l)) <= 1 as real
}

proof fn lemma_log_rest(t: real, k: nat, n: nat)
    requires
        (10000 as real) * size(t) <= 4143 as real,
        k >= 1,
    ensures
        size(log_series(t, k, n)) * (k as real) <= 2 as real,
    decreases n + 1 - k,
{
    if k <= n {
        lemma_log_rest(t, k + 1, n);
        let q = k as real;
        let s = log_series(t, k + 1, n);
        let o = (1 as real) / q;
        assert(o * q == 1 as real) by (nonlinear_arith)
            requires
                q >= 1 as real,
                o == (1 as real) / q,
        ;
        let g = size(s);
        let q1 = (k + 1) as real;
        assert(q1 == q + (1 as real));
        assert(g * q <= 2 as real) by (nonlinear_arith)
            requires
                g * q1 <= 2 as real,
                q1 == q + (1 as real),
                g >= 0 as real,
        ;
        lemma_scaled_size(t, s, (1 as real) / (2 as real), g);
        let ts = t * s;
        let v = o - ts;
        assert(size(ts) <= g / (2 as real));
        assert((o - ts) * q == o * q - ts * q) by (nonlinear_arith);
        assert(-(g * q) <= (2 as real) * (ts * q) <= g * q) by (nonlinear_arith)
            requires
                -g <= (2 as real) * ts <= g,
                q >= 1 as real,
        ;
        assert(size(v) * q == size(v * q)) by {
            assert(v >= 0 as real ==> v * q >= 0 as real) by (nonlinear_arith)
                requires
                    q >= 1 as real,
            ;
            assert(v < 0 as real ==> v * q < 0 as real) by (nonlinear_arith)
                requires
                    q >= 1 as real,
            ;
            assert((-v) * q == -(v * q)) by (nonlinear_arith);
        }
    } else {
        assert((0 as real) * (k as real) == 0 as real);
    }
}

/// The coefficients of the series from the third on, and what is left in place of the last.
spec fn log_terms(rest: real) -> Seq<real> {
    seq![
        (1 as real) / (3 as real),
        -((1 as real) / (4 as real)),
        (1 as real) / (5 as real),
        -((1 as real) / (6 as real)),
        (1 as real) / (7 as real),
        -((1 as real) / (8 as real)),
        (1 as real) / (9 as real),
        -((1 as real) / (10 as real)),
        (1 as real) / (11 as real),
        -rest,
    ]
}

proof fn lemma_log_terms(t: real, n: nat)
    requires
        n >= 12,
    ensures
        poly(log_terms(log_series(t, 12, n)), t, 0) == log_series(t, 3, n),
{
    let c = log_terms(log_series(t, 12, n));
    reveal_with_fuel(poly, 11);
    assert(t * (0 as real) == 0 as real);
    let s12 = log_series(t, 12, n);
    assert(poly(c, t, 9) == -s12);
    let s11 = log_series(t, 11, n);
    assert(s11 == (1 as real) / (11 as real) - t * s12);
    assert(t * (-s12) == -(t * s12)) by (nonlinear_arith);
    assert(poly(c, t, 8) == s11);
    let s10 = log_series(t, 10, n);
    assert(s10 == (1 as real) / (10 as real) - t * s11);
    assert(poly(c, t, 7) == -s10);
    let s9 = log_series(t, 9, n);
    assert(s9 == (1 as real) / (9 as real) - t * s10);
    assert(t * (-s10) == -(t * s10)) by (nonlinear_arith);
    assert(poly(c, t, 6) == s9);
    let s8 = log_series(t, 8, n);
    assert(s8 == (1 as real) / (8 as real) - t * s9);
    assert(poly(c, t, 5) == -s8);
    let s7 = log_series(t, 7, n);
    assert(s7 == (1 as real) / (7 as real) - t * s8);
    assert(t * (-s8) == -(t * s8)) by (nonlinear_arith);
    assert(poly(c, t, 4) == s7);
    let s6 = log_series(t, 6, n);
    assert(s6 == (1 as real) / (6 as real) - t * s7);
    assert(poly(c, t, 3) == -s6);
    let s5 = log_series(t, 5, n);
    assert(s5 == (1 as real) / (5 as real) - t * s6);
    assert(t * (-s6) == -(t * s6)) by (nonlinear_arith);
    assert(poly(c, t, 2) == s5);
    let s4 = log_series(t, 4, n);
    assert(s4 == (1 as real) / (4 as real) - t * s5);
    assert(poly(c, t, 1) == -s4);
    let s3 = log_series(t, 3, n);
    assert(s3 == (1 as real) / (3 as real) - t * s4);
    assert(t * (-s4) == -(t * s4)) by (nonlinear_arith);
    assert(poly(c, t, 0) == s3);
}

/// The coefficients of the expansion of `Log2`.
spec fn log_constants() -> Seq<real> {
    seq![
        float(0x3EAA_AAAA),
        float(0xBE7F_FFFC),
        float(0x3E4C_CEAD),
        float(0xBE2A_AE50),
        float(0x3E11_E9BF),
        float(0xBDFE_5D4F),
        float(0x3DEF_251B),
        float(0xBDEB_D1B8),
        float(0x3D90_21BB),
    ]
}

proof fn lemma_log_constants()
    ensures
        float(0x3EAA_AAAA) == (11184810 as real) / (0x2000000 as real),
        float(0xBE7F_FFFC) == -((16777212 as real) / (0x4000000 as real)),
        float(0x3E4C_CEAD) == (13422253 as real) / (0x4000000 as real),
        float(0xBE2A_AE50) == -((11185744 as real) / (0x4000000 as real)),
        float(0x3E11_E9BF) == (9562559 as real) / (0x4000000 as real),
        float(0xBDFE_5D4F) == -((16670031 as real) / (0x8000000 as real)),
        float(0x3DEF_251B) == (15672603 as real) / (0x8000000 as real),
        float(0xBDEB_D1B8) == -((15454648 as real) / (0x8000000 as real)),
        float(0x3D90_21BB) == (9445819 as real) / (0x8000000 as real),
        float(0x3EE2_A8ED) == (14854381 as real) / (0x2000000 as real),
{
    lemma_powers();
    assert(float(0x3EAA_AAAA) == (11184810 as real) * power(-25));
    assert(float(0xBE7F_FFFC) == -((16777212 as real) * power(-26)));
    assert(float(0x3E4C_CEAD) == (13422253 as real) * power(-26));
    assert(float(0xBE2A_AE50) == -((11185744 as real) * power(-26)));
    assert(float(0x3E11_E9BF) == (9562559 as real) * power(-26));
    assert(float(0xBDFE_5D4F) == -((16670031 as real) * power(-27)));
    assert(float(0x3DEF_251B) == (15672603 as real) * power(-27));
    assert(float(0xBDEB_D1B8) == -((15454648 as real) * power(-27)));
    assert(float(0x3D90_21BB) == (9445819 as real) * power(-27));
    assert(float(0x3EE2_A8ED) == (14854381 as real) * power(-25));
}

/// The value of a polynomial of degree eight, step by step.
proof fn lemma_poly9(c: Seq<real>, x: real, v: Seq<real>)
    requires
        c.len() == 9,
        v.len() == 9,
        v[8] == c[8],
        v[7] == v[8] * x + c[7],
        v[6] == v[7] * x + c[6],
        v[5] == v[6] * x + c[5],
        v[4] == v[5] * x + c[4],
        v[3] == v[4] * x + c[3],
        v[2] == v[3] * x + c[2],
        v[1] == v[2] * x + c[1],
        v[0] == v[1] * x + c[0],
    ensures
        poly(c, x, 0) == v[0],
{
    assert(poly(c, x, 9) == 0 as real);
    assert(x * (0 as real) == 0 as real);
    assert(poly(c, x, 8) == v[8]);
    lemma_commutes(v[8], x);
    assert(poly(c, x, 7) == v[7]);
    lemma_commutes(v[7], x);
    assert(poly(c, x, 6) == v[6]);
    lemma_commutes(v[6], x);
    assert(poly(c, x, 5) == v[5]);
    lemma_commutes(v[5], x);
    assert(poly(c, x, 4) == v[4]);
    lemma_commutes(v[4], x);
    assert(poly(c, x, 3) == v[3]);
    lemma_commutes(v[3], x);
    assert(poly(c, x, 2) == v[2]);
    lemma_commutes(v[2], x);
    assert(poly(c, x, 1) == v[1]);
    lemma_commutes(v[1], x);
    assert(poly(c, x, 0) == v[0]);
}

proof fn lemma_commutes(x: real, y: real)
    ensures
        x * y == y * x,
{
    assert(x * y == y * x) by (nonlinear_arith);
}

/// The coefficients of the expansion are close to those of the series of the logarithm.
proof fn lemma_log_close(t: real, n: nat)
    requires
        (10000 as real) * size(t) <= 4143 as real,
        n >= 12,
    ensures
        size(poly(log_constants(), t, 0) - log_series(t, 3, n)) * (100000 as real) <= 17 as real,
{
    lemma_log_rest(t, 12, n);
    lemma_log_terms(t, n);
    let s12 = log_series(t, 12, n);
    let e = log_terms(s12);
    let d = log_constants();
    let d10 = d.push(0 as real);
    assert(poly(d10, t, 0) == poly(d, t, 0)) by {
        reveal_with_fuel(poly, 11);
        assert(t * (0 as real) == 0 as real);
    }
    lemma_gap(d10, e, t, (4143 as real) / (10000 as real), 0);
    lemma_log_gap(d10, e, s12);
}

proof fn lemma_log_gap(d: Seq<real>, e: Seq<real>, s12: real)
    requires
        d == log_constants().push(0 as real),
        e == log_terms(s12),
        size(s12) * (12 as real) <= 2 as real,
    ensures
        gap(d, e, (4143 as real) / (10000 as real), 0) * (100000 as real) <= 17 as real,
{
    lemma_log_constants();
    let r = (4143 as real) / (10000 as real);
    let m = 10000000 as real;
    assert(gap(d, e, r, 10) == 0 as real);
    assert(gap(d, e, r, 9) * (6 as real) <= 1 as real);
    assert(gap(d, e, r, 8) * m <= 895823 as real);
    assert(gap(d, e, r, 7) * m <= 522601 as real);
    assert(gap(d, e, r, 6) * m <= 273103 as real);
    assert(gap(d, e, r, 5) * m <= 121133 as real);
    assert(gap(d, e, r, 4) * m <= 53825 as real);
    assert(gap(d, e, r, 3) * m <= 22439 as real);
    assert(gap(d, e, r, 2) * m <= 9369 as real);
    assert(gap(d, e, r, 1) * m <= 3883 as real);
    assert(gap(d, e, r, 0) * m <= 1609 as real);
}

/// The fields of a float: its exponent, and its fraction under the exponent of one.
proof fn lemma_fields(bits: u32)
    requires
        0x80_0000 <= bits < 0x7F80_0000,
    ensures
        bits >> 23u32 == bits / 0x80_0000,
        (bits & 0x7F_FFFF) | 0x3F80_0000 == 0x3F80_0000 + bits % 0x80_0000,
        1 <= bits / 0x80_0000 < 255,
{
    assert(bits >> 23u32 == bits / 0x80_0000 && (bits & 0x7F_FFFF) | 0x3F80_0000 == 0x3F80_0000
        + bits % 0x80_0000 && 1 <= bits / 0x80_0000 && bits / 0x80_0000 < 255) by (bit_vector)
        requires
            0x80_0000 <= bits < 0x7F80_0000,
    ;
}

/// A float is its mantissa times a power of two.
proof fn lemma_mantissa(bits: u32)
    requires
        0x80_0000 <= bits < 0x7F80_0000,
    ensures
        ({
            let m = float((0x3F80_0000 + bits % 0x80_0000) as u32);
            let e = bits / 0x80_0000 - 127;
            &&& float(bits) == m * power(e)
            &&& float(bits) == (m / (2 as real)) * power(e + 1)
            &&& 1 as real <= m < 2 as real
        }),
{
    let f: int = (bits % 0x80_0000) as int;
    let b = (0x3F80_0000 + bits % 0x80_0000) as u32;
    let e: int = bits / 0x80_0000 - 127;
    let a = (0x80_0000 + f) as real;
    assert(bits % 0x8000_0000 == bits);
    assert(float(bits) == a * power(e - 23));
    assert(b % 0x8000_0000 == b && b / 0x80_0000 == 127 && b % 0x80_0000 == f);
    let m = float(b);
    assert(m == a * power(-23));
    lemma_powers();
    assert(two_to(23) == 0x80_0000) by {
        reveal_with_fuel(two_to, 24);
    }
    lemma_power_up(e - 23, 23);
    lemma_power_step(e);
    let p = power(e - 23);
    let q = power(e);
    assert((0x80_0000 as real) * p == q);
    assert(a == m * (0x80_0000 as real));
    assert((m * (0x80_0000 as real)) * p == m * ((0x80_0000 as real) * p)) by (nonlinear_arith);
    assert((m / (2 as real)) * ((2 as real) * q) == m * q) by (nonlinear_arith);
}

/// The steps of the expansion of `Log2` after the mantissa is known.
proof fn lemma_log_sum(t: real, f: real, y: real, k: real, v: real, e: real, q: Seq<real>)
    requires
        q.len() == 5,
        q[0] == t * t,
        q[1] == q[0] * t,
        q[2] == q[1] * f,
        q[3] == q[0] * ((1 as real) / (2 as real)),
        y == q[2] - q[3],
        v == y * k + t * k + y + t + e,
    ensures
        v == (t + y) * ((1 as real) + k) + e,
        y == (t * t * t) * f - (t * t) / (2 as real),
{
    assert((t + y) * ((1 as real) + k) == y * k + t * k + y + t) by (nonlinear_arith);
}

/// The value of the expansion of `Log2` on a positive number.
proof fn lemma_log2_value(bits: u32) -> (r: (int, real, real))
    requires
        0x80_0000 <= bits < 0x7F80_0000,
    ensures
        scaled_by(float(bits), r.0, r.1),
        r.2 == (r.1 * r.1 * r.1) * poly(log_constants(), r.1, 0) - (r.1 * r.1) / (2 as real),
        at(log2_steps(), seq![Exact::Word(bits)], 54).num() == (r.1 + r.2) * ((1 as real) + float(
            0x3EE2_A8ED,
        )) + (r.0 as real),
{
    reveal(log2_steps);
    let p = log2_steps();
    let args = seq![Exact::Word(bits)];
    lemma_arg(p, args, 0);
    assert(float(0x41B8_0000) == 23 as real && float(0x42FE_0000) == 127 as real && float(
        0x3F80_0000,
    ) == 1 as real && float(0x3F00_0000) == (1 as real) / (2 as real) && (10000 as real) * float(
        0x3FB5_04F3,
    ) >= 14142 as real && (10000 as real) * float(0x3FB5_04F3) <= 14143 as real) by {
        lemma_scales();
    }
    lemma_fields(bits);
    lemma_mantissa(bits);
    lemma_const(p, args, 0, 0x41B80000);
    lemma_shr(p, args, 1, Operand::Arg(0), Operand::Step(0), 23);
    lemma_inttofloat(p, args, 2, Operand::Step(1));
    lemma_const(p, args, 3, 0x42FE0000);
    lemma_sub(p, args, 4, Operand::Step(2), Operand::Step(3));
    lemma_const(p, args, 5, 0x007FFFFF);
    lemma_const(p, args, 6, 0x3F800000);
    lemma_bitand(p, args, 7, Operand::Arg(0), Operand::Step(5));
    lemma_bitor(p, args, 8, Operand::Step(7), Operand::Step(6));
    lemma_const(p, args, 9, 0x3FB504F3);
    lemma_ge(p, args, 10, Operand::Step(8), Operand::Step(9));
    lemma_const(p, args, 11, 0x3F000000);
    lemma_mul(p, args, 12, Operand::Step(8), Operand::Step(11));
    lemma_select(p, args, 13, Operand::Step(10), Operand::Step(12), Operand::Step(8));
    lemma_const(p, args, 14, 0x3F800000);
    lemma_add(p, args, 15, Operand::Step(4), Operand::Step(14));
    lemma_select(p, args, 16, Operand::Step(10), Operand::Step(15), Operand::Step(4));
    lemma_sub(p, args, 17, Operand::Step(13), Operand::Step(14));
    lemma_const(p, args, 18, 0x3D9021BB);
    lemma_const(p, args, 19, 0xBDEBD1B8);
    lemma_const(p, args, 20, 0x3DEF251B);
    lemma_const(p, args, 21, 0xBDFE5D4F);
    lemma_const(p, args, 22, 0x3E11E9BF);
    lemma_const(p, args, 23, 0xBE2AAE50);
    lemma_const(p, args, 24, 0x3E4CCEAD);
    lemma_const(p, args, 25, 0xBE7FFFFC);
    lemma_const(p, args, 26, 0x3EAAAAAA);
    lemma_mul(p, args, 27, Operand::Step(18), Operand::Step(17));
    lemma_add(p, args, 28, Operand::Step(27), Operand::Step(19));
    lemma_mul(p, args, 29, Operand::Step(28), Operand::Step(17));
    lemma_add(p, args, 30, Operand::Step(29), Operand::Step(20));
    lemma_mul(p, args, 31, Operand::Step(30), Operand::Step(17));
    lemma_add(p, args, 32, Operand::Step(31), Operand::Step(21));
    lemma_mul(p, args, 33, Operand::Step(32), Operand::Step(17));
    lemma_add(p, args, 34, Operand::Step(33), Operand::Step(22));
    lemma_mul(p, args, 35, Operand::Step(34), Operand::Step(17));
    lemma_add(p, args, 36, Operand::Step(35), Operand::Step(23));
    lemma_mul(p, args, 37, Operand::Step(36), Operand::Step(17));
    lemma_add(p, args, 38, Operand::Step(37), Operand::Step(24));
    lemma_mul(p, args, 39, Operand::Step(38), Operand::Step(17));
    lemma_add(p, args, 40, Operand::Step(39), Operand::Step(25));
    lemma_mul(p, args, 41, Operand::Step(40), Operand::Step(17));
    lemma_add(p, args, 42, Operand::Step(41), Operand::Step(26));
    lemma_mul(p, args, 43, Operand::Step(17), Operand::Step(17));
    lemma_mul(p, args, 44, Operand::Step(43), Operand::Step(17));
    lemma_mul(p, args, 45, Operand::Step(44), Operand::Step(42));
    lemma_mul(p, args, 46, Operand::Step(43), Operand::Step(11));
    lemma_sub(p, args, 47, Operand::Step(45), Operand::Step(46));
    lemma_const(p, args, 48, 0x3EE2A8ED);
    lemma_mul(p, args, 49, Operand::Step(47), Operand::Step(48));
    lemma_mul(p, args, 50, Operand::Step(17), Operand::Step(48));
    lemma_add(p, args, 51, Operand::Step(49), Operand::Step(50));
    lemma_add(p, args, 52, Operand::Step(51), Operand::Step(47));
    lemma_add(p, args, 53, Operand::Step(52), Operand::Step(17));
    lemma_add(p, args, 54, Operand::Step(53), Operand::Step(16));
    let w = |k: usize| nth(p, args, Operand::Step(k)).num();
    let e0: int = bits / 0x80_0000 - 127;
    let m = float((0x3F80_0000 + bits % 0x80_0000) as u32);
    assert(w(4) == e0 as real);
    assert(w(8) == m);
    let big = m >= float(0x3FB5_04F3);
    assert(nth(p, args, Operand::Step(10)) == told(big));
    let e: int = if big {
        e0 + 1
    } else {
        e0
    };
    let t = w(17);
    assert(w(16) == e as real);
    assert(scaled_by(float(bits), e, t)) by {
        reveal(scaled_by);
    }
    lemma_poly9(
        log_constants(),
        t,
        seq![w(42), w(40), w(38), w(36), w(34), w(32), w(30), w(28), w(18)],
    );
    lemma_log_sum(
        t,
        w(42),
        w(47),
        float(0x3EE2_A8ED),
        w(54),
        e as real,
        seq![w(43), w(44), w(45), w(46), 0 as real],
    );
    assert(at(p, args, 54) == nth(p, args, Operand::Step(54))) by {
        reveal(nth);
    }
    (e, t, w(47))
}

proof fn lemma_scales()
    ensures
        float(0x41B8_0000) == 23 as real,
        float(0x42FE_0000) == 127 as real,
        float(0x3F80_0000) == 1 as real,
        float(0x3F00_0000) == (1 as real) / (2 as real),
        (10000 as real) * float(0x3FB5_04F3) >= 14142 as real,
        (10000 as real) * float(0x3FB5_04F3) <= 14143 as real,
{
    lemma_powers();
    assert(float(0x41B8_0000) == (0xB8_0000 as real) * power(-19));
    assert(power(-17) == (1 as real) / (0x2_0000 as real)) by {
        reveal_with_fuel(two_to, 18);
    }
    assert(float(0x42FE_0000) == (0xFE_0000 as real) * power(-17));
    assert(float(0x3F80_0000) == (0x80_0000 as real) * power(-23));
    assert(float(0x3F00_0000) == (0x80_0000 as real) * power(-24));
    assert(float(0x3FB5_04F3) == (11863283 as real) * power(-23));
}

/// Close polynomials give close logarithms.
proof fn lemma_near_log2(e: int, t: real, y: real, f: real, k: real, l: real, n: nat)
    requires
        (10000 as real) * size(t) <= 4143 as real,
        n >= 12,
        size(f - log_series(t, 3, n)) * (100000 as real) <= 17 as real,
        size(f) <= 1 as real,
        y == (t * t * t) * f - (t * t) / (2 as real),
        14426950 as real <= (10000000 as real) * l <= 14426951 as real,
        14426950 as real <= (10000000 as real) * k <= 14426951 as real,
    ensures
        near_log2(e, t, (t + y) * k + (e as real), l, n),
{
    reveal(near_log2);
    let s3 = log_series(t, 3, n);
    let s2 = log_series(t, 2, n);
    let s1 = log_series(t, 1, n);
    assert(s2 == (1 as real) / (2 as real) - t * s3);
    assert(s1 == (1 as real) - t * s2);
    let r = (4143 as real) / (10000 as real);
    let t2 = t * t;
    let t3 = t * t * t;
    lemma_scaled_size(t, t, r, r);
    lemma_scaled_size(t2, t, r * r, r);
    // The series is t - t^2/2 + t^3 times its rest.
    let h = (1 as real) / (2 as real);
    let ts3 = t * s3;
    assert(t * (h - ts3) == t * h - t * ts3) by (nonlinear_arith);
    let ts2 = t * s2;
    let one = 1 as real;
    assert(t * (one - ts2) == t * one - t * ts2) by (nonlinear_arith);
    assert(t * (t * h - t * (t * s3)) == (t * t) * h - (t * t * t) * s3) by (nonlinear_arith);
    let g = t * s1;
    assert(g == t - t2 / (2 as real) + t3 * s3);
    let a = t + y;
    assert(t3 * f - t3 * s3 == t3 * (f - s3)) by (nonlinear_arith);
    lemma_scaled_size(t3, f - s3, r * r * r, (17 as real) / (100000 as real));
    lemma_scaled_size(t3, f, r * r * r, one);
    let d = a - g;
    assert(size(d) <= (r * r * r) * ((17 as real) / (100000 as real)));
    assert(size(a) <= one);
    assert(a * k - g * l == a * (k - l) + (a - g) * l) by (nonlinear_arith);
    lemma_scaled_size(a, k - l, one, one / (10000000 as real));
    lemma_scaled_size(d, l, (r * r * r) * ((17 as real) / (100000 as real)), (14427 as real) / (
    10000 as real));
}

/// The value of the program on a term that is a positive number.
proof fn lemma_log2_program(t: Term, w: World, bits: u32, l: real, n: nat) -> (r: (int, real))
    requires
        exact(t, w) == Exact::Word(bits),
        0x80_0000 <= bits < 0x7F80_0000,
        14426950 as real <= (10000000 as real) * l <= 14426951 as real,
        n >= 12,
    ensures
        scaled_by(float(bits), r.0, r.1),
        near_log2(r.0, r.1, exact(program_term(log2_steps(), seq![t]), w).num(), l, n),
{
    lemma_log2_ok();
    assert(computes_only(log2_steps())) by {
        reveal(log2_steps);
    }
    lemma_program(log2_steps(), seq![t], seq![exact(t, w)], w);
    let r = lemma_log2_value(bits);
    assert((10000 as real) * size(r.1) <= 4143 as real) by {
        reveal(scaled_by);
    }
    lemma_log_close(r.1, n);
    let f = poly(log_constants(), r.1, 0);
    lemma_log_rest(r.1, 3, n);
    assert(size(log_series(r.1, 3, n)) * (3 as real) <= 2 as real);
    let k = (1 as real) + float(0x3EE2_A8ED);
    assert(14426950 as real <= (10000000 as real) * k <= 14426951 as real) by {
        lemma_log_constants();
    }
    lemma_near_log2(r.0, r.1, r.2, f, k, l, n);
    (r.0, r.1)
}

/// The expansion of `Log2` is the binary logarithm of a positive number that is neither
/// infinite nor tiny. `l` is the binary logarithm of e.
pub proof fn log2_expansion_is_the_logarithm(t: Term, w: World, bits: u32, l: real, n: nat)
    requires
        exact(t, w) == Exact::Word(bits),
        0x80_0000 <= bits < 0x7F80_0000,
        14426950 as real <= (10000000 as real) * l <= 14426951 as real,
        n >= 12,
    ensures
        exists|e: int, f: real|
            #![trigger scaled_by(float(bits), e, f)]
            scaled_by(float(bits), e, f) && near_log2(
                e,
                f,
                exact(lower_head(Pass::Transcendentals, Head::Unary(OpKind::Log2), seq![t]), w).num(),
                l,
                n,
            ),
{
    let r = lemma_log2_program(t, w, bits, l, n);
}

/// The expansion of `Ln` is that of `Log2` times the natural logarithm of two, which lies
/// between 0.6931471 and 0.6931472, and that of `Log10` is it times the decimal logarithm of
/// two, which lies between 0.3010299 and 0.3010301.
pub proof fn logarithms_are_multiples_of_the_binary_one(t: Term, w: World)
    ensures
        ({
            let v = exact(
                lower_head(Pass::Transcendentals, Head::Unary(OpKind::Log2), seq![t]),
                w,
            ).num();
            &&& about_times(
                v,
                exact(lower_head(Pass::Transcendentals, Head::Unary(OpKind::Ln), seq![t]), w).num(),
                6931471,
                6931472,
            )
            &&& about_times(
                v,
                exact(lower_head(Pass::Transcendentals, Head::Unary(OpKind::Log10), seq![t]), w).num(),
                3010299,
                3010301,
            )
        }),
{
    let a = program_term(log2_steps(), seq![t]);
    let v = exact(a, w).num();
    lemma_multiple(a, w, 0x3F31_7218);
    lemma_multiple(a, w, 0x3E9A_209B);
    assert(6931471 as real <= (10000000 as real) * float(0x3F31_7218) <= 6931472 as real && 3010299 as real
        <= (10000000 as real) * float(0x3E9A_209B) <= 3010301 as real) by {
        lemma_powers();
        assert(float(0x3F31_7218) == (11629080 as real) * power(-24));
        assert(float(0x3E9A_209B) == (10100891 as real) * power(-25));
    }
    lemma_about(v, float(0x3F31_7218), 6931471, 6931472);
    lemma_about(v, float(0x3E9A_209B), 3010299, 3010301);
}

proof fn lemma_multiple(a: Term, w: World, bits: u32)
    ensures
        exact(bin(OpKind::Mul, a, cst(bits)), w).num() == exact(a, w).num() * float(bits),
{
    let s = bin(OpKind::Mul, a, cst(bits));
    reveal_with_fuel(exact, 3);
    assert(s.kids[0] == a && s.kids[1] == cst(bits));
}

} // verus!
