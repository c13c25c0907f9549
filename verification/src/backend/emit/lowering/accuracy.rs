//! How well the expansions of transcendental functions approximate them.

use crate::arena::model::{Head, Term};
use crate::backend::emit::lowering::exact::{
    at, computes_only, exact, float, larger, lemma_program, power, size, smaller, whole, Exact,
    World,
};
use crate::backend::emit::lowering::programs::{exp2_steps, lemma_exp2_ok, Operand};
use crate::backend::emit::lowering::runner::{bin, cst, program_term};
use crate::backend::emit::lowering::stepping::{
    lemma_add, lemma_arg, lemma_const, lemma_floor, lemma_iadd, lemma_max, lemma_min, lemma_mul,
    lemma_shl, lemma_sub, lemma_trunctoint, nth,
};
use crate::backend::emit::lowering::{lower_head, Pass};
use crate::kind::OpKind;
use crate::number::{lemma_two_to_grows, two_to};
use vstd::prelude::*;

verus! {

/// A polynomial, by its coefficients from the `k`-th on.
pub open spec fn poly(c: Seq<real>, x: real, k: nat) -> real
    decreases c.len() - k,
{
    if k >= c.len() {
        0 as real
    } else {
        c[k as int] + x * poly(c, x, k + 1)
    }
}

/// A bound on the difference of two polynomials where `x` is at most `r` in size.
pub open spec fn gap(a: Seq<real>, b: Seq<real>, r: real, k: nat) -> real
    decreases a.len() - k,
{
    if k >= a.len() {
        0 as real
    } else {
        size(a[k as int] - b[k as int]) + r * gap(a, b, r, k + 1)
    }
}

pub(crate) proof fn lemma_scaled_size(x: real, y: real, r: real, g: real)
    requires
        size(x) <= r,
        size(y) <= g,
    ensures
        size(x * y) <= r * g,
{
    let p = x * y;
    assert(p <= r * g && -p <= r * g) by (nonlinear_arith)
        requires
            -r <= x <= r,
            -g <= y <= g,
            p == x * y,
    ;
}

/// Polynomials with close coefficients are close.
pub(crate) proof fn lemma_gap(a: Seq<real>, b: Seq<real>, x: real, r: real, k: nat)
    requires
        a.len() == b.len(),
        size(x) <= r,
    ensures
        size(poly(a, x, k) - poly(b, x, k)) <= gap(a, b, r, k),
        gap(a, b, r, k) >= 0 as real,
    decreases a.len() - k,
{
    if k < a.len() {
        lemma_gap(a, b, x, r, k + 1);
        let p = poly(a, x, k + 1);
        let q = poly(b, x, k + 1);
        let g = gap(a, b, r, k + 1);
        lemma_scaled_size(x, p - q, r, g);
        assert(x * (p - q) == x * p - x * q) by (nonlinear_arith);
        assert(r * g >= 0 as real) by (nonlinear_arith)
            requires
                r >= 0 as real,
                g >= 0 as real,
        ;
    }
}

/// Two to the next power is twice as much.
pub(crate) proof fn lemma_power_step(e: int)
    ensures
        power(e + 1) == (2 as real) * power(e),
        power(e) > 0 as real,
{
    if e >= 0 {
        lemma_two_to_grows(0, e as nat);
        let n: int = two_to(e as nat) as int;
        assert(two_to((e + 1) as nat) == 2 * n);
        assert((2 * n) as real == (2 as real) * (n as real));
    } else {
        let k = (-e) as nat;
        lemma_two_to_grows(0, (k - 1) as nat);
        let n: int = two_to((k - 1) as nat) as int;
        assert(two_to(k) == 2 * n);
        let r = n as real;
        assert((2 * n) as real == (2 as real) * r);
        assert((2 as real) * ((1 as real) / ((2 as real) * r)) == (1 as real) / r && (1 as real) / (
        (2 as real) * r) > 0 as real) by (nonlinear_arith)
            requires
                r >= 1 as real,
        ;
        assert(power(e) == (1 as real) / ((2 * n) as real));
        if k == 1 {
            assert(power(e + 1) == 1 as real);
            assert(r == 1 as real);
        } else {
            assert((-(e + 1)) as nat == (k - 1) as nat);
            assert(power(e + 1) == (1 as real) / r);
        }
    }
}

pub(crate) proof fn lemma_power_up(e: int, k: nat)
    ensures
        (two_to(k) as real) * power(e) == power(e + k),
    decreases k,
{
    if k > 0 {
        lemma_power_up(e, (k - 1) as nat);
        lemma_power_step(e + k - 1);
        let a = two_to((k - 1) as nat) as real;
        let p = power(e);
        assert(two_to(k) as real == (2 as real) * a);
        assert(((2 as real) * a) * p == (2 as real) * (a * p)) by (nonlinear_arith);
    } else {
        assert((1 as real) * power(e) == power(e));
    }
}

/// The powers of two that scale the constants of the expansions.
pub(crate) proof fn lemma_powers()
    ensures
        power(0) == 1 as real,
        power(-1) == (1 as real) / (2 as real),
        power(-18) == (1 as real) / (0x4_0000 as real),
        power(-19) == (1 as real) / (0x8_0000 as real),
        power(-20) == (1 as real) / (0x10_0000 as real),
        power(-21) == (1 as real) / (0x20_0000 as real),
        power(-22) == (1 as real) / (0x40_0000 as real),
        power(-23) == (1 as real) / (0x80_0000 as real),
        power(-24) == (1 as real) / (0x100_0000 as real),
        power(-25) == (1 as real) / (0x200_0000 as real),
        power(-26) == (1 as real) / (0x400_0000 as real),
        power(-27) == (1 as real) / (0x800_0000 as real),
        power(-28) == (1 as real) / (0x1000_0000 as real),
        power(-29) == (1 as real) / (0x2000_0000 as real),
        power(-30) == (1 as real) / (0x4000_0000 as real),
        power(-31) == (1 as real) / (0x8000_0000 as real),
        power(-32) == (1 as real) / (0x1_0000_0000 as real),
        power(-33) == (1 as real) / (0x2_0000_0000 as real),
{
    reveal_with_fuel(two_to, 34);
}

/// The series of e^t as far as the term of degree `n`, without the terms before the one of
/// degree `k` and divided by that one: `1 + t/(k+1) * (1 + t/(k+2) * (...))`.
pub open spec fn exp_series(t: real, k: nat, n: nat) -> real
    decreases n - k,
{
    if k >= n {
        1 as real
    } else {
        (1 as real) + (t / ((k + 1) as real)) * exp_series(t, k + 1, n)
    }
}

/// The coefficients of the series of e^(l * x), from the one of degree `k`, which is `a`, to
/// that of degree `m`, which is scaled by `r`.
spec fn exp_terms(l: real, a: real, k: nat, m: nat, r: real) -> Seq<real>
    decreases m - k,
{
    if k >= m {
        seq![a * r]
    } else {
        seq![a] + exp_terms(l, a * l / ((k + 1) as real), k + 1, m, r)
    }
}

proof fn lemma_poly_shift(c: Seq<real>, d: Seq<real>, x: real, k: nat)
    requires
        c.len() == d.len() + 1,
        forall|i: int| 0 <= i < d.len() ==> #[trigger] d[i] == c[i + 1],
    ensures
        poly(c, x, k + 1) == poly(d, x, k),
    decreases d.len() - k,
{
    if k < d.len() {
        lemma_poly_shift(c, d, x, k + 1);
    }
}

/// The series is the polynomial of its coefficients.
proof fn lemma_exp_terms(l: real, a: real, k: nat, m: nat, n: nat, x: real)
    requires
        k <= m <= n,
    ensures
        poly(exp_terms(l, a, k, m, exp_series(x * l, m, n)), x, 0) == a * exp_series(x * l, k, n),
        exp_terms(l, a, k, m, exp_series(x * l, m, n)).len() == m - k + 1,
    decreases m - k,
{
    let r = exp_series(x * l, m, n);
    let c = exp_terms(l, a, k, m, r);
    reveal_with_fuel(poly, 2);
    if k < m {
        let q = (k + 1) as real;
        let b = a * l / q;
        let d = exp_terms(l, b, k + 1, m, r);
        lemma_exp_terms(l, b, k + 1, m, n, x);
        assert(c =~= seq![a] + d);
        lemma_poly_shift(c, d, x, 0);
        let e = exp_series(x * l, k + 1, n);
        assert(poly(c, x, 0) == a + x * (b * e));
        let u = x * l;
        assert(q > 0 as real);
        assert(x * b == a * (u / q)) by (nonlinear_arith)
            requires
                q > 0 as real,
                b == a * l / q,
                u == x * l,
        ;
        assert(x * (b * e) == (x * b) * e) by (nonlinear_arith);
        let v = u / q;
        assert(a * ((1 as real) + v * e) == a + (a * v) * e) by (nonlinear_arith);
    } else {
        assert(x * (0 as real) == 0 as real);
    }
}

/// What is left of the series after its sixth term is close to one.
proof fn lemma_exp_rest(t: real, k: nat, n: nat)
    requires
        0 as real <= t,
        (10 as real) * t <= 7 as real,
        k >= 6,
    ensures
        (5 as real) * exp_series(t, k, n) <= 6 as real,
        exp_series(t, k, n) >= 1 as real,
    decreases n - k,
{
    if k < n {
        lemma_exp_rest(t, k + 1, n);
        let q = (k + 1) as real;
        let e = exp_series(t, k + 1, n);
        assert((10 as real) * (t / q) <= 1 as real && t / q >= 0 as real) by (nonlinear_arith)
            requires
                q >= 7 as real,
                0 as real <= t,
                (10 as real) * t <= 7 as real,
        ;
        let v = t / q;
        assert((5 as real) * (v * e) <= 1 as real && v * e >= 0 as real) by (nonlinear_arith)
            requires
                (10 as real) * v <= 1 as real,
                v >= 0 as real,
                (5 as real) * e <= 6 as real,
                e >= 1 as real,
        ;
    }
}

/// The value of a polynomial of degree five, step by step.
proof fn lemma_poly6(c: Seq<real>, x: real)
    requires
        c.len() == 6,
    ensures
        poly(c, x, 0) == ((((c[5] * x + c[4]) * x + c[3]) * x + c[2]) * x + c[1]) * x + c[0],
{
    reveal_with_fuel(poly, 7);
    let p4 = c[4] + x * c[5];
    let p3 = c[3] + x * p4;
    let p2 = c[2] + x * p3;
    let p1 = c[1] + x * p2;
    let c5 = c[5];
    assert(x * (0 as real) == 0 as real);
    assert(x * c5 == c5 * x && x * p4 == p4 * x && x * p3 == p3 * x && x * p2 == p2 * x && x * p1
        == p1 * x) by (nonlinear_arith);
}

/// The coefficients of the expansion of `Exp2`.
spec fn exp2_coefficients() -> Seq<real> {
    seq![
        float(0x3F80_0000),
        float(0x3F31_7218),
        float(0x3E75_FDF0),
        float(0x3D63_5847),
        float(0x3C1D_955B),
        float(0x3AAE_C3FF),
    ]
}

proof fn lemma_exp2_constants()
    ensures
        float(0xC2FC_0000) == -(126 as real),
        float(0x42FC_0000) == 126 as real,
        float(0x3F80_0000) == 1 as real,
        float(0x41B8_0000) == 23 as real,
        float(0x3F31_7218) == (11629080 as real) / (0x100_0000 as real),
        float(0x3E75_FDF0) == (16121328 as real) / (0x400_0000 as real),
        float(0x3D63_5847) == (14899271 as real) / (0x1000_0000 as real),
        float(0x3C1D_955B) == (10327387 as real) / (0x4000_0000 as real),
        float(0x3AAE_C3FF) == (11453439 as real) / (0x2_0000_0000 as real),
{
    lemma_powers();
    assert(float(0x42FC_0000) == (0xFC_0000 as real) * power(-17));
    assert(power(-17) == (1 as real) / (0x2_0000 as real)) by {
        reveal_with_fuel(two_to, 18);
    }
    assert(float(0x3F80_0000) == (0x80_0000 as real) * power(-23));
    assert(float(0x41B8_0000) == (0xB8_0000 as real) * power(-19));
    assert(float(0x3F31_7218) == (11629080 as real) * power(-24));
    assert(float(0x3E75_FDF0) == (16121328 as real) * power(-26));
    assert(float(0x3D63_5847) == (14899271 as real) * power(-28));
    assert(float(0x3C1D_955B) == (10327387 as real) * power(-30));
    assert(float(0x3AAE_C3FF) == (11453439 as real) * power(-33));
}

/// The bits of an exponent stand for the power of two.
proof fn lemma_exponent_bits(n: int)
    requires
        -126 <= n <= 126,
    ensures
        float((((n + 127) as u32) << 23u32)) == power(n),
{
    let e = (n + 127) as u32;
    let bits = e << 23u32;
    assert(bits == e * 0x80_0000 && bits % 0x8000_0000 == bits && bits / 0x80_0000 == e && bits
        % 0x80_0000 == 0 && bits < 0x8000_0000) by (bit_vector)
        requires
            e <= 253,
            bits == e << 23u32,
    ;
    assert(float(bits) == (0x80_0000 as real) * power(n - 23));
    lemma_power_up(n - 23, 23);
    assert(two_to(23) == 0x80_0000) by {
        reveal_with_fuel(two_to, 24);
    }
}

/// Adding the bias to a word of a signed exponent gives the biased exponent.
proof fn lemma_biased(n: int)
    requires
        -126 <= n <= 126,
    ensures
        ((n % 0x1_0000_0000) as u32 + 127) % 0x1_0000_0000 == n + 127,
{
    if n >= 0 {
        assert(n % 0x1_0000_0000 == n);
    } else {
        assert(n % 0x1_0000_0000 == n + 0x1_0000_0000);
    }
}

/// The value of the expansion of `Exp2`: a polynomial of the fraction, scaled by the power of
/// two of the whole part.
proof fn lemma_exp2_value(a: Exact)
    ensures
        ({
            let h = smaller(larger(a.num(), -(126 as real)), 126 as real);
            at(exp2_steps(), seq![a], 27) == Exact::Num(
                poly(exp2_coefficients(), h - (h.floor() as real), 0) * power(h.floor()),
            )
        }),
{
    reveal(exp2_steps);
    lemma_exp2_constants();
    let p = exp2_steps();
    let args = seq![a];
    let h = smaller(larger(a.num(), -(126 as real)), 126 as real);
    let n = h.floor();
    let f = h - (n as real);
    let c = exp2_coefficients();
    lemma_poly6(c, f);
    lemma_exponent_bits(n);
    lemma_biased(n);
    lemma_arg(p, args, 0);
    lemma_const(p, args, 0, 0xC2FC0000);
    lemma_const(p, args, 1, 0x42FC0000);
    lemma_max(p, args, 2, Operand::Arg(0), Operand::Step(0));
    lemma_min(p, args, 3, Operand::Step(2), Operand::Step(1));
    lemma_floor(p, args, 4, Operand::Step(3));
    lemma_sub(p, args, 5, Operand::Step(3), Operand::Step(4));
    lemma_const(p, args, 6, 0x3F800000);
    lemma_const(p, args, 7, 0x3F317218);
    lemma_const(p, args, 8, 0x3E75FDF0);
    lemma_const(p, args, 9, 0x3D635847);
    lemma_const(p, args, 10, 0x3C1D955B);
    lemma_const(p, args, 11, 0x3AAEC3FF);
    lemma_mul(p, args, 12, Operand::Step(11), Operand::Step(5));
    lemma_add(p, args, 13, Operand::Step(12), Operand::Step(10));
    lemma_mul(p, args, 14, Operand::Step(13), Operand::Step(5));
    lemma_add(p, args, 15, Operand::Step(14), Operand::Step(9));
    lemma_mul(p, args, 16, Operand::Step(15), Operand::Step(5));
    lemma_add(p, args, 17, Operand::Step(16), Operand::Step(8));
    lemma_mul(p, args, 18, Operand::Step(17), Operand::Step(5));
    lemma_add(p, args, 19, Operand::Step(18), Operand::Step(7));
    lemma_mul(p, args, 20, Operand::Step(19), Operand::Step(5));
    lemma_add(p, args, 21, Operand::Step(20), Operand::Step(6));
    lemma_trunctoint(p, args, 22, Operand::Step(4));
    lemma_const(p, args, 23, 0x0000007F);
    lemma_iadd(p, args, 24, Operand::Step(22), Operand::Step(23));
    lemma_const(p, args, 25, 0x41B80000);
    lemma_shl(p, args, 26, Operand::Step(24), Operand::Step(25), 23);
    lemma_mul(p, args, 27, Operand::Step(21), Operand::Step(26));
    assert(nth(p, args, Operand::Step(3)).num() == h);
    assert(nth(p, args, Operand::Step(5)).num() == f);
    assert(nth(p, args, Operand::Step(21)).num() == poly(c, f, 0));
    assert(whole(n as real) == n);
    assert(nth(p, args, Operand::Step(24)) == Exact::Word((n + 127) as u32));
    assert(nth(p, args, Operand::Step(26)) == Exact::Word(((n + 127) as u32) << 23u32));
    assert(at(p, args, 27) == nth(p, args, Operand::Step(27))) by {
        reveal(nth);
    }
}

/// A bound on the next coefficient of the series.
proof fn lemma_next(a: real, lo: real, hi: real, l: real, q: real)
    requires
        0 as real <= lo <= a <= hi,
        (6931471 as real) / (10000000 as real) <= l <= (6931472 as real) / (10000000 as real),
        q >= 1 as real,
    ensures
        lo * ((6931471 as real) / (10000000 as real)) / q <= a * l / q,
        a * l / q <= hi * ((6931472 as real) / (10000000 as real)) / q,
{
    let l0 = (6931471 as real) / (10000000 as real);
    let l1 = (6931472 as real) / (10000000 as real);
    assert(lo * l0 <= a * l && a * l <= hi * l1) by (nonlinear_arith)
        requires
            0 as real <= lo <= a <= hi,
            0 as real <= l0 <= l <= l1,
    ;
    let x = lo * l0;
    let y = a * l;
    let z = hi * l1;
    assert(x / q <= y / q && y / q <= z / q) by (nonlinear_arith)
        requires
            x <= y <= z,
            q >= 1 as real,
    ;
}

/// The coefficients of the expansion are those of the series of 2^x.
proof fn lemma_exp2_close(l: real, f: real, n: nat)
    requires
        (6931471 as real) / (10000000 as real) <= l <= (6931472 as real) / (10000000 as real),
        0 as real <= f <= 1 as real,
        n >= 6,
    ensures
        size(poly(exp2_coefficients(), f, 0) - exp_series(f * l, 0, n)) * (5000 as real) <= 1 as real,
{
    let one = 1 as real;
    let t = f * l;
    assert(0 as real <= t && (10 as real) * t <= 7 as real) by (nonlinear_arith)
        requires
            t == f * l,
            0 as real <= f <= 1 as real,
            0 as real <= l,
            (10 as real) * l <= 7 as real,
    ;
    lemma_exp_rest(t, 6, n);
    let r = exp_series(t, 6, n);
    lemma_exp_terms(l, one, 0, 6, n, f);
    let d = exp_terms(l, one, 0, 6, r);
    assert(one * exp_series(t, 0, n) == exp_series(t, 0, n));
    reveal_with_fuel(exp_terms, 7);
    let a1 = one * l / (1 as real);
    let a2 = a1 * l / (2 as real);
    let a3 = a2 * l / (3 as real);
    let a4 = a3 * l / (4 as real);
    let a5 = a4 * l / (5 as real);
    let a6 = a5 * l / (6 as real);
    assert(d =~= seq![one, a1, a2, a3, a4, a5, a6 * r]);
    let m = 100000000 as real;
    lemma_next(one, one, one, l, 1 as real);
    assert((69314710 as real) / m <= a1 <= (69314720 as real) / m);
    lemma_next(a1, (69314710 as real) / m, (69314720 as real) / m, l, 2 as real);
    assert((24022640 as real) / m <= a2 <= (24022660 as real) / m);
    lemma_next(a2, (24022640 as real) / m, (24022660 as real) / m, l, 3 as real);
    assert((5550400 as real) / m <= a3 <= (5550420 as real) / m);
    lemma_next(a3, (5550400 as real) / m, (5550420 as real) / m, l, 4 as real);
    assert((961800 as real) / m <= a4 <= (961820 as real) / m);
    lemma_next(a4, (961800 as real) / m, (961820 as real) / m, l, 5 as real);
    assert((133320 as real) / m <= a5 <= (133340 as real) / m);
    lemma_next(a5, (133320 as real) / m, (133340 as real) / m, l, 6 as real);
    assert(0 as real <= a6 <= (15410 as real) / m);
    assert(0 as real <= a6 * r && (5 as real) * (a6 * r) * m <= (92460 as real)) by (nonlinear_arith)
        requires
            0 as real <= a6,
            a6 * m <= 15410 as real,
            m > 0 as real,
            1 as real <= r,
            (5 as real) * r <= 6 as real,
    ;
    lemma_exp2_constants();
    let c = exp2_coefficients();
    let c7 = c.push(0 as real);
    assert(poly(c7, f, 0) == poly(c, f, 0)) by {
        reveal_with_fuel(poly, 8);
        assert(f * (0 as real) == 0 as real);
    }
    lemma_gap(c7, d, f, one, 0);
    reveal_with_fuel(gap, 8);
}

/// `v` is two to the power of `x`, held between -126 and 126: exactly so for an integer, and
/// within a part in 5000 for a number between two integers. There the power is told by the
/// series of e^(f ln 2) as far as the term of degree `n`, for the fraction f and the
/// logarithm `l` of two.
pub open spec fn near_power(x: real, v: real, l: real, n: nat) -> bool {
    let h = smaller(larger(x, -(126 as real)), 126 as real);
    let e = h.floor();
    &&& h == e as real ==> v == power(e)
    &&& (5000 as real) * size(v - power(e) * exp_series((h - (e as real)) * l, 0, n)) <= power(e)
}

/// The expansion of `Exp2` is two to the power of its operand.
pub proof fn exp2_expansion_is_a_power_of_two(t: Term, w: World, l: real, n: nat)
    requires
        (6931471 as real) / (10000000 as real) <= l <= (6931472 as real) / (10000000 as real),
        n >= 6,
    ensures
        near_power(
            exact(t, w).num(),
            exact(lower_head(Pass::Transcendentals, Head::Unary(OpKind::Exp2), seq![t]), w).num(),
            l,
            n,
        ),
{
    lemma_exp2_program(t, w, l, n);
}

/// `z` is `x` times a number between `lo` and `hi`, in parts of ten million.
pub open spec fn about_times(x: real, z: real, lo: int, hi: int) -> bool {
    let m = 10000000 as real;
    if x >= 0 as real {
        x * (lo as real) <= m * z <= x * (hi as real)
    } else {
        x * (hi as real) <= m * z <= x * (lo as real)
    }
}

/// The expansion of `Exp` is two to the power of its operand times the binary logarithm of e,
/// which lies between 1.442695 and 1.4426951.
pub proof fn exp_expansion_is_an_exponential(t: Term, w: World, l: real, n: nat)
    requires
        (6931471 as real) / (10000000 as real) <= l <= (6931472 as real) / (10000000 as real),
        n >= 6,
    ensures
        exists|z: real|
            about_times(exact(t, w).num(), z, 14426950, 14426951) && #[trigger] near_power(
                z,
                exact(lower_head(Pass::Transcendentals, Head::Unary(OpKind::Exp), seq![t]), w).num(),
                l,
                n,
            ),
{
    let s = bin(OpKind::Mul, t, cst(0x3FB8_AA3B));
    lemma_log2e(t, w);
    lemma_exp2_program(s, w, l, n);
}

proof fn lemma_log2e(t: Term, w: World)
    ensures
        about_times(
            exact(t, w).num(),
            exact(bin(OpKind::Mul, t, cst(0x3FB8_AA3B)), w).num(),
            14426950,
            14426951,
        ),
{
    let s = bin(OpKind::Mul, t, cst(0x3FB8_AA3B));
    let x = exact(t, w).num();
    let c = float(0x3FB8_AA3B);
    assert(exact(s, w) == Exact::Num(x * c)) by {
        reveal_with_fuel(exact, 3);
        assert(s.kids[0] == t && s.kids[1] == cst(0x3FB8_AA3B));
    }
    lemma_powers();
    assert(c == (12102203 as real) * power(-23));
    lemma_about(x, c, 14426950, 14426951);
}

pub(crate) proof fn lemma_about(x: real, c: real, lo: int, hi: int)
    requires
        lo as real <= (10000000 as real) * c <= hi as real,
    ensures
        about_times(x, x * c, lo, hi),
{
    let m = 10000000 as real;
    let a = lo as real;
    let b = hi as real;
    let d = m * c;
    assert(m * (x * c) == x * (m * c)) by (nonlinear_arith);
    if x >= 0 as real {
        assert(x * a <= x * d && x * d <= x * b) by (nonlinear_arith)
            requires
                a <= d <= b,
                x >= 0 as real,
        ;
    } else {
        assert(x * b <= x * d && x * d <= x * a) by (nonlinear_arith)
            requires
                a <= d <= b,
                x < 0 as real,
        ;
    }
}

/// The value of the program on a term.
proof fn lemma_exp2_program(t: Term, w: World, l: real, n: nat)
    requires
        (6931471 as real) / (10000000 as real) <= l <= (6931472 as real) / (10000000 as real),
        n >= 6,
    ensures
        near_power(
            exact(t, w).num(),
            exact(program_term(exp2_steps(), seq![t]), w).num(),
            l,
            n,
        ),
{
    let a = exact(t, w);
    let args = seq![a];
    let p = exp2_steps();
    lemma_exp2_ok();
    assert(computes_only(p)) by {
        reveal(exp2_steps);
    }
    lemma_program(p, seq![t], args, w);
    lemma_exp2_value(a);
    let h = smaller(larger(a.num(), -(126 as real)), 126 as real);
    let e = h.floor();
    let f = h - (e as real);
    lemma_power_step(e);
    let c = exp2_coefficients();
    let q = power(e);
    let y = poly(c, f, 0);
    if f == 0 as real {
        lemma_exp2_constants();
        lemma_poly6(c, f);
        assert(y == 1 as real) by (nonlinear_arith)
            requires
                f == 0 as real,
                c[0] == 1 as real,
                y == ((((c[5] * f + c[4]) * f + c[3]) * f + c[2]) * f + c[1]) * f + c[0],
        ;
        assert((1 as real) * q == q);
    }
    lemma_exp2_close(l, f, n);
    let z = exp_series(f * l, 0, n);
    let g = size(y - z);
    assert(y * q - q * z == q * (y - z)) by (nonlinear_arith);
    assert(size(q * (y - z)) == q * g) by {
        let d = y - z;
        assert(d >= 0 as real ==> q * d >= 0 as real) by (nonlinear_arith)
            requires
                q > 0 as real,
        ;
        assert(d < 0 as real ==> q * d < 0 as real) by (nonlinear_arith)
            requires
                q > 0 as real,
        ;
        assert(-(q * d) == q * (-d)) by (nonlinear_arith);
    }
    assert((5000 as real) * (q * g) <= q) by (nonlinear_arith)
        requires
            q > 0 as real,
            g * (5000 as real) <= 1 as real,
    ;
}

} // verus!
