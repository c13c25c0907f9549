//! `f32` bit patterns: conversions from integers, and comparison.

use vstd::prelude::*;

verus! {

/// Two to the power `e`.
pub open spec fn two_to(e: nat) -> nat
    decreases e,
{
    if e == 0 {
        1
    } else {
        2 * two_to((e - 1) as nat)
    }
}

/// Position of the highest set bit; zero for zero and one.
pub open spec fn high_bit(n: nat) -> nat
    decreases n,
{
    if n < 2 {
        0
    } else {
        1 + high_bit(n / 2)
    }
}

/// Bits of the `f32` nearest to `n`, ties to even.
pub open spec fn nearest_float(n: nat) -> int {
    let e = high_bit(n);
    if n == 0 {
        0
    } else if e <= 23 {
        (e + 127) * 0x80_0000 + (n * two_to((23 - e) as nat) - 0x80_0000)
    } else {
        let unit = two_to((e - 23) as nat);
        let q = n / unit;
        let r = n % unit;
        let up: int = if 2 * r > unit || (2 * r == unit && q % 2 == 1) {
            1
        } else {
            0
        };
        (e + 127) * 0x80_0000 + (q - 0x80_0000) + up
    }
}

/// Bits of the `f32` nearest to `n`.
pub open spec fn float_bits(n: u32) -> u32 {
    nearest_float(n as nat) as u32
}

/// Not a number.
pub open spec fn is_nan(bits: u32) -> bool {
    bits % 0x8000_0000 > 0x7F80_0000
}

/// The place of an `f32` on the number line, an integer that orders as floats do.
pub open spec fn place(bits: u32) -> int {
    if bits < 0x8000_0000 {
        bits as int
    } else {
        -(bits % 0x8000_0000)
    }
}

/// `a == b` as floats: zeros of either sign are equal, and what is not a number
/// equals nothing.
pub open spec fn same(a: u32, b: u32) -> bool {
    !is_nan(a) && !is_nan(b) && place(a) == place(b)
}

/// Is `a == b` as floats?
pub(crate) fn is_same(a: u32, b: u32) -> (r: bool)
    ensures
        r == same(a, b),
{
    if a % 0x8000_0000 > 0x7F80_0000 || b % 0x8000_0000 > 0x7F80_0000 {
        return false;
    }
    a == b || (a % 0x8000_0000 == 0 && b % 0x8000_0000 == 0)
}

/// Integer part of the `f32` with the given bits, held to the range of `u32`;
/// zero for what is not a number.
pub open spec fn truncated(bits: u32) -> int {
    let exp = (bits / 0x80_0000) % 256;
    let man = bits % 0x80_0000;
    if bits >= 0x8000_0000 || exp < 127 || (exp == 255 && man != 0) {
        0
    } else if exp >= 159 {
        u32::MAX as int
    } else if exp >= 150 {
        (man + 0x80_0000) * two_to((exp - 150) as nat)
    } else {
        (man + 0x80_0000) / two_to((150 - exp) as nat) as int
    }
}

pub proof fn lemma_two_to_grows(a: nat, b: nat)
    requires
        a <= b,
    ensures
        1 <= two_to(a) <= two_to(b),
    decreases b,
{
    if a < b {
        lemma_two_to_grows(a, (b - 1) as nat);
    } else if a > 0 {
        lemma_two_to_grows((a - 1) as nat, (b - 1) as nat);
    }
}

pub proof fn lemma_two_to_sum(a: nat, b: nat)
    ensures
        two_to(a) * two_to(b) == two_to(a + b),
    decreases a,
{
    if a > 0 {
        lemma_two_to_sum((a - 1) as nat, b);
        let x = two_to((a - 1) as nat) as int;
        let y = two_to(b) as int;
        assert((2 * x) * y == 2 * (x * y)) by (nonlinear_arith);
        assert((a - 1) as nat + b == (a + b - 1) as nat);
    } else {
        assert(two_to(0) == 1);
        assert(1 * two_to(b) == two_to(b));
    }
}

pub proof fn lemma_small_powers()
    ensures
        two_to(8) == 256,
        two_to(9) == 512,
        two_to(23) == 0x80_0000,
        two_to(24) == 0x100_0000,
        two_to(32) == 0x1_0000_0000,
        two_to(63) == 0x8000_0000_0000_0000,
{
    reveal_with_fuel(two_to, 9);
    assert(two_to(8) == 256);
    assert(two_to(9) == 512);
    assert(two_to(16) == 65536) by {
        lemma_two_to_sum(8, 8);
    }
    assert(two_to(7) == 128);
    assert(two_to(23) == 0x80_0000) by {
        lemma_two_to_sum(16, 7);
    }
    assert(two_to(32) == 0x1_0000_0000) by {
        lemma_two_to_sum(16, 16);
    }
    assert(two_to(63) == 0x8000_0000_0000_0000) by {
        lemma_two_to_sum(32, 31);
        lemma_two_to_sum(16, 15);
        lemma_two_to_sum(8, 7);
    }
}

pub proof fn lemma_high_bit(n: nat)
    requires
        n > 0,
    ensures
        two_to(high_bit(n)) <= n < two_to(high_bit(n) + 1),
    decreases n,
{
    if n >= 2 {
        lemma_high_bit(n / 2);
    } else {
        assert(two_to(1) == 2 * two_to(0));
    }
}

/// Position of the highest set bit.
pub(crate) fn high_bit_of(n: u64) -> (e: u32)
    requires
        n < 0x1_0000_0000,
    ensures
        e == high_bit(n as nat),
        e < 32,
{
    let mut m: u64 = n;
    let mut e: u32 = 0;
    proof {
        lemma_small_powers();
        if n > 0 {
            lemma_high_bit(n as nat);
            if high_bit(n as nat) >= 32 {
                lemma_two_to_grows(32, high_bit(n as nat));
            }
        }
    }
    while m >= 2
        invariant
            high_bit(n as nat) == e + high_bit(m as nat),
            high_bit(n as nat) < 32,
        decreases m,
    {
        m = m / 2;
        e += 1;
    }
    e
}

/// Two to the power `e`.
pub(crate) fn power(e: u32) -> (p: u64)
    requires
        e <= 63,
    ensures
        p == two_to(e as nat),
        1 <= p <= 0x8000_0000_0000_0000,
        e <= 32 ==> p <= 0x1_0000_0000,
{
    let mut p: u64 = 1;
    let mut i: u32 = 0;
    proof {
        lemma_small_powers();
    }
    while i < e
        invariant
            i <= e <= 63,
            p == two_to(i as nat),
            two_to(63) == 0x8000_0000_0000_0000,
        decreases e - i,
    {
        proof {
            lemma_two_to_grows((i + 1) as nat, 63);
        }
        p = p * 2;
        i += 1;
    }
    proof {
        lemma_two_to_grows(e as nat, 63);
        if e <= 32 {
            lemma_two_to_grows(e as nat, 32);
        }
    }
    p
}

/// Bits of the `f32` nearest to `n`, ties to even.
pub fn float_from_u32(n: u32) -> (bits: u32)
    ensures
        bits == float_bits(n),
        bits == nearest_float(n as nat),
{
    if n == 0 {
        return 0;
    }
    let e: u32 = high_bit_of(n as u64);
    proof {
        lemma_small_powers();
        lemma_high_bit(n as nat);
    }
    if e <= 23 {
        let scale: u64 = power(23 - e);
        proof {
            lemma_two_to_sum(e as nat, (23 - e) as nat);
            lemma_two_to_sum((e + 1) as nat, (23 - e) as nat);
            let lo = two_to(e as nat) as int;
            let hi = two_to((e + 1) as nat) as int;
            let x = n as int;
            let s = scale as int;
            assert(lo * s <= x * s < hi * s) by (nonlinear_arith)
                requires
                    lo <= x < hi,
                    s >= 1,
            ;
        }
        let wide: u64 = n as u64 * scale;
        (e + 127) * 0x80_0000 + (wide - 0x80_0000) as u32
    } else {
        let unit: u64 = power(e - 23);
        let q: u64 = n as u64 / unit;
        let r: u64 = n as u64 % unit;
        proof {
            lemma_two_to_sum((e - 23) as nat, 23);
            lemma_two_to_sum((e - 23) as nat, 24);
            let x = n as int;
            let u = unit as int;
            assert(0x80_0000 <= x / u < 0x100_0000) by (nonlinear_arith)
                requires
                    u * 0x80_0000 <= x < u * 0x100_0000,
                    u >= 1,
            ;
            lemma_two_to_grows((e - 23) as nat, 9);
        }
        let up: u32 = if 2 * r > unit || (2 * r == unit && q % 2 == 1) {
            1
        } else {
            0
        };
        (e + 127) * 0x80_0000 + (q - 0x80_0000) as u32 + up
    }
}

/// Integer part of the `f32` with the given bits, held to the range of `u32`.
pub fn float_to_u32(bits: u32) -> (n: u32)
    ensures
        n == truncated(bits),
{
    let exp: u32 = (bits / 0x80_0000) % 256;
    let man: u32 = bits % 0x80_0000;
    if bits >= 0x8000_0000 || exp < 127 || (exp == 255 && man != 0) {
        0
    } else if exp >= 159 {
        u32::MAX
    } else if exp >= 150 {
        let scale: u64 = power(exp - 150);
        proof {
            lemma_small_powers();
            lemma_two_to_grows((exp - 150) as nat, 8);
            let x = (man + 0x80_0000) as int;
            let s = scale as int;
            assert(x * s < 0x1_0000_0000) by (nonlinear_arith)
                requires
                    0 <= x < 0x100_0000,
                    1 <= s <= 256,
            ;
        }
        ((man as u64 + 0x80_0000) * scale) as u32
    } else {
        let unit: u64 = power(150 - exp);
        let wide: u64 = man as u64 + 0x80_0000;
        proof {
            let x = wide as int;
            let u = unit as int;
            assert(0 <= x / u <= x) by (nonlinear_arith)
                requires
                    x >= 0,
                    u >= 1,
            ;
        }
        (wide / unit) as u32
    }
}

} // verus!
