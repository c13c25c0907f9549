//! What vector instructions compute, apart from how they are encoded.

use crate::kind::OpKind;
use crate::number::{is_nan, place, same};
use vstd::prelude::*;

verus! {

/// Operations of machine instructions on one vector.
pub enum Prim1 {
    Neg,
    Abs,
    Not,
    Sqrt,
    Floor,
    Ceil,
    /// To nearest, ties to even.
    Nearest,
    /// To nearest, ties away from zero.
    NearestAway,
    /// Float to signed integer, toward zero.
    ToInt,
    /// Signed integer to float.
    FromInt,
    RecipEstimate,
    RsqrtEstimate,
}

/// Operations of machine instructions on two vectors.
pub enum Prim2 {
    Add,
    Sub,
    Mul,
    Div,
    Min,
    Max,
    Equal,
    NotEqual,
    Less,
    LessOrEqual,
    Greater,
    GreaterOrEqual,
    /// The complement of `Less`: true of what is not a number.
    NotLess,
    /// The complement of `LessOrEqual`.
    NotLessOrEqual,
    AddInt,
    SubInt,
    And,
    /// The complement of the first and the second.
    AndNot,
    Or,
    Xor,
    /// `2 - a * b`.
    RecipStep,
    /// `(3 - a * b) / 2`.
    RsqrtStep,
}

/// What the instructions compute, on vectors of some kind.
#[verifier::reject_recursive_types(T)]
pub struct Lanes<T> {
    /// A 32-bit pattern in every lane.
    pub constant: spec_fn(u32) -> T,
    pub one: spec_fn(Prim1, T) -> T,
    pub two: spec_fn(Prim2, T, T) -> T,
    /// Logical shift left of each lane.
    pub shl: spec_fn(T, u8) -> T,
    /// Logical shift right of each lane.
    pub shr: spec_fn(T, u8) -> T,
    /// `a * b + c`, rounded once.
    pub fused: spec_fn(T, T, T) -> T,
    /// Where the first has ones the second, else the third.
    pub select: spec_fn(T, T, T) -> T,
    /// The largest lane, as an unsigned number.
    pub largest: spec_fn(T) -> u32,
    /// The least lane, as an unsigned number.
    pub least: spec_fn(T) -> u32,
    /// The sign bits of the lanes, lane 0 lowest.
    pub signs: spec_fn(T) -> u32,
    /// Which lanes are not zero, lane 0 lowest.
    pub nonzero: spec_fn(T) -> u32,
    /// A number in lane 0, zeros elsewhere.
    pub scalar: spec_fn(u32) -> T,
    /// Lane 0.
    pub low: spec_fn(T) -> u32,
    /// The mask whose lanes are chosen by a number's bits, lane 0 lowest.
    pub spread: spec_fn(u32) -> T,
}

/// All ones or zero.
pub open spec fn mask(b: bool) -> u32 {
    if b {
        0xFFFF_FFFF
    } else {
        0
    }
}

/// `a < b` as floats.
pub open spec fn less(a: u32, b: u32) -> bool {
    !is_nan(a) && !is_nan(b) && place(a) < place(b)
}

/// `a <= b` as floats.
pub open spec fn less_or_equal(a: u32, b: u32) -> bool {
    !is_nan(a) && !is_nan(b) && place(a) <= place(b)
}

/// The arithmetic of floats, on their bits. Nothing is said of it.
pub struct Floats {
    pub one: spec_fn(Prim1, u32) -> u32,
    pub two: spec_fn(Prim2, u32, u32) -> u32,
    pub fused: spec_fn(u32, u32, u32) -> u32,
}

impl Floats {
    /// One operand: signs and complements are exact, the rest is arithmetic.
    pub open spec fn of_one(self, p: Prim1, a: u32) -> u32 {
        match p {
            Prim1::Neg => a ^ 0x8000_0000,
            Prim1::Abs => a & 0x7FFF_FFFF,
            Prim1::Not => !a,
            _ => (self.one)(p, a),
        }
    }

    /// Two operands: comparisons are masks, integers wrap, the rest is arithmetic.
    pub open spec fn of_two(self, p: Prim2, a: u32, b: u32) -> u32 {
        match p {
            Prim2::Equal => mask(same(a, b)),
            Prim2::NotEqual => mask(!same(a, b)),
            Prim2::Less => mask(less(a, b)),
            Prim2::LessOrEqual => mask(less_or_equal(a, b)),
            Prim2::Greater => mask(less(b, a)),
            Prim2::GreaterOrEqual => mask(less_or_equal(b, a)),
            Prim2::NotLess => mask(!less(a, b)),
            Prim2::NotLessOrEqual => mask(!less_or_equal(a, b)),
            Prim2::AddInt => ((a + b) % 0x1_0000_0000) as u32,
            Prim2::SubInt => ((a - b) % 0x1_0000_0000) as u32,
            Prim2::And => a & b,
            Prim2::AndNot => !a & b,
            Prim2::Or => a | b,
            Prim2::Xor => a ^ b,
            _ => (self.two)(p, a, b),
        }
    }

    /// Vectors of 32-bit lanes, on which every instruction works lane by lane. `n` of the
    /// lanes are looked at by what looks across them.
    pub open spec fn lanes(self, n: nat) -> Lanes<Vector> {
        Lanes {
            constant: |bits: u32| |i: int| bits,
            one: |p: Prim1, a: Vector| |i: int| self.of_one(p, a(i)),
            two: |p: Prim2, a: Vector, b: Vector| |i: int| self.of_two(p, a(i), b(i)),
            shl: |a: Vector, k: u8| |i: int| a(i) << k,
            shr: |a: Vector, k: u8| |i: int| a(i) >> k,
            fused: |a: Vector, b: Vector, c: Vector| |i: int| (self.fused)(a(i), b(i), c(i)),
            select: |m: Vector, a: Vector, b: Vector| |i: int| (m(i) & a(i)) | (!m(i) & b(i)),
            largest: |a: Vector| extreme(a, n, true),
            least: |a: Vector| extreme(a, n, false),
            signs: |a: Vector| bits_where(|i: int| a(i) >= 0x8000_0000, n) as u32,
            nonzero: |a: Vector| bits_where(|i: int| a(i) != 0, n) as u32,
            scalar: |w: u32|
                |i: int|
                    if i == 0 {
                        w
                    } else {
                        0
                    },
            low: |a: Vector| a(0),
            spread: |w: u32|
                |i: int| mask((w as nat / crate::number::two_to(i as nat)) % 2 == 1),
        }
    }
}

/// The lanes of a vector.
pub type Vector = spec_fn(int) -> u32;

/// The largest or the least of the first `n` lanes.
pub open spec fn extreme(a: Vector, n: nat, largest: bool) -> u32
    decreases n,
{
    if n <= 1 {
        a(0)
    } else {
        let rest = extreme(a, (n - 1) as nat, largest);
        if (a(n - 1) > rest) == largest {
            a(n - 1)
        } else {
            rest
        }
    }
}

/// The number whose bit `i` is set if lane `i` has the property.
pub open spec fn bits_where(p: spec_fn(int) -> bool, n: nat) -> nat
    decreases n,
{
    if n == 0 {
        0
    } else {
        let rest = bits_where(p, (n - 1) as nat);
        if p(n - 1) {
            rest + crate::number::two_to((n - 1) as nat)
        } else {
            rest
        }
    }
}

/// How a machine treats what is not a number, and how it rounds and estimates.
#[derive(Clone, Copy, PartialEq, Eq, Structural, Debug)]
pub enum Dialect {
    /// NEON.
    Neon,
    /// SSE, AVX and AVX-512.
    X86,
}

impl<T> Lanes<T> {
    /// What a unary operation computes.
    pub open spec fn unary(self, d: Dialect, op: OpKind, a: T) -> T {
        match op {
            OpKind::Neg => (self.one)(Prim1::Neg, a),
            OpKind::Abs => (self.one)(Prim1::Abs, a),
            OpKind::Sqrt => (self.one)(Prim1::Sqrt, a),
            OpKind::Floor => (self.one)(Prim1::Floor, a),
            OpKind::Ceil => (self.one)(Prim1::Ceil, a),
            OpKind::Round => match d {
                Dialect::Neon => (self.one)(Prim1::NearestAway, a),
                Dialect::X86 => (self.one)(Prim1::Nearest, a),
            },
            OpKind::Fract => (self.two)(Prim2::Sub, a, (self.one)(Prim1::Floor, a)),
            OpKind::TruncToInt => (self.one)(Prim1::ToInt, a),
            OpKind::IntToFloat => (self.one)(Prim1::FromInt, a),
            OpKind::Recip => match d {
                Dialect::Neon => {
                    let e = (self.one)(Prim1::RecipEstimate, a);
                    (self.two)(Prim2::Mul, e, (self.two)(Prim2::RecipStep, a, e))
                },
                Dialect::X86 => (self.one)(Prim1::RecipEstimate, a),
            },
            OpKind::Rsqrt => match d {
                Dialect::Neon => {
                    let e = (self.one)(Prim1::RsqrtEstimate, a);
                    (self.two)(
                        Prim2::Mul,
                        e,
                        (self.two)(Prim2::RsqrtStep, a, (self.two)(Prim2::Mul, e, e)),
                    )
                },
                Dialect::X86 => (self.one)(Prim1::RsqrtEstimate, a),
            },
            _ => arbitrary(),
        }
    }

    /// What a binary operation computes. Of what is not a number, x86 says that it is
    /// greater, NEON that it is not.
    pub open spec fn binary(self, d: Dialect, op: OpKind, a: T, b: T) -> T {
        match op {
            OpKind::Add => (self.two)(Prim2::Add, a, b),
            OpKind::Sub => (self.two)(Prim2::Sub, a, b),
            OpKind::Mul => (self.two)(Prim2::Mul, a, b),
            OpKind::Div => (self.two)(Prim2::Div, a, b),
            OpKind::Min => (self.two)(Prim2::Min, a, b),
            OpKind::Max => (self.two)(Prim2::Max, a, b),
            OpKind::Eq => (self.two)(Prim2::Equal, a, b),
            OpKind::Ne => (self.two)(Prim2::NotEqual, a, b),
            OpKind::Lt => (self.two)(Prim2::Less, a, b),
            OpKind::Le => (self.two)(Prim2::LessOrEqual, a, b),
            OpKind::Gt => match d {
                Dialect::Neon => (self.two)(Prim2::Greater, a, b),
                Dialect::X86 => (self.two)(Prim2::NotLessOrEqual, a, b),
            },
            OpKind::Ge => match d {
                Dialect::Neon => (self.two)(Prim2::GreaterOrEqual, a, b),
                Dialect::X86 => (self.two)(Prim2::NotLess, a, b),
            },
            OpKind::IAdd => (self.two)(Prim2::AddInt, a, b),
            OpKind::BitAnd => (self.two)(Prim2::And, a, b),
            OpKind::BitOr => (self.two)(Prim2::Or, a, b),
            OpKind::Hypot => match d {
                Dialect::Neon => (self.one)(
                    Prim1::Sqrt,
                    (self.fused)(b, b, (self.two)(Prim2::Mul, a, a)),
                ),
                Dialect::X86 => (self.one)(
                    Prim1::Sqrt,
                    (self.two)(
                        Prim2::Add,
                        (self.two)(Prim2::Mul, b, b),
                        (self.two)(Prim2::Mul, a, a),
                    ),
                ),
            },
            _ => arbitrary(),
        }
    }

    /// The primitives agree with each other: comparisons are mirrored and complemented,
    /// a sign is flipped by XOR and cleared by AND, a choice is built from masks, and
    /// the operands of what commutes may be swapped.
    pub open spec fn coherent(self) -> bool {
        &&& forall|a: T, b: T| #[trigger]
            (self.two)(Prim2::Greater, a, b) == (self.two)(Prim2::Less, b, a)
        &&& forall|a: T, b: T| #[trigger]
            (self.two)(Prim2::GreaterOrEqual, a, b) == (self.two)(Prim2::LessOrEqual, b, a)
        &&& forall|a: T, b: T| #[trigger]
            (self.two)(Prim2::NotEqual, a, b) == (self.one)(
                Prim1::Not,
                (self.two)(Prim2::Equal, a, b),
            )
        &&& forall|a: T| #[trigger]
            (self.one)(Prim1::Neg, a) == (self.two)(Prim2::Xor, a, (self.constant)(0x8000_0000))
        &&& forall|a: T| #[trigger]
            (self.one)(Prim1::Abs, a) == (self.two)(Prim2::And, a, (self.constant)(0x7FFF_FFFF))
        &&& forall|a: T, b: T| #[trigger]
            (self.two)(Prim2::Xor, a, b) == (self.two)(Prim2::Xor, b, a)
        &&& forall|a: T, b: T| #[trigger]
            (self.two)(Prim2::And, a, b) == (self.two)(Prim2::And, b, a)
        &&& forall|a: T, b: T, c: T| #[trigger]
            (self.select)(a, b, c) == (self.two)(
                Prim2::Or,
                (self.two)(Prim2::And, a, b),
                (self.two)(Prim2::AndNot, a, c),
            )
        &&& forall|a: T| #[trigger] (self.two)(Prim2::Xor, a, a) == (self.constant)(0)
        &&& forall|a: T| #[trigger] (self.two)(Prim2::Or, a, a) == a
        &&& forall|w: u32| #[trigger] (self.low)((self.scalar)(w)) == w
    }

    /// Sums, products, minima, maxima and equalities do not depend on the order of their
    /// operands.
    pub open spec fn commuting(self) -> bool {
        &&& forall|a: T, b: T| #[trigger]
            (self.two)(Prim2::Add, a, b) == (self.two)(Prim2::Add, b, a)
        &&& forall|a: T, b: T| #[trigger]
            (self.two)(Prim2::Mul, a, b) == (self.two)(Prim2::Mul, b, a)
        &&& forall|a: T, b: T| #[trigger]
            (self.two)(Prim2::Min, a, b) == (self.two)(Prim2::Min, b, a)
        &&& forall|a: T, b: T| #[trigger]
            (self.two)(Prim2::Max, a, b) == (self.two)(Prim2::Max, b, a)
        &&& forall|a: T, b: T| #[trigger]
            (self.two)(Prim2::Equal, a, b) == (self.two)(Prim2::Equal, b, a)
        &&& forall|a: T, b: T| #[trigger]
            (self.two)(Prim2::NotEqual, a, b) == (self.two)(Prim2::NotEqual, b, a)
    }
}

/// The largest lane is zero only if every lane is, and the least is all ones only if every
/// lane is.
pub proof fn extremes_tell_of_every_lane(a: Vector, n: nat)
    requires
        1 <= n,
    ensures
        extreme(a, n, true) == 0 <==> forall|i: int| 0 <= i < n ==> #[trigger] a(i) == 0,
        extreme(a, n, false) == 0xFFFF_FFFF <==> forall|i: int|
            0 <= i < n ==> #[trigger] a(i) == 0xFFFF_FFFF,
    decreases n,
{
    if n > 1 {
        extremes_tell_of_every_lane(a, (n - 1) as nat);
        assert(extreme(a, n, true) == 0 ==> a(n - 1) == 0);
        assert(extreme(a, n, false) == 0xFFFF_FFFF ==> a(n - 1) == 0xFFFF_FFFF);
    } else {
        assert(a(0) == extreme(a, n, true) && a(0) == extreme(a, n, false));
    }
}

proof fn lemma_bits_where(p: spec_fn(int) -> bool, n: nat)
    ensures
        bits_where(p, n) < crate::number::two_to(n),
        bits_where(p, n) == 0 <==> forall|i: int| 0 <= i < n ==> !#[trigger] p(i),
        bits_where(p, n) == crate::number::two_to(n) - 1 <==> forall|i: int|
            0 <= i < n ==> #[trigger] p(i),
    decreases n,
{
    if n > 0 {
        lemma_bits_where(p, (n - 1) as nat);
        crate::number::lemma_two_to_grows(0, (n - 1) as nat);
        assert(bits_where(p, n) == 0 ==> !p(n - 1));
        assert(bits_where(p, n) == crate::number::two_to(n) - 1 ==> p(n - 1));
    }
}

/// Each bit tells of its lane.
proof fn lemma_bit_of_lane(p: spec_fn(int) -> bool, n: nat, i: nat)
    requires
        i < n,
    ensures
        (bits_where(p, n) / crate::number::two_to(i)) % 2 == 1 <==> p(i as int),
    decreases n,
{
    let m = (n - 1) as nat;
    let rest = bits_where(p, m);
    let d = crate::number::two_to(i);
    lemma_bits_where(p, m);
    crate::number::lemma_two_to_grows(0, i);
    let j: int = if p(n - 1) {
        1
    } else {
        0
    };
    if i == m {
        vstd::arithmetic::div_mod::lemma_hoist_over_denominator(rest as int, j, d);
        assert(rest as int / d as int == 0) by (nonlinear_arith)
            requires
                0 <= rest < d,
        ;
    } else {
        lemma_bit_of_lane(p, m, i);
        let e = crate::number::two_to((m - i - 1) as nat);
        crate::number::lemma_two_to_sum(i, (m - i) as nat);
        assert(crate::number::two_to((m - i) as nat) == 2 * e);
        vstd::arithmetic::div_mod::lemma_hoist_over_denominator(rest as int, j * (2 * e), d);
        assert((j * (2 * e)) * d == j * (d * (2 * e))) by (nonlinear_arith);
        assert(bits_where(p, n) == rest + j * (d * (2 * e)));
        let q: int = rest as int / d as int;
        assert((q + j * (2 * e)) % 2 == q % 2) by (nonlinear_arith)
            requires
                j == 0 || j == 1,
        ;
    }
}

/// A mask register spread over the lanes is all ones in the lanes whose bit is set and zero in
/// the others.
pub proof fn spread_bits_are_masks(f: Floats, a: Vector, i: int)
    requires
        0 <= i < 16,
    ensures
        (f.lanes(16).spread)((f.lanes(16).nonzero)(a))(i) == mask(a(i) != 0),
{
    let q = |i: int| a(i) != 0;
    lemma_bits_where(q, 16);
    lemma_bit_of_lane(q, 16, i as nat);
    reveal_with_fuel(crate::number::two_to, 17);
}

/// Sign bits tell of every lane: none is set if no lane is negative, all four if all four
/// are. So do the bits of sixteen lanes that are not zero.
pub proof fn lane_bits_tell_of_every_lane(f: Floats, a: Vector)
    ensures
        (f.lanes(4).signs)(a) == 0 <==> forall|i: int| 0 <= i < 4 ==> #[trigger] a(i) < 0x8000_0000,
        (f.lanes(4).signs)(a) == 15 <==> forall|i: int|
            0 <= i < 4 ==> #[trigger] a(i) >= 0x8000_0000,
        (f.lanes(16).nonzero)(a) == 0 <==> forall|i: int| 0 <= i < 16 ==> #[trigger] a(i) == 0,
        (f.lanes(16).nonzero)(a) == 0xFFFF <==> forall|i: int|
            0 <= i < 16 ==> #[trigger] a(i) != 0,
{
    let p = |i: int| a(i) >= 0x8000_0000;
    let q = |i: int| a(i) != 0;
    lemma_bits_where(p, 4);
    lemma_bits_where(q, 16);
    reveal_with_fuel(crate::number::two_to, 17);
    assert(forall|i: int| p(i) == (#[trigger] a(i) >= 0x8000_0000));
    assert(forall|i: int| q(i) == (#[trigger] a(i) != 0));
    assert((forall|i: int| 0 <= i < 4 ==> #[trigger] a(i) < 0x8000_0000) <==> forall|i: int|
        0 <= i < 4 ==> !#[trigger] p(i));
    assert((forall|i: int| 0 <= i < 4 ==> #[trigger] a(i) >= 0x8000_0000) <==> forall|i: int|
        0 <= i < 4 ==> #[trigger] p(i));
    assert((forall|i: int| 0 <= i < 16 ==> #[trigger] a(i) == 0) <==> forall|i: int|
        0 <= i < 16 ==> !#[trigger] q(i));
    assert((forall|i: int| 0 <= i < 16 ==> #[trigger] a(i) != 0) <==> forall|i: int|
        0 <= i < 16 ==> #[trigger] q(i));
}

/// Vectors of 32-bit lanes are coherent.
pub proof fn lanes_are_coherent(f: Floats, n: nat)
    ensures
        f.lanes(n).coherent(),
{
    let l = f.lanes(n);
    assert forall|x: u32, y: u32| (#[trigger] (x ^ y)) == y ^ x by {
        assert((x ^ y) == y ^ x) by (bit_vector);
    }
    assert forall|x: u32, y: u32| (#[trigger] (x & y)) == y & x by {
        assert((x & y) == y & x) by (bit_vector);
    }
    assert forall|x: u32| (#[trigger] (x ^ x)) == 0 && (x | x) == x && !0u32 == 0xFFFF_FFFF
        && !0xFFFF_FFFFu32 == 0 by {
        assert((x ^ x) == 0 && (x | x) == x && !0u32 == 0xFFFF_FFFF && !0xFFFF_FFFFu32 == 0)
            by (bit_vector);
    }
    assert(!0u32 == 0xFFFF_FFFF && !0xFFFF_FFFFu32 == 0) by {
        assert(0u32 ^ 0u32 == 0);
    }
    assert forall|a: Vector, b: Vector| #[trigger]
        (l.two)(Prim2::Greater, a, b) == (l.two)(Prim2::Less, b, a) by {
        assert((l.two)(Prim2::Greater, a, b) =~= (l.two)(Prim2::Less, b, a));
    }
    assert forall|a: Vector, b: Vector| #[trigger]
        (l.two)(Prim2::GreaterOrEqual, a, b) == (l.two)(Prim2::LessOrEqual, b, a) by {
        assert((l.two)(Prim2::GreaterOrEqual, a, b) =~= (l.two)(Prim2::LessOrEqual, b, a));
    }
    assert forall|a: Vector, b: Vector| #[trigger]
        (l.two)(Prim2::NotEqual, a, b) == (l.one)(Prim1::Not, (l.two)(Prim2::Equal, a, b)) by {
        assert((l.two)(Prim2::NotEqual, a, b) =~= (l.one)(Prim1::Not, (l.two)(Prim2::Equal, a, b)));
    }
    assert forall|a: Vector| #[trigger]
        (l.one)(Prim1::Neg, a) == (l.two)(Prim2::Xor, a, (l.constant)(0x8000_0000)) by {
        assert((l.one)(Prim1::Neg, a) =~= (l.two)(Prim2::Xor, a, (l.constant)(0x8000_0000)));
    }
    assert forall|a: Vector| #[trigger]
        (l.one)(Prim1::Abs, a) == (l.two)(Prim2::And, a, (l.constant)(0x7FFF_FFFF)) by {
        assert((l.one)(Prim1::Abs, a) =~= (l.two)(Prim2::And, a, (l.constant)(0x7FFF_FFFF)));
    }
    assert forall|a: Vector, b: Vector| #[trigger]
        (l.two)(Prim2::Xor, a, b) == (l.two)(Prim2::Xor, b, a) by {
        assert((l.two)(Prim2::Xor, a, b) =~= (l.two)(Prim2::Xor, b, a));
    }
    assert forall|a: Vector, b: Vector| #[trigger]
        (l.two)(Prim2::And, a, b) == (l.two)(Prim2::And, b, a) by {
        assert((l.two)(Prim2::And, a, b) =~= (l.two)(Prim2::And, b, a));
    }
    assert forall|a: Vector, b: Vector, c: Vector| #[trigger] (l.select)(a, b, c) == (l.two)(
        Prim2::Or,
        (l.two)(Prim2::And, a, b),
        (l.two)(Prim2::AndNot, a, c),
    ) by {
        assert((l.select)(a, b, c) =~= (l.two)(
            Prim2::Or,
            (l.two)(Prim2::And, a, b),
            (l.two)(Prim2::AndNot, a, c),
        ));
    }
    assert forall|a: Vector| #[trigger] (l.two)(Prim2::Xor, a, a) == (l.constant)(0) by {
        assert((l.two)(Prim2::Xor, a, a) =~= (l.constant)(0));
    }
    assert forall|a: Vector| #[trigger] (l.two)(Prim2::Or, a, a) == a by {
        assert forall|i: int| #[trigger] (l.two)(Prim2::Or, a, a)(i) == a(i) by {
            assert(a(i) ^ a(i) == 0);
        }
        assert((l.two)(Prim2::Or, a, a) =~= a);
    }
}

/// What comparisons leave in each lane: all ones where the comparison holds of two
/// numbers, else zeros.
pub proof fn comparisons_are_masks(f: Floats, d: Dialect, a: Vector, b: Vector, i: int)
    requires
        !is_nan(a(i)),
        !is_nan(b(i)),
    ensures
        f.lanes(4).binary(d, OpKind::Lt, a, b)(i) == mask(place(a(i)) < place(b(i))),
        f.lanes(4).binary(d, OpKind::Le, a, b)(i) == mask(place(a(i)) <= place(b(i))),
        f.lanes(4).binary(d, OpKind::Gt, a, b)(i) == mask(place(a(i)) > place(b(i))),
        f.lanes(4).binary(d, OpKind::Ge, a, b)(i) == mask(place(a(i)) >= place(b(i))),
        f.lanes(4).binary(d, OpKind::Eq, a, b)(i) == mask(place(a(i)) == place(b(i))),
        f.lanes(4).binary(d, OpKind::Ne, a, b)(i) == mask(place(a(i)) != place(b(i))),
{
}

} // verus!
