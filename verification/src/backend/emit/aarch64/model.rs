//! What NEON machine code does: a machine that reads instruction words.

use crate::backend::emit::bytes::{read_appended_word, word_at, CodeBytes};
use crate::backend::emit::lane::{Lanes, Prim1, Prim2};
use vstd::prelude::*;

verus! {

/// Registers and memory. Memory is in vectors, by address.
#[verifier::reject_recursive_types(T)]
pub struct Cpu<T> {
    /// Vector registers.
    pub v: Map<u32, T>,
    /// General registers; 31 is the stack pointer.
    pub x: Map<u32, int>,
    /// Memory.
    pub mem: Map<int, T>,
}

impl<T> Cpu<T> {
    /// With a vector register replaced.
    pub open spec fn with_v(self, d: u32, a: T) -> Cpu<T> {
        Cpu { v: self.v.insert(d, a), ..self }
    }

    /// With a general register replaced.
    pub open spec fn with_x(self, d: u32, a: int) -> Cpu<T> {
        Cpu { x: self.x.insert(d, a), ..self }
    }
}

/// The operation of a word on three vectors, from its fixed bits.
pub open spec fn three(key: u32) -> Option<Prim2> {
    if key == 0x4E20D400 {
        Some(Prim2::Add)
    } else if key == 0x4EA0D400 {
        Some(Prim2::Sub)
    } else if key == 0x6E20DC00 {
        Some(Prim2::Mul)
    } else if key == 0x6E20FC00 {
        Some(Prim2::Div)
    } else if key == 0x4EA0F400 {
        Some(Prim2::Min)
    } else if key == 0x4E20F400 {
        Some(Prim2::Max)
    } else if key == 0x6EA0E400 {
        Some(Prim2::Greater)
    } else if key == 0x6E20E400 {
        Some(Prim2::GreaterOrEqual)
    } else if key == 0x4E20E400 {
        Some(Prim2::Equal)
    } else if key == 0x4EA08400 {
        Some(Prim2::AddInt)
    } else if key == 0x6EA08400 {
        Some(Prim2::SubInt)
    } else if key == 0x4E201C00 {
        Some(Prim2::And)
    } else if key == 0x4EA01C00 {
        Some(Prim2::Or)
    } else if key == 0x4E20FC00 {
        Some(Prim2::RecipStep)
    } else if key == 0x4EA0FC00 {
        Some(Prim2::RsqrtStep)
    } else {
        None
    }
}

/// The operation of a word on two vectors, from its fixed bits.
pub open spec fn two(key: u32) -> Option<Prim1> {
    if key == 0x6EA0F800 {
        Some(Prim1::Neg)
    } else if key == 0x4EA0F800 {
        Some(Prim1::Abs)
    } else if key == 0x6EA1F800 {
        Some(Prim1::Sqrt)
    } else if key == 0x6E205800 {
        Some(Prim1::Not)
    } else if key == 0x4E219800 {
        Some(Prim1::Floor)
    } else if key == 0x4EA18800 {
        Some(Prim1::Ceil)
    } else if key == 0x6E218800 {
        Some(Prim1::NearestAway)
    } else if key == 0x4EA1B800 {
        Some(Prim1::ToInt)
    } else if key == 0x4E21D800 {
        Some(Prim1::FromInt)
    } else if key == 0x4EA1D800 {
        Some(Prim1::RecipEstimate)
    } else if key == 0x6EA1D800 {
        Some(Prim1::RsqrtEstimate)
    } else {
        None
    }
}

/// The `f32` bits of an 8-bit immediate: a sign, three bits of exponent from -3 to 4,
/// and four bits of fraction.
pub open spec fn immediate(imm8: int) -> u32 {
    let sign = imm8 / 128;
    let code = (imm8 / 16) % 8;
    let exponent = if code < 4 {
        128 + code
    } else {
        120 + code
    };
    (sign * 0x8000_0000 + exponent * 0x80_0000 + (imm8 % 16) * 0x8_0000) as u32
}

/// After a word that is no branch.
pub open spec fn effect<T>(l: Lanes<T>, s: Cpu<T>, w: u32) -> Cpu<T> {
    let d = w & 31;
    let n = (w >> 5) & 31;
    let m = (w >> 16) & 31;
    let imm7 = (w >> 16) & 127;
    let imm12 = (w >> 10) & 0xFFF;
    let imm16 = (w >> 5) & 0xFFFF;
    let key3 = w & 0xFFE0FC00;
    let key2 = w & 0xFFFFFC00;
    let memory = w & 0xFFC00000;
    if let Some(p) = three(key3) {
        if p is Or && n == m {
            s.with_v(d, s.v[n])
        } else {
            s.with_v(d, (l.two)(p, s.v[n], s.v[m]))
        }
    } else if key3 == 0x4E20CC00 {
        s.with_v(d, (l.fused)(s.v[n], s.v[m], s.v[d]))
    } else if key3 == 0x6E601C00 {
        s.with_v(d, (l.select)(s.v[d], s.v[n], s.v[m]))
    } else if let Some(p) = two(key2) {
        s.with_v(d, (l.one)(p, s.v[n]))
    } else if key2 == 0x6EB0A800 {
        s.with_v(d, (l.scalar)((l.largest)(s.v[n])))
    } else if key2 == 0x6EB1A800 {
        s.with_v(d, (l.scalar)((l.least)(s.v[n])))
    } else if key2 == 0x1E260000 {
        s.with_x(d, (l.low)(s.v[n]) as int)
    } else if key2 == 0x4E040C00 {
        s.with_v(d, (l.constant)(s.x[n] as u32))
    } else if w & 0xFFA0FC00 == 0x6F200400 {
        s.with_v(d, (l.shr)(s.v[n], (64 - imm7) as u8))
    } else if w & 0xFFA0FC00 == 0x4F205400 {
        s.with_v(d, (l.shl)(s.v[n], (imm7 - 32) as u8))
    } else if w & 0xFFF8FC00 == 0x4F00F400 {
        s.with_v(d, (l.constant)(immediate(((w >> 16) & 7) * 32 + n)))
    } else if w & 0xFFFFFFE0 == 0x4F000400 {
        s.with_v(d, (l.constant)(0))
    } else if w & 0xFFE00000 == 0x52800000 {
        s.with_x(d, imm16 as int)
    } else if w & 0xFFE00000 == 0x72A00000 {
        s.with_x(d, s.x[d] % 0x1_0000 + imm16 * 0x1_0000)
    } else if memory == 0x3DC00000 {
        s.with_v(d, s.mem[s.x[n] + 16 * imm12])
    } else if memory == 0x3D800000 {
        Cpu { mem: s.mem.insert(s.x[n] + 16 * imm12, s.v[d]), ..s }
    } else if memory == 0x91000000 {
        s.with_x(d, s.x[n] + imm12)
    } else if memory == 0xD1000000 {
        s.with_x(d, s.x[n] - imm12)
    } else if w == 0x2A3003F0 {
        s.with_x(16, (0xFFFF_FFFF - s.x[16]) as int)
    } else {
        arbitrary()
    }
}

/// A 19-bit field as a number.
pub open spec fn signed19(f: u32) -> int {
    if f < 0x4_0000 {
        f as int
    } else {
        f - 0x8_0000
    }
}

/// A 26-bit field as a number.
pub open spec fn signed26(f: u32) -> int {
    if f < 0x200_0000 {
        f as int
    } else {
        f - 0x400_0000
    }
}

/// After the word at a position: the next position, and the machine.
pub open spec fn step<T>(l: Lanes<T>, code: Seq<u8>, pc: int, s: Cpu<T>) -> (int, Cpu<T>) {
    let w = word_at(code, pc);
    let x = s.x[w & 31];
    let near = pc + 4 * signed19((w >> 5) & 0x7FFFF);
    if w & 0xFF000000 == 0x34000000 {
        if x == 0 {
            (near, s)
        } else {
            (pc + 4, s)
        }
    } else if w & 0xFC000000 == 0x14000000 {
        (pc + 4 * signed26(w & 0x3FFFFFF), s)
    } else {
        (pc + 4, effect(l, s, w))
    }
}

/// After `n` words.
pub open spec fn steps<T>(l: Lanes<T>, code: Seq<u8>, pc: int, s: Cpu<T>, n: nat) -> (int, Cpu<T>)
    decreases n,
{
    if n == 0 {
        (pc, s)
    } else {
        let (p, t) = steps(l, code, pc, s, (n - 1) as nat);
        step(l, code, p, t)
    }
}

/// Running from one position to another changes `s` to `t`.
pub open spec fn arrives<T>(
    l: Lanes<T>,
    code: Seq<u8>,
    from: int,
    s: Cpu<T>,
    to: int,
    t: Cpu<T>,
) -> bool {
    exists|n: nat| #[trigger] steps(l, code, from, s, n) == (to, t)
}

/// What was appended to `a` to make `b`, whatever follows, changes `s` to `t` and goes on
/// behind it.
pub open spec fn does<T>(l: Lanes<T>, a: Seq<u8>, b: Seq<u8>, s: Cpu<T>, t: Cpu<T>) -> bool {
    &&& a.is_prefix_of(b)
    &&& forall|code: Seq<u8>| #[trigger]
        b.is_prefix_of(code) ==> arrives(l, code, a.len() as int, s, b.len() as int, t)
}

proof fn lemma_more_steps<T>(l: Lanes<T>, code: Seq<u8>, pc: int, s: Cpu<T>, a: nat, b: nat)
    ensures
        ({
            let (p, t) = steps(l, code, pc, s, a);
            steps(l, code, pc, s, a + b) == steps(l, code, p, t, b)
        }),
    decreases b,
{
    if b > 0 {
        lemma_more_steps(l, code, pc, s, a, (b - 1) as nat);
    }
}

/// One run after another.
pub proof fn lemma_arrives<T>(
    l: Lanes<T>,
    code: Seq<u8>,
    p: int,
    s: Cpu<T>,
    q: int,
    t: Cpu<T>,
    r: int,
    u: Cpu<T>,
)
    requires
        arrives(l, code, p, s, q, t),
        arrives(l, code, q, t, r, u),
    ensures
        arrives(l, code, p, s, r, u),
{
    let a = choose|n: nat| #[trigger] steps(l, code, p, s, n) == (q, t);
    let b = choose|n: nat| #[trigger] steps(l, code, q, t, n) == (r, u);
    lemma_more_steps(l, code, p, s, a, b);
    assert(steps(l, code, p, s, a + b) == (r, u));
}

/// Code appended in two parts runs one part after the other.
pub proof fn lemma_does<T>(
    l: Lanes<T>,
    a: Seq<u8>,
    b: Seq<u8>,
    c: Seq<u8>,
    s: Cpu<T>,
    t: Cpu<T>,
    u: Cpu<T>,
)
    requires
        does(l, a, b, s, t),
        does(l, b, c, t, u),
    ensures
        does(l, a, c, s, u),
{
    assert forall|code: Seq<u8>| #[trigger] c.is_prefix_of(code) implies arrives(
        l,
        code,
        a.len() as int,
        s,
        c.len() as int,
        u,
    ) by {
        assert(b.is_prefix_of(code));
        lemma_arrives(l, code, a.len() as int, s, b.len() as int, t, c.len() as int, u);
    }
}

/// Nothing appended does nothing.
pub proof fn lemma_idle<T>(l: Lanes<T>, a: Seq<u8>, s: Cpu<T>)
    ensures
        does(l, a, a, s, s),
{
    assert forall|code: Seq<u8>| #[trigger] a.is_prefix_of(code) implies arrives(
        l,
        code,
        a.len() as int,
        s,
        a.len() as int,
        s,
    ) by {
        assert(steps(l, code, a.len() as int, s, 0) == (a.len() as int, s));
    }
}

/// The word is no branch.
pub open spec fn plain(w: u32) -> bool {
    w & 0xFF000000 != 0x34000000 && w & 0xFC000000 != 0x14000000
}

/// A word that is no branch has its effect.
pub proof fn lemma_word<T>(l: Lanes<T>, code: Seq<u8>, w: u32, s: Cpu<T>)
    requires
        plain(w),
    ensures
        does(l, code, code.inst(w), s, effect(l, s, w)),
{
    let b = code.inst(w);
    read_appended_word(code, w);
    assert(code.is_prefix_of(b));
    assert forall|all: Seq<u8>| #[trigger] b.is_prefix_of(all) implies arrives(
        l,
        all,
        code.len() as int,
        s,
        b.len() as int,
        effect(l, s, w),
    ) by {
        assert(word_at(all, code.len() as int) == word_at(b, code.len() as int));
        reveal_with_fuel(steps, 2);
        assert(steps(l, all, code.len() as int, s, 1) == (b.len() as int, effect(l, s, w)));
    }
}

} // verus!
