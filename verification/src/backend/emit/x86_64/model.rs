//! What x86-64 machine code does: a machine that reads instruction bytes.

use crate::backend::emit::bytes::word_at;
use crate::backend::emit::lane::{Lanes, Prim1, Prim2};
use vstd::prelude::*;

verus! {

/// Registers, flags and memory. Memory is in vectors, by address; the word below the stack
/// pointer that constants pass through is kept apart.
#[verifier::reject_recursive_types(T)]
pub struct Cpu<T> {
    /// Vector registers.
    pub v: Map<int, T>,
    /// Mask registers.
    pub k: Map<int, u32>,
    /// EAX.
    pub eax: u32,
    /// The zero flag.
    pub zero: bool,
    /// The carry flag.
    pub carry: bool,
    /// The stack pointer.
    pub rsp: int,
    /// Memory.
    pub mem: Map<int, T>,
    /// The word four bytes below the stack pointer.
    pub below: u32,
}

impl<T> Cpu<T> {
    /// With a vector register replaced.
    pub open spec fn with_v(self, d: int, a: T) -> Cpu<T> {
        Cpu { v: self.v.insert(d, a), ..self }
    }
}

/// Arithmetic and logic on packed floats, by opcode; a copy is left out.
pub open spec fn packed(opcode: u8) -> Option<Prim2> {
    if opcode == 0x54 {
        Some(Prim2::And)
    } else if opcode == 0x55 {
        Some(Prim2::AndNot)
    } else if opcode == 0x56 {
        Some(Prim2::Or)
    } else if opcode == 0x57 {
        Some(Prim2::Xor)
    } else if opcode == 0x58 {
        Some(Prim2::Add)
    } else if opcode == 0x59 {
        Some(Prim2::Mul)
    } else if opcode == 0x5C {
        Some(Prim2::Sub)
    } else if opcode == 0x5D {
        Some(Prim2::Min)
    } else if opcode == 0x5E {
        Some(Prim2::Div)
    } else if opcode == 0x5F {
        Some(Prim2::Max)
    } else {
        None
    }
}

/// Comparison predicates.
pub open spec fn comparison(imm: u8) -> Option<Prim2> {
    if imm == 0 {
        Some(Prim2::Equal)
    } else if imm == 1 {
        Some(Prim2::Less)
    } else if imm == 2 {
        Some(Prim2::LessOrEqual)
    } else if imm == 4 {
        Some(Prim2::NotEqual)
    } else if imm == 5 {
        Some(Prim2::NotLess)
    } else if imm == 6 {
        Some(Prim2::NotLessOrEqual)
    } else {
        None
    }
}

/// Rounding modes.
pub open spec fn rounding(imm: u8) -> Option<Prim1> {
    if imm == 0 {
        Some(Prim1::Nearest)
    } else if imm == 1 {
        Some(Prim1::Floor)
    } else if imm == 2 {
        Some(Prim1::Ceil)
    } else {
        None
    }
}

/// Functions of one packed operand, by opcode.
pub open spec fn packed1(opcode: u8) -> Option<Prim1> {
    if opcode == 0x51 {
        Some(Prim1::Sqrt)
    } else if opcode == 0x52 {
        Some(Prim1::RsqrtEstimate)
    } else if opcode == 0x53 {
        Some(Prim1::RecipEstimate)
    } else {
        None
    }
}

/// A byte as a signed number.
pub open spec fn signed8(b: u8) -> int {
    if b < 128 {
        b as int
    } else {
        b - 256
    }
}

/// A word as a signed number.
pub open spec fn signed32(w: u32) -> int {
    if w < 0x8000_0000 {
        w as int
    } else {
        w - 0x1_0000_0000
    }
}

/// The vector that lies in the code at a position, if all its lanes are the same.
pub open spec fn literal<T>(l: Lanes<T>, code: Seq<u8>, at: int) -> T {
    let w = word_at(code, at);
    if word_at(code, at + 4) == w && word_at(code, at + 8) == w && word_at(code, at + 12) == w {
        (l.constant)(w)
    } else {
        arbitrary()
    }
}

/// After a legacy instruction on registers `reg` and `rm`; `imm` is the byte behind it.
pub open spec fn legacy<T>(l: Lanes<T>, s: Cpu<T>, opcode: u8, reg: int, rm: int, imm: u8) -> Cpu<T> {
    if opcode == 0x28 {
        s.with_v(reg, s.v[rm])
    } else if opcode == 0x50 {
        Cpu { eax: (l.signs)(s.v[rm]), ..s }
    } else if let Some(p) = packed1(opcode) {
        s.with_v(reg, (l.one)(p, s.v[rm]))
    } else if let Some(p) = packed(opcode) {
        s.with_v(reg, (l.two)(p, s.v[reg], s.v[rm]))
    } else if opcode == 0xC2 && comparison(imm) is Some {
        s.with_v(reg, (l.two)(comparison(imm)->0, s.v[reg], s.v[rm]))
    } else {
        arbitrary()
    }
}

/// The legacy instruction at `p`, behind a prefix that extends its registers.
pub open spec fn legacy_step<T>(l: Lanes<T>, code: Seq<u8>, p: int, rex: int, s: Cpu<T>) -> (
    int,
    Cpu<T>,
) {
    let opcode = code[p + 1];
    let modrm = code[p + 2] as int;
    let mode = modrm / 64;
    let reg = (modrm / 8) % 8 + 8 * ((rex / 4) % 2);
    let rm = modrm % 8 + 8 * (rex % 2);
    if opcode == 0x84 || opcode == 0x82 {
        let to = p + 6 + signed32(word_at(code, p + 2));
        let taken = if opcode == 0x84 {
            s.zero
        } else {
            s.carry
        };
        (
            if taken {
                to
            } else {
                p + 6
            },
            s,
        )
    } else if mode == 3 {
        let next = if opcode == 0xC2 {
            p + 4
        } else {
            p + 3
        };
        (next, legacy(l, s, opcode, reg, rm, code[p + 3]))
    } else if mode == 1 && modrm % 8 == 4 && code[p + 3] == 0x24 {
        let at = s.rsp + signed8(code[p + 4]);
        if opcode == 0x10 {
            (p + 5, s.with_v(reg, s.mem[at]))
        } else if opcode == 0x11 {
            (p + 5, Cpu { mem: s.mem.insert(at, s.v[reg]), ..s })
        } else {
            arbitrary()
        }
    } else if mode == 0 && modrm % 8 == 5 && opcode == 0x10 {
        let at = p + 7 + signed32(word_at(code, p + 3));
        (p + 7, s.with_v(reg, literal(l, code, at)))
    } else {
        arbitrary()
    }
}

/// After a VEX instruction on registers, with the byte behind it.
pub open spec fn vex_effect<T>(
    l: Lanes<T>,
    s: Cpu<T>,
    map: int,
    pp: int,
    opcode: u8,
    reg: int,
    vvvv: int,
    rm: int,
    imm: u8,
) -> Cpu<T> {
    if map == 1 && pp == 0 && opcode == 0x5B {
        s.with_v(reg, (l.one)(Prim1::FromInt, s.v[rm]))
    } else if map == 1 && pp == 2 && opcode == 0x5B {
        s.with_v(reg, (l.one)(Prim1::ToInt, s.v[rm]))
    } else if map == 1 && pp == 1 && opcode == 0xFE {
        s.with_v(reg, (l.two)(Prim2::AddInt, s.v[vvvv], s.v[rm]))
    } else if map == 1 && pp == 1 && opcode == 0xFA {
        s.with_v(reg, (l.two)(Prim2::SubInt, s.v[vvvv], s.v[rm]))
    } else if map == 1 && pp == 1 && opcode == 0x72 && reg == 2 {
        s.with_v(vvvv, (l.shr)(s.v[rm], imm))
    } else if map == 1 && pp == 1 && opcode == 0x72 && reg == 6 {
        s.with_v(vvvv, (l.shl)(s.v[rm], imm))
    } else if map == 3 && pp == 1 && opcode == 0x08 && rounding(imm) is Some {
        s.with_v(reg, (l.one)(rounding(imm)->0, s.v[rm]))
    } else if map == 1 && pp == 0 && opcode == 0x51 {
        s.with_v(reg, (l.one)(Prim1::Sqrt, s.v[rm]))
    } else if map == 1 && pp == 0 && packed(opcode) is Some {
        s.with_v(reg, (l.two)(packed(opcode)->0, s.v[vvvv], s.v[rm]))
    } else if map == 1 && pp == 0 && opcode == 0xC2 && comparison(imm) is Some {
        s.with_v(reg, (l.two)(comparison(imm)->0, s.v[vvvv], s.v[rm]))
    } else {
        arbitrary()
    }
}

/// The VEX instruction at `p`.
pub open spec fn vex_step<T>(l: Lanes<T>, code: Seq<u8>, p: int, s: Cpu<T>) -> (int, Cpu<T>) {
    let b1 = code[p + 1] as int;
    let b2 = code[p + 2] as int;
    let opcode = code[p + 3];
    let modrm = code[p + 4] as int;
    let map = b1 % 32;
    let pp = b2 % 4;
    let reg = (modrm / 8) % 8 + 8 * (1 - b1 / 128);
    let rm = modrm % 8 + 8 * (1 - (b1 / 32) % 2);
    let vvvv = 15 - (b2 / 8) % 16;
    let next = if opcode == 0x72 || opcode == 0xC2 || map == 3 {
        p + 6
    } else {
        p + 5
    };
    if modrm / 64 == 3 && (b2 / 4) % 2 == 0 {
        (next, vex_effect(l, s, map, pp, opcode, reg, vvvv, rm, code[p + 5]))
    } else {
        arbitrary()
    }
}

/// After an EVEX instruction on registers, with the byte behind it.
pub open spec fn evex_effect<T>(
    l: Lanes<T>,
    s: Cpu<T>,
    map: int,
    pp: int,
    opcode: u8,
    reg: int,
    vvvv: int,
    rm: int,
    imm: u8,
) -> Cpu<T> {
    if map == 1 && pp == 0 && opcode == 0x28 {
        s.with_v(reg, s.v[rm])
    } else if map == 1 && pp == 0 && opcode == 0x51 {
        s.with_v(reg, (l.one)(Prim1::Sqrt, s.v[rm]))
    } else if map == 1 && pp == 0 && packed(opcode) is Some {
        s.with_v(reg, (l.two)(packed(opcode)->0, s.v[vvvv], s.v[rm]))
    } else if map == 1 && pp == 0 && opcode == 0xC2 && comparison(imm) is Some {
        Cpu {
            k: s.k.insert(reg, (l.nonzero)((l.two)(comparison(imm)->0, s.v[vvvv], s.v[rm]))),
            ..s
        }
    } else if map == 2 && pp == 1 && opcode == 0x4C {
        s.with_v(reg, (l.one)(Prim1::RecipEstimate, s.v[rm]))
    } else if map == 2 && pp == 1 && opcode == 0x4E {
        s.with_v(reg, (l.one)(Prim1::RsqrtEstimate, s.v[rm]))
    } else if map == 2 && pp == 1 && opcode == 0xB8 {
        s.with_v(reg, (l.fused)(s.v[vvvv], s.v[rm], s.v[reg]))
    } else if map == 2 && pp == 1 && opcode == 0xA8 {
        s.with_v(reg, (l.fused)(s.v[vvvv], s.v[reg], s.v[rm]))
    } else if map == 2 && pp == 2 && opcode == 0x38 {
        s.with_v(reg, (l.spread)(s.k[rm]))
    } else if map == 2 && pp == 1 && opcode == 0x27 {
        Cpu { k: s.k.insert(reg, (l.nonzero)((l.two)(Prim2::And, s.v[vvvv], s.v[rm]))), ..s }
    } else if map == 3 && pp == 1 && opcode == 0x08 && rounding(imm) is Some {
        s.with_v(reg, (l.one)(rounding(imm)->0, s.v[rm]))
    } else if map == 3 && pp == 1 && opcode == 0x25 && imm == 0xCA {
        s.with_v(reg, (l.select)(s.v[reg], s.v[vvvv], s.v[rm]))
    } else {
        arbitrary()
    }
}

/// The EVEX instruction at `p`, on 512 bits.
pub open spec fn evex_step<T>(l: Lanes<T>, code: Seq<u8>, p: int, s: Cpu<T>) -> (int, Cpu<T>) {
    let b0 = code[p + 1] as int;
    let b1 = code[p + 2] as int;
    let b2 = code[p + 3] as int;
    let opcode = code[p + 4];
    let modrm = code[p + 5] as int;
    let map = b0 % 8;
    let pp = b1 % 4;
    let reg = (modrm / 8) % 8 + 8 * (1 - b0 / 128) + 16 * (1 - (b0 / 16) % 2);
    let rm = modrm % 8 + 8 * (1 - (b0 / 32) % 2) + 16 * (1 - (b0 / 64) % 2);
    let vvvv = 15 - (b1 / 8) % 16 + 16 * (1 - (b2 / 8) % 2);
    let next = if opcode == 0xC2 || map == 3 {
        p + 7
    } else {
        p + 6
    };
    if (b2 / 32) % 4 != 2 {
        arbitrary()
    } else if modrm / 64 == 3 {
        (next, evex_effect(l, s, map, pp, opcode, reg, vvvv, rm, code[p + 6]))
    } else if modrm / 64 == 1 && modrm % 8 == 4 && code[p + 6] == 0x24 && code[p + 7] == 0xFF && map
        == 2 && pp == 1 && opcode == 0x18 {
        (p + 8, s.with_v(reg, (l.constant)(s.below)))
    } else {
        arbitrary()
    }
}

/// After the instruction at a position: the next position, and the machine.
pub open spec fn step<T>(l: Lanes<T>, code: Seq<u8>, pc: int, s: Cpu<T>) -> (int, Cpu<T>) {
    let b = code[pc];
    if b == 0x0F {
        legacy_step(l, code, pc, 0, s)
    } else if 0x40 <= b < 0x48 && code[pc + 1] == 0x0F {
        legacy_step(l, code, pc + 1, b as int, s)
    } else if b == 0xC4 {
        vex_step(l, code, pc, s)
    } else if b == 0x62 {
        evex_step(l, code, pc, s)
    } else if b == 0xEB {
        (pc + 2 + signed8(code[pc + 1]), s)
    } else if b == 0xE9 {
        (pc + 5 + signed32(word_at(code, pc + 1)), s)
    } else if b == 0x85 && code[pc + 1] == 0xC0 {
        (pc + 2, Cpu { zero: s.eax == 0, ..s })
    } else if b == 0x83 && code[pc + 1] == 0xF8 {
        (pc + 3, Cpu { zero: s.eax == code[pc + 2], ..s })
    } else if b == 0xC5 && code[pc + 1] == 0xF8 && code[pc + 2] == 0x98 && code[pc + 3] == 0xC9 {
        (pc + 4, Cpu { zero: s.k[1] == 0, carry: s.k[1] == 0xFFFF, ..s })
    } else if b == 0xC7 && code[pc + 1] == 0x44 && code[pc + 2] == 0x24 && code[pc + 3] == 0xFC {
        (pc + 8, Cpu { below: word_at(code, pc + 4), ..s })
    } else if b == 0x48 && code[pc + 1] == 0x81 && code[pc + 2] == 0xEC {
        (pc + 7, Cpu { rsp: s.rsp - word_at(code, pc + 3), ..s })
    } else if b == 0x48 && code[pc + 1] == 0x81 && code[pc + 2] == 0xC4 {
        (pc + 7, Cpu { rsp: s.rsp + word_at(code, pc + 3), ..s })
    } else {
        arbitrary()
    }
}

/// After `n` instructions.
pub open spec fn steps<T>(l: Lanes<T>, code: Seq<u8>, pc: int, s: Cpu<T>, n: nat) -> (int, Cpu<T>)
    decreases n,
{
    if n == 0 {
        (pc, s)
    } else {
        let (p, t) = steps(l, code, pc, s, (n - 1) as nat);
        step(l, code, p, t)
    }
}

/// Running from one position to another changes `s` to `t`.
pub open spec fn arrives<T>(
    l: Lanes<T>,
    code: Seq<u8>,
    from: int,
    s: Cpu<T>,
    to: int,
    t: Cpu<T>,
) -> bool {
    exists|n: nat| #[trigger] steps(l, code, from, s, n) == (to, t)
}

/// What was appended to `a` to make `b`, whatever follows, changes `s` to `t` and goes on
/// behind it.
pub open spec fn does<T>(l: Lanes<T>, a: Seq<u8>, b: Seq<u8>, s: Cpu<T>, t: Cpu<T>) -> bool {
    &&& a.is_prefix_of(b)
    &&& forall|code: Seq<u8>| #[trigger]
        b.is_prefix_of(code) ==> arrives(l, code, a.len() as int, s, b.len() as int, t)
}

proof fn lemma_more_steps<T>(l: Lanes<T>, code: Seq<u8>, pc: int, s: Cpu<T>, a: nat, b: nat)
    ensures
        ({
            let (p, t) = steps(l, code, pc, s, a);
            steps(l, code, pc, s, a + b) == steps(l, code, p, t, b)
        }),
    decreases b,
{
    if b > 0 {
        lemma_more_steps(l, code, pc, s, a, (b - 1) as nat);
    }
}

/// One run after another.
pub proof fn lemma_arrives<T>(
    l: Lanes<T>,
    code: Seq<u8>,
    p: int,
    s: Cpu<T>,
    q: int,
    t: Cpu<T>,
    r: int,
    u: Cpu<T>,
)
    requires
        arrives(l, code, p, s, q, t),
        arrives(l, code, q, t, r, u),
    ensures
        arrives(l, code, p, s, r, u),
{
    let a = choose|n: nat| #[trigger] steps(l, code, p, s, n) == (q, t);
    let b = choose|n: nat| #[trigger] steps(l, code, q, t, n) == (r, u);
    lemma_more_steps(l, code, p, s, a, b);
    assert(steps(l, code, p, s, a + b) == (r, u));
}

/// Code appended in two parts runs one part after the other.
pub proof fn lemma_does<T>(
    l: Lanes<T>,
    a: Seq<u8>,
    b: Seq<u8>,
    c: Seq<u8>,
    s: Cpu<T>,
    t: Cpu<T>,
    u: Cpu<T>,
)
    requires
        does(l, a, b, s, t),
        does(l, b, c, t, u),
    ensures
        does(l, a, c, s, u),
{
    assert forall|code: Seq<u8>| #[trigger] c.is_prefix_of(code) implies arrives(
        l,
        code,
        a.len() as int,
        s,
        c.len() as int,
        u,
    ) by {
        assert(b.is_prefix_of(code));
        lemma_arrives(l, code, a.len() as int, s, b.len() as int, t, c.len() as int, u);
    }
}

/// Nothing appended does nothing.
pub proof fn lemma_idle<T>(l: Lanes<T>, a: Seq<u8>, s: Cpu<T>)
    ensures
        does(l, a, a, s, s),
{
    assert forall|code: Seq<u8>| #[trigger] a.is_prefix_of(code) implies arrives(
        l,
        code,
        a.len() as int,
        s,
        a.len() as int,
        s,
    ) by {
        assert(steps(l, code, a.len() as int, s, 0) == (a.len() as int, s));
    }
}

/// One instruction runs in one step.
pub proof fn lemma_step<T>(l: Lanes<T>, code: Seq<u8>, pc: int, s: Cpu<T>)
    ensures
        arrives(l, code, pc, s, step(l, code, pc, s).0, step(l, code, pc, s).1),
{
    reveal_with_fuel(steps, 2);
    assert(steps(l, code, pc, s, 1) == step(l, code, pc, s));
}

} // verus!
