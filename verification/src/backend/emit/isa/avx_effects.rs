//! What the code of the AVX-512 machine's operations does.

use crate::backend::emit::avx512;
use crate::backend::emit::avx512::{
    arith_opcode, compare_code, mask_reg, p0_rr, p0_rsp, p1, p2, predicate, Avx512Code, MAP_0F,
    MAP_0F38, MAP_0F3A, PP_66, PP_F3, PP_NONE,
};
use crate::backend::emit::bytes::{read_appended_word, word_at, CodeBytes};
use crate::backend::emit::isa::{Avx512Backend, IsaBackend};
use crate::backend::emit::lane::{mask, Dialect, Lanes, Prim1, Prim2};
use crate::backend::emit::x86_64::effects::{computes, sets};
use crate::backend::emit::x86_64::model::{
    arrives, comparison, does, evex_effect, lemma_arrives, lemma_does, lemma_idle, lemma_step, step,
    Cpu,
};
use crate::backend::emit::Reg;
use crate::kind::OpKind;
use vstd::prelude::*;

verus! {

proof fn lemma_bytes(reg: u8, rm: u8, vvvv: u8, pp: u8, map: u8)
    requires
        reg < 32,
        rm < 32,
        vvvv < 32,
        pp < 4,
        map < 4,
    ensures
        ({
            let b0 = p0_rr(reg, rm, map);
            let b1 = p1(vvvv, pp);
            let b2 = p2(vvvv);
            let m = 0xC0u8 | ((reg & 7) << 3) | (rm & 7);
            &&& b0 % 8 == map
            &&& m / 64 == 3
            &&& b1 % 4 == pp
            &&& (b2 / 32) % 4 == 2
            &&& (m / 8) % 8 + 8 * (1 - b0 / 128) + 16 * (1 - (b0 / 16) % 2) == reg
            &&& m % 8 + 8 * (1 - (b0 / 32) % 2) + 16 * (1 - (b0 / 64) % 2) == rm
            &&& 15 - (b1 / 8) % 16 + 16 * (1 - (b2 / 8) % 2) == vvvv
        }),
        ({
            let b0 = p0_rsp(reg, map);
            let m = 0x44u8 | ((reg & 7) << 3);
            &&& b0 % 8 == map
            &&& m / 64 == 1
            &&& m % 8 == 4
            &&& (m / 8) % 8 + 8 * (1 - b0 / 128) + 16 * (1 - (b0 / 16) % 2) == reg
        }),
{
    assert(reg < 32 && rm < 32 && vvvv < 32 && pp < 4 && map < 4 ==> {
        let b0 = p0_rr(reg, rm, map);
        let b1 = p1(vvvv, pp);
        let b2 = p2(vvvv);
        let m = 0xC0u8 | ((reg & 7) << 3) | (rm & 7);
        let c0 = p0_rsp(reg, map);
        let n = 0x44u8 | ((reg & 7) << 3);
        b0 % 8 == map && m / 64 == 3 && b1 % 4 == pp && (b2 / 32) % 4 == 2 && (m / 8) % 8 + 8 * (1
            - b0 / 128) + 16 * (1 - (b0 / 16) % 2) == reg && m % 8 + 8 * (1 - (b0 / 32) % 2) + 16
            * (1 - (b0 / 64) % 2) == rm && 15 - (b1 / 8) % 16 + 16 * (1 - (b2 / 8) % 2) == vvvv
            && c0 % 8 == map && n / 64 == 1 && n % 8 == 4 && (n / 8) % 8 + 8 * (1 - c0 / 128) + 16
            * (1 - (c0 / 16) % 2) == reg
    }) by (bit_vector);
}

/// An EVEX instruction on registers has its effect.
proof fn lemma_evex<T>(
    l: Lanes<T>,
    code: Seq<u8>,
    map: u8,
    pp: u8,
    opcode: u8,
    reg: u8,
    vvvv: u8,
    rm: u8,
    s: Cpu<T>,
)
    requires
        reg < 32,
        vvvv < 32,
        rm < 32,
        pp < 4,
        map < 3,
        opcode != 0xC2,
    ensures
        does(
            l,
            code,
            code.evex(map, pp, opcode, reg, vvvv, rm),
            s,
            evex_effect(
                l,
                s,
                map as int,
                pp as int,
                opcode,
                reg as int,
                vvvv as int,
                rm as int,
                0,
            ),
        ),
{
    let b = code.evex(map, pp, opcode, reg, vvvv, rm);
    let t = evex_effect(l, s, map as int, pp as int, opcode, reg as int, vvvv as int, rm as int, 0);
    let n = code.len() as int;
    lemma_bytes(reg, rm, vvvv, pp, map);
    assert(code.is_prefix_of(b));
    assert forall|all: Seq<u8>| #[trigger] b.is_prefix_of(all) implies arrives(
        l,
        all,
        n,
        s,
        b.len() as int,
        t,
    ) by {
        lemma_step(l, all, n, s);
        assert(all[n] == b[n] && all[n + 1] == b[n + 1] && all[n + 2] == b[n + 2] && all[n + 3]
            == b[n + 3] && all[n + 4] == b[n + 4] && all[n + 5] == b[n + 5]);
        assert(step(l, all, n, s) == (b.len() as int, t));
    }
}

/// An EVEX instruction with an immediate byte has its effect.
proof fn lemma_evex_imm<T>(
    l: Lanes<T>,
    code: Seq<u8>,
    map: u8,
    pp: u8,
    opcode: u8,
    reg: u8,
    vvvv: u8,
    rm: u8,
    imm: u8,
    s: Cpu<T>,
)
    requires
        reg < 32,
        vvvv < 32,
        rm < 32,
        pp < 4,
        map < 4,
        opcode == 0xC2 || map == 3,
    ensures
        does(
            l,
            code,
            code.evex(map, pp, opcode, reg, vvvv, rm).byte(imm),
            s,
            evex_effect(
                l,
                s,
                map as int,
                pp as int,
                opcode,
                reg as int,
                vvvv as int,
                rm as int,
                imm,
            ),
        ),
{
    let b = code.evex(map, pp, opcode, reg, vvvv, rm).byte(imm);
    let t = evex_effect(
        l,
        s,
        map as int,
        pp as int,
        opcode,
        reg as int,
        vvvv as int,
        rm as int,
        imm,
    );
    let n = code.len() as int;
    lemma_bytes(reg, rm, vvvv, pp, map);
    assert(code.is_prefix_of(b));
    assert forall|all: Seq<u8>| #[trigger] b.is_prefix_of(all) implies arrives(
        l,
        all,
        n,
        s,
        b.len() as int,
        t,
    ) by {
        lemma_step(l, all, n, s);
        assert(all[n] == b[n] && all[n + 1] == b[n + 1] && all[n + 2] == b[n + 2] && all[n + 3]
            == b[n + 3] && all[n + 4] == b[n + 4] && all[n + 5] == b[n + 5] && all[n + 6] == b[n
            + 6]);
        assert(step(l, all, n, s) == (b.len() as int, t));
    }
}

/// Code loading a constant leaves it in every lane.
pub proof fn const_code_computes<T>(l: Lanes<T>, code: Seq<u8>, d: Reg, bits: u32, s: Cpu<T>)
    requires
        d.0 < 32,
    ensures
        does(
            l,
            code,
            code.splat(d, bits),
            s,
            (Cpu { below: bits, ..s }).with_v(d.0 as int, (l.constant)(bits)),
        ),
{
    let n = code.len() as int;
    let first = code.byte(0xC7).byte(0x44).byte(0x24).byte(0xFC);
    let stored = first.inst(bits);
    let b = code.splat(d, bits);
    let s1 = Cpu { below: bits, ..s };
    let t = s1.with_v(d.0 as int, (l.constant)(bits));
    lemma_bytes(d.0, 0, 0, PP_66, MAP_0F38);
    read_appended_word(first, bits);
    assert(code.is_prefix_of(b));
    assert forall|all: Seq<u8>| #[trigger] b.is_prefix_of(all) implies arrives(
        l,
        all,
        n,
        s,
        b.len() as int,
        t,
    ) by {
        lemma_step(l, all, n, s);
        lemma_step(l, all, n + 8, s1);
        assert(all[n] == b[n] && all[n + 1] == b[n + 1] && all[n + 2] == b[n + 2] && all[n + 3]
            == b[n + 3]);
        assert(stored.is_prefix_of(b));
        assert(all[n + 4] == stored[n + 4] && all[n + 5] == stored[n + 5] && all[n + 6] == stored[n
            + 6] && all[n + 7] == stored[n + 7]);
        assert(word_at(all, n + 4) == bits);
        assert(step(l, all, n, s) == (n + 8, s1));
        assert(all[n + 8] == b[n + 8] && all[n + 9] == b[n + 9] && all[n + 10] == b[n + 10] && all[n
            + 11] == b[n + 11] && all[n + 12] == b[n + 12] && all[n + 13] == b[n + 13] && all[n
            + 14] == b[n + 14] && all[n + 15] == b[n + 15]);
        assert(step(l, all, n + 8, s1) == (b.len() as int, t));
        lemma_arrives(l, all, n, s, n + 8, s1, b.len() as int, t);
    }
}

/// The code of each unary operation computes it, for any registers that are not scratch.
pub proof fn unary_code_computes<T>(l: Lanes<T>, code: Seq<u8>, op: OpKind, d: Reg, a: Reg, s: Cpu<T>)
    requires
        l.coherent(),
        avx512::unary_code(code, op, d, a) is Some,
        d.0 < 32,
        a.0 < 32,
    ensures
        computes(
            l,
            code,
            avx512::unary_code(code, op, d, a)->0,
            s,
            d,
            l.unary(Dialect::X86, op, s.v[a.0 as int]),
            seq![mask_reg(d, a)],
        ),
{
    let x = s.v[a.0 as int];
    let y = l.unary(Dialect::X86, op, x);
    let m = mask_reg(d, a);
    let free = seq![m];
    assert(free[0] == m);
    let one = s.with_v(d.0 as int, y);
    assert(sets(s, one, d, y, free));
    match op {
        OpKind::Sqrt => lemma_evex(l, code, MAP_0F, PP_NONE, 0x51, d.0, 0, a.0, s),
        OpKind::Recip => lemma_evex(l, code, MAP_0F38, PP_66, 0x4C, d.0, 0, a.0, s),
        OpKind::Rsqrt => lemma_evex(l, code, MAP_0F38, PP_66, 0x4E, d.0, 0, a.0, s),
        OpKind::Round => lemma_evex_imm(l, code, MAP_0F3A, PP_66, 0x08, d.0, 0, a.0, 0, s),
        OpKind::Floor => lemma_evex_imm(l, code, MAP_0F3A, PP_66, 0x08, d.0, 0, a.0, 1, s),
        OpKind::Ceil => lemma_evex_imm(l, code, MAP_0F3A, PP_66, 0x08, d.0, 0, a.0, 2, s),
        _ => {
            let bits: u32 = if op is Neg {
                0x8000_0000
            } else {
                0x7FFF_FFFF
            };
            let opcode: u8 = if op is Neg {
                0x57
            } else {
                0x54
            };
            let k = (l.constant)(bits);
            let c1 = code.splat(m, bits);
            let s1 = (Cpu { below: bits, ..s }).with_v(m.0 as int, k);
            const_code_computes(l, code, m, bits, s);
            lemma_evex(l, c1, MAP_0F, PP_NONE, opcode, d.0, m.0, a.0, s1);
            assert((l.one)(Prim1::Neg, x) == (l.two)(Prim2::Xor, x, (l.constant)(0x8000_0000)));
            assert((l.one)(Prim1::Abs, x) == (l.two)(Prim2::And, x, (l.constant)(0x7FFF_FFFF)));
            assert((l.two)(Prim2::Xor, x, k) == (l.two)(Prim2::Xor, k, x));
            assert((l.two)(Prim2::And, x, k) == (l.two)(Prim2::And, k, x));
            let s2 = s1.with_v(d.0 as int, y);
            lemma_does(
                l,
                code,
                c1,
                c1.evex(MAP_0F, PP_NONE, opcode, d.0, m.0, a.0),
                s,
                s1,
                s2,
            );
            assert(sets(s, s2, d, y, free));
        },
    }
}

/// The code of each arithmetic operation computes it, for any registers. A comparison
/// leaves the mask whose lanes are set where it holds, by way of a mask register.
pub proof fn binary_code_computes<T>(
    l: Lanes<T>,
    code: Seq<u8>,
    pool: Seq<u32>,
    op: OpKind,
    d: Reg,
    a: Reg,
    b: Reg,
    s: Cpu<T>,
)
    requires
        Avx512Backend::binary_code(code, pool, op, d, a, b) is Ok,
        d.0 < 32,
        a.0 < 32,
        b.0 < 32,
    ensures
        ({
            let y = l.binary(Dialect::X86, op, s.v[a.0 as int], s.v[b.0 as int]);
            computes(
                l,
                code,
                Avx512Backend::binary_code(code, pool, op, d, a, b)->Ok_0.0,
                s,
                d,
                match op {
                    OpKind::Add | OpKind::Sub | OpKind::Mul | OpKind::Div | OpKind::Min
                    | OpKind::Max => y,
                    _ => (l.spread)((l.nonzero)(y)),
                },
                Seq::empty(),
            )
        }),
{
    let x = s.v[a.0 as int];
    let z = s.v[b.0 as int];
    let y = l.binary(Dialect::X86, op, x, z);
    match predicate(op) {
        Some(pred) => {
            let c1 = code.evex(MAP_0F, PP_NONE, 0xC2, 1, a.0, b.0).byte(pred);
            let bits = (l.nonzero)(y);
            let s1 = Cpu { k: s.k.insert(1, bits), ..s };
            lemma_evex_imm(l, code, MAP_0F, PP_NONE, 0xC2, 1, a.0, b.0, pred, s);
            lemma_evex(l, c1, MAP_0F38, PP_F3, 0x38, d.0, 0, 1, s1);
            let s2 = s1.with_v(d.0 as int, (l.spread)(bits));
            lemma_does(l, code, c1, compare_code(code, pred, d, a, b), s, s1, s2);
            assert(sets(s, s2, d, (l.spread)(bits), Seq::empty()));
        },
        None => {
            let opcode = arith_opcode(op)->0;
            lemma_evex(l, code, MAP_0F, PP_NONE, opcode, d.0, a.0, b.0, s);
            assert(sets(s, s.with_v(d.0 as int, y), d, y, Seq::empty()));
        },
    }
}

/// The code of a fused multiply-add leaves `a * b + d`, rounded once, in `d`.
pub proof fn fma_code_computes<T>(l: Lanes<T>, code: Seq<u8>, d: Reg, a: Reg, b: Reg, s: Cpu<T>)
    requires
        d.0 < 32,
        a.0 < 32,
        b.0 < 32,
    ensures
        does(
            l,
            code,
            Avx512Backend::fma_code(code, d, a, b),
            s,
            s.with_v(d.0 as int, (l.fused)(s.v[a.0 as int], s.v[b.0 as int], s.v[d.0 as int])),
        ),
{
    lemma_evex(l, code, MAP_0F38, PP_66, 0xB8, d.0, a.0, b.0, s);
}

/// The other form of the fused multiply-add leaves `a * d + b` in `d`.
pub proof fn fmadd213_computes<T>(l: Lanes<T>, code: Seq<u8>, d: Reg, a: Reg, b: Reg, s: Cpu<T>)
    requires
        d.0 < 32,
        a.0 < 32,
        b.0 < 32,
    ensures
        does(
            l,
            code,
            code.evex(MAP_0F38, PP_66, 0xA8, d.0, a.0, b.0),
            s,
            s.with_v(d.0 as int, (l.fused)(s.v[a.0 as int], s.v[d.0 as int], s.v[b.0 as int])),
        ),
{
    lemma_evex(l, code, MAP_0F38, PP_66, 0xA8, d.0, a.0, b.0, s);
}

/// The code of a choice leaves in `d` the first operand where the mask there is set, and
/// the second elsewhere.
pub proof fn select_code_computes<T>(l: Lanes<T>, code: Seq<u8>, d: Reg, a: Reg, b: Reg, s: Cpu<T>)
    requires
        d.0 < 32,
        a.0 < 32,
        b.0 < 32,
    ensures
        does(
            l,
            code,
            Avx512Backend::select_code(code, d, a, b),
            s,
            s.with_v(d.0 as int, (l.select)(s.v[d.0 as int], s.v[a.0 as int], s.v[b.0 as int])),
        ),
{
    lemma_evex_imm(l, code, MAP_0F3A, PP_66, 0x25, d.0, a.0, b.0, 0xCA, s);
}

/// The code of a copy copies the register.
pub proof fn mov_code_computes<T>(l: Lanes<T>, code: Seq<u8>, d: Reg, a: Reg, s: Cpu<T>)
    requires
        d.0 < 32,
        a.0 < 32,
    ensures
        computes(
            l,
            code,
            Avx512Backend::mov_code(code, d, a),
            s,
            d,
            s.v[a.0 as int],
            Seq::empty(),
        ),
{
    let y = s.v[a.0 as int];
    if d.0 == a.0 {
        lemma_idle(l, code, s);
        assert(sets(s, s, d, y, Seq::empty()));
    } else {
        lemma_evex(l, code, MAP_0F, PP_NONE, 0x28, d.0, 0, a.0, s);
        assert(sets(s, s.with_v(d.0 as int, y), d, y, Seq::empty()));
    }
}

} // verus!
