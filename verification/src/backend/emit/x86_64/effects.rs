//! What the code of each SSE and AVX operation does.

use crate::backend::emit::bytes::{read_appended_word, word_at, CodeBytes};
use crate::backend::emit::lane::{Dialect, Lanes, Prim1, Prim2};
use crate::backend::emit::x86_64::model::{
    arrives, comparison, does, legacy, lemma_arrives, lemma_does, lemma_idle, lemma_step, literal,
    step, vex_effect, Cpu,
};
use crate::backend::emit::x86_64::{
    binary_code, blend_code, constant_code, copy_code, hypot_code, modrm, ternary_code, unary_code,
    vex_code, X86Code,
};
use crate::backend::emit::Reg;
use crate::kind::OpKind;
use vstd::prelude::*;

verus! {

proof fn lemma_bytes(reg: u8, rm: u8, vvvv: u8, pp: u8, map: u8)
    requires
        reg < 16,
        rm < 16,
        vvvv < 16,
        pp < 4,
        map < 4,
    ensures
        modrm(Reg(reg), Reg(rm)) / 64 == 3,
        (modrm(Reg(reg), Reg(rm)) / 8) % 8 == reg % 8,
        modrm(Reg(reg), Reg(rm)) % 8 == rm % 8,
        (0x44u8 | ((reg & 7) << 3)) / 64 == 1,
        ((0x44u8 | ((reg & 7) << 3)) / 8) % 8 == reg % 8,
        (0x44u8 | ((reg & 7) << 3)) % 8 == 4,
        (0x05u8 | ((reg & 7) << 3)) / 64 == 0,
        ((0x05u8 | ((reg & 7) << 3)) / 8) % 8 == reg % 8,
        (0x05u8 | ((reg & 7) << 3)) % 8 == 5,
        ({
            let r: u8 = if reg >= 8 {
                0x00
            } else {
                0x80
            };
            let b: u8 = if rm >= 8 {
                0x00
            } else {
                0x20
            };
            let b1 = r | 0x40 | b | map;
            let b2 = ((!vvvv & 0xF) << 3) | pp;
            &&& b1 % 32 == map
            &&& (b1 / 32) % 2 == if rm >= 8 {
                0int
            } else {
                1int
            }
            &&& b1 / 128 == if reg >= 8 {
                0int
            } else {
                1int
            }
            &&& b2 % 4 == pp
            &&& (b2 / 4) % 2 == 0
            &&& (b2 / 8) % 16 == 15 - vvvv
        }),
{
    let r: u8 = if reg >= 8 {
        0x00
    } else {
        0x80
    };
    let b: u8 = if rm >= 8 {
        0x00
    } else {
        0x20
    };
    let b1 = r | 0x40 | b | map;
    let b2 = ((!vvvv & 0xF) << 3) | pp;
    let m = 0xC0u8 | ((reg & 7) << 3) | (rm & 7);
    let low = 0x44u8 | ((reg & 7) << 3);
    let rip = 0x05u8 | ((reg & 7) << 3);
    assert(m / 64 == 3 && (m / 8) % 8 == reg % 8 && m % 8 == rm % 8 && low / 64 == 1 && (low / 8)
        % 8 == reg % 8 && low % 8 == 4 && rip / 64 == 0 && (rip / 8) % 8 == reg % 8 && rip % 8 == 5
        && b1 % 32 == map && ((b1 / 32) % 2 == 0) == (b == 0) && (b1 / 128 == 0) == (r == 0) && b2
        % 4 == pp && (b2 / 4) % 2 == 0 && (b2 / 8) % 16 == 15 - vvvv) by (bit_vector)
        requires
            reg < 16,
            rm < 16,
            vvvv < 16,
            pp < 4,
            map < 4,
            r == 0 || r == 0x80,
            b == 0 || b == 0x20,
            b1 == r | 0x40 | b | map,
            b2 == ((!vvvv & 0xF) << 3) | pp,
            m == 0xC0u8 | ((reg & 7) << 3) | (rm & 7),
            low == 0x44u8 | ((reg & 7) << 3),
            rip == 0x05u8 | ((reg & 7) << 3),
    ;
}

/// A legacy instruction on registers has its effect.
pub(crate) proof fn lemma_sse<T>(l: Lanes<T>, code: Seq<u8>, opcode: u8, d: Reg, a: Reg, s: Cpu<T>)
    requires
        d.0 < 16,
        a.0 < 16,
        opcode != 0x84,
        opcode != 0x82,
        opcode != 0xC2,
    ensures
        does(l, code, code.sse(opcode, d, a), s, legacy(l, s, opcode, d.0 as int, a.0 as int, 0)),
{
    let b = code.sse(opcode, d, a);
    let t = legacy(l, s, opcode, d.0 as int, a.0 as int, 0);
    let n = code.len() as int;
    lemma_bytes(d.0, a.0, 0, 0, 0);
    assert(code.is_prefix_of(b));
    assert forall|all: Seq<u8>| #[trigger] b.is_prefix_of(all) implies arrives(
        l,
        all,
        n,
        s,
        b.len() as int,
        t,
    ) by {
        assert forall|i: int| 0 <= i < b.len() implies all[i] == b[i] by {}
        lemma_step(l, all, n, s);
        if d.0 >= 8 || a.0 >= 8 {
            assert(all[n] == b[n] && all[n + 1] == b[n + 1] && all[n + 2] == b[n + 2] && all[n + 3]
                == b[n + 3]);
        } else {
            assert(all[n] == b[n] && all[n + 1] == b[n + 1] && all[n + 2] == b[n + 2]);
        }
        assert(step(l, all, n, s) == (b.len() as int, t));
    }
}

/// A legacy comparison has its effect.
pub(crate) proof fn lemma_sse_compare<T>(
    l: Lanes<T>,
    code: Seq<u8>,
    pred: u8,
    d: Reg,
    a: Reg,
    s: Cpu<T>,
)
    requires
        d.0 < 16,
        a.0 < 16,
        comparison(pred) is Some,
    ensures
        does(
            l,
            code,
            code.sse(0xC2, d, a).byte(pred),
            s,
            s.with_v(d.0 as int, (l.two)(comparison(pred)->0, s.v[d.0 as int], s.v[a.0 as int])),
        ),
{
    let b = code.sse(0xC2, d, a).byte(pred);
    let t = s.with_v(d.0 as int, (l.two)(comparison(pred)->0, s.v[d.0 as int], s.v[a.0 as int]));
    let n = code.len() as int;
    lemma_bytes(d.0, a.0, 0, 0, 0);
    assert(code.is_prefix_of(b));
    assert forall|all: Seq<u8>| #[trigger] b.is_prefix_of(all) implies arrives(
        l,
        all,
        n,
        s,
        b.len() as int,
        t,
    ) by {
        lemma_step(l, all, n, s);
        if d.0 >= 8 || a.0 >= 8 {
            assert(all[n] == b[n] && all[n + 1] == b[n + 1] && all[n + 2] == b[n + 2] && all[n + 3]
                == b[n + 3] && all[n + 4] == b[n + 4]);
        } else {
            assert(all[n] == b[n] && all[n + 1] == b[n + 1] && all[n + 2] == b[n + 2] && all[n + 3]
                == b[n + 3]);
        }
        assert(step(l, all, n, s) == (b.len() as int, t));
    }
}

/// A VEX instruction has its effect.
pub(crate) proof fn lemma_vex<T>(
    l: Lanes<T>,
    code: Seq<u8>,
    pp: u8,
    map: u8,
    reg: Reg,
    vvvv: Reg,
    rm: Reg,
    opcode: u8,
    s: Cpu<T>,
)
    requires
        reg.0 < 16,
        vvvv.0 < 16,
        rm.0 < 16,
        pp < 4,
        map < 3,
        opcode != 0x72,
        opcode != 0xC2,
    ensures
        does(
            l,
            code,
            code.vex(pp, map, reg, vvvv, rm, opcode),
            s,
            vex_effect(
                l,
                s,
                map as int,
                pp as int,
                opcode,
                reg.0 as int,
                vvvv.0 as int,
                rm.0 as int,
                0,
            ),
        ),
{
    reveal(vex_code);
    let b = code.vex(pp, map, reg, vvvv, rm, opcode);
    let t = vex_effect(
        l,
        s,
        map as int,
        pp as int,
        opcode,
        reg.0 as int,
        vvvv.0 as int,
        rm.0 as int,
        0,
    );
    let n = code.len() as int;
    lemma_bytes(reg.0, rm.0, vvvv.0, pp, map);
    assert(code.is_prefix_of(b));
    assert forall|all: Seq<u8>| #[trigger] b.is_prefix_of(all) implies arrives(
        l,
        all,
        n,
        s,
        b.len() as int,
        t,
    ) by {
        lemma_step(l, all, n, s);
        assert(all[n] == b[n] && all[n + 1] == b[n + 1] && all[n + 2] == b[n + 2] && all[n + 3]
            == b[n + 3] && all[n + 4] == b[n + 4]);
        assert(step(l, all, n, s) == (b.len() as int, t));
    }
}

/// A VEX instruction with an immediate byte has its effect.
pub(crate) proof fn lemma_vex_imm<T>(
    l: Lanes<T>,
    code: Seq<u8>,
    pp: u8,
    map: u8,
    reg: Reg,
    vvvv: Reg,
    rm: Reg,
    opcode: u8,
    imm: u8,
    s: Cpu<T>,
)
    requires
        reg.0 < 16,
        vvvv.0 < 16,
        rm.0 < 16,
        pp < 4,
        map < 4,
        opcode == 0x72 || opcode == 0xC2 || map == 3,
    ensures
        does(
            l,
            code,
            code.vex(pp, map, reg, vvvv, rm, opcode).byte(imm),
            s,
            vex_effect(
                l,
                s,
                map as int,
                pp as int,
                opcode,
                reg.0 as int,
                vvvv.0 as int,
                rm.0 as int,
                imm,
            ),
        ),
{
    reveal(vex_code);
    let b = code.vex(pp, map, reg, vvvv, rm, opcode).byte(imm);
    let t = vex_effect(
        l,
        s,
        map as int,
        pp as int,
        opcode,
        reg.0 as int,
        vvvv.0 as int,
        rm.0 as int,
        imm,
    );
    let n = code.len() as int;
    lemma_bytes(reg.0, rm.0, vvvv.0, pp, map);
    assert(code.is_prefix_of(b));
    assert forall|all: Seq<u8>| #[trigger] b.is_prefix_of(all) implies arrives(
        l,
        all,
        n,
        s,
        b.len() as int,
        t,
    ) by {
        lemma_step(l, all, n, s);
        assert(all[n] == b[n] && all[n + 1] == b[n + 1] && all[n + 2] == b[n + 2] && all[n + 3]
            == b[n + 3] && all[n + 4] == b[n + 4] && all[n + 5] == b[n + 5]);
        assert(step(l, all, n, s) == (b.len() as int, t));
    }
}

proof fn lemma_prefix_word(a: Seq<u8>, all: Seq<u8>, at: int)
    requires
        a.is_prefix_of(all),
        0 <= at,
        at + 4 <= a.len(),
    ensures
        word_at(all, at) == word_at(a, at),
{
    assert(all[at] == a[at] && all[at + 1] == a[at + 1] && all[at + 2] == a[at + 2] && all[at + 3]
        == a[at + 3]);
}

/// A jump over four copies of a word, and the copies behind it.
proof fn lemma_data<T>(l: Lanes<T>, code: Seq<u8>, bits: u32, all: Seq<u8>, s: Cpu<T>)
    requires
        code.byte(0xEB).byte(0x10).inst(bits).inst(bits).inst(bits).inst(bits).is_prefix_of(all),
    ensures
        arrives(l, all, code.len() as int, s, (code.len() + 18) as int, s),
        literal(l, all, (code.len() + 2) as int) == (l.constant)(bits),
        code.is_prefix_of(all),
{
    let n = code.len() as int;
    let jump = code.byte(0xEB).byte(0x10);
    let w1 = jump.inst(bits);
    let w2 = w1.inst(bits);
    let w3 = w2.inst(bits);
    let data = w3.inst(bits);
    read_appended_word(jump, bits);
    read_appended_word(w1, bits);
    read_appended_word(w2, bits);
    read_appended_word(w3, bits);
    assert(w3.is_prefix_of(data));
    assert(w3.is_prefix_of(all));
    assert(w2.is_prefix_of(w3));
    assert(w2.is_prefix_of(all));
    assert(w1.is_prefix_of(w2));
    assert(w1.is_prefix_of(all));
    assert(jump.is_prefix_of(w1));
    assert(jump.is_prefix_of(all));
    assert(code.is_prefix_of(jump));
    assert(code.is_prefix_of(all));
    lemma_prefix_word(w1, all, n + 2);
    lemma_prefix_word(w2, all, n + 6);
    lemma_prefix_word(w3, all, n + 10);
    lemma_prefix_word(data, all, n + 14);
    lemma_step(l, all, n, s);
    assert(all[n] == jump[n] && all[n + 1] == jump[n + 1]);
    assert(step(l, all, n, s) == (n + 18, s));
}

/// A load of what lies in the code.
proof fn lemma_rip_load<T>(l: Lanes<T>, code: Seq<u8>, d: Reg, disp: u32, all: Seq<u8>, s: Cpu<T>)
    requires
        d.0 < 16,
        code.rex_if(d, Reg(0)).byte(0x0F).byte(0x10).byte(0x05u8 | ((d.0 & 7) << 3)).inst(
            disp,
        ).is_prefix_of(all),
    ensures
        ({
            let n = code.rex_if(d, Reg(0)).len() + 7;
            arrives(
                l,
                all,
                code.len() as int,
                s,
                n as int,
                s.with_v(
                    d.0 as int,
                    literal(l, all, n + crate::backend::emit::x86_64::model::signed32(disp)),
                ),
            )
        }),
{
    let n = code.len() as int;
    let load = code.rex_if(d, Reg(0)).byte(0x0F).byte(0x10).byte(0x05u8 | ((d.0 & 7) << 3));
    let b = load.inst(disp);
    read_appended_word(load, disp);
    lemma_prefix_word(b, all, load.len() as int);
    lemma_bytes(d.0, 0, 0, 0, 0);
    lemma_step(l, all, n, s);
    assert(load.is_prefix_of(b));
    if d.0 >= 8 {
        assert(all[n] == load[n] && all[n + 1] == load[n + 1] && all[n + 2] == load[n + 2] && all[n
            + 3] == load[n + 3]);
    } else {
        assert(all[n] == load[n] && all[n + 1] == load[n + 1] && all[n + 2] == load[n + 2]);
    }
}

/// Code loading a constant leaves it in every lane.
pub proof fn constant_code_computes<T>(l: Lanes<T>, code: Seq<u8>, d: Reg, bits: u32, s: Cpu<T>)
    requires
        l.coherent(),
        d.0 < 16,
    ensures
        does(l, code, code.constant(d, bits), s, s.with_v(d.0 as int, (l.constant)(bits))),
{
    reveal(constant_code);
    let t = s.with_v(d.0 as int, (l.constant)(bits));
    if bits == 0 {
        lemma_vex(l, code, 0, 1, d, d, d, 0x57, s);
        assert((l.two)(Prim2::Xor, s.v[d.0 as int], s.v[d.0 as int]) == (l.constant)(0));
    } else {
        let n = code.len() as int;
        let b = code.constant(d, bits);
        let data = code.byte(0xEB).byte(0x10).inst(bits).inst(bits).inst(bits).inst(bits);
        let disp: u32 = if d.0 >= 8 {
            0xFFFFFFE8
        } else {
            0xFFFFFFE9
        };
        assert(b == data.rex_if(d, Reg(0)).byte(0x0F).byte(0x10).byte(
            0x05u8 | ((d.0 & 7) << 3),
        ).inst(disp));
        assert(data.is_prefix_of(b));
        assert forall|all: Seq<u8>| #[trigger] b.is_prefix_of(all) implies arrives(
            l,
            all,
            n,
            s,
            b.len() as int,
            t,
        ) by {
            assert(data.is_prefix_of(all));
            lemma_data(l, code, bits, all, s);
            lemma_rip_load(l, data, d, disp, all, s);
            lemma_arrives(l, all, n, s, n + 18, s, b.len() as int, t);
        }
        lemma_data(l, code, bits, b, s);
    }
}

/// From `s` to `t` register `d` receives `y`. Of the other registers only those in
/// `scratch` may change; memory and the stack pointer do not.
pub open spec fn sets<T>(s: Cpu<T>, t: Cpu<T>, d: Reg, y: T, scratch: Seq<Reg>) -> bool {
    &&& t.v[d.0 as int] == y
    &&& t.mem == s.mem
    &&& t.rsp == s.rsp
    &&& forall|r: u8| r != d.0 && !scratch.contains(Reg(r)) ==> #[trigger] t.v[r as int] == s.v[r as int]
}

/// The code that was appended leaves `y` in register `d`, and changes nothing else but the
/// registers in `scratch`.
pub open spec fn computes<T>(
    l: Lanes<T>,
    a: Seq<u8>,
    b: Seq<u8>,
    s: Cpu<T>,
    d: Reg,
    y: T,
    scratch: Seq<Reg>,
) -> bool {
    exists|t: Cpu<T>| #[trigger] does(l, a, b, s, t) && sets(s, t, d, y, scratch)
}

/// Two instructions, of which the first sets a scratch register.
proof fn lemma_pair<T>(
    l: Lanes<T>,
    a: Seq<u8>,
    b: Seq<u8>,
    c: Seq<u8>,
    s: Cpu<T>,
    t: Reg,
    x: T,
    d: Reg,
    y: T,
)
    requires
        does(l, a, b, s, s.with_v(t.0 as int, x)),
        does(l, b, c, s.with_v(t.0 as int, x), s.with_v(t.0 as int, x).with_v(d.0 as int, y)),
    ensures
        computes(l, a, c, s, d, y, seq![t]),
{
    let s1 = s.with_v(t.0 as int, x);
    let s2 = s1.with_v(d.0 as int, y);
    lemma_does(l, a, b, c, s, s1, s2);
    assert(seq![t][0] == t);
    assert(sets(s, s2, d, y, seq![t]));
}

/// The code of each unary operation computes it, for any registers that are not scratch.
pub proof fn unary_code_computes<T>(
    l: Lanes<T>,
    code: Seq<u8>,
    op: OpKind,
    d: Reg,
    a: Reg,
    scratch: [Reg; 4],
    s: Cpu<T>,
)
    requires
        l.coherent(),
        unary_code(code, op, d, a, scratch) is Some,
        d.0 < 16,
        a.0 < 16,
        scratch[0].0 < 16,
        scratch[0] != a,
    ensures
        computes(
            l,
            code,
            unary_code(code, op, d, a, scratch)->0,
            s,
            d,
            l.unary(Dialect::X86, op, s.v[a.0 as int]),
            seq![scratch[0]],
        ),
{
    let x = s.v[a.0 as int];
    let t = scratch[0];
    let y = l.unary(Dialect::X86, op, x);
    let one = s.with_v(d.0 as int, y);
    assert(sets(s, one, d, y, seq![t]));
    match op {
        OpKind::Sqrt => lemma_sse(l, code, 0x51, d, a, s),
        OpKind::Rsqrt => lemma_sse(l, code, 0x52, d, a, s),
        OpKind::Recip => lemma_sse(l, code, 0x53, d, a, s),
        OpKind::Neg => {
            let m = (l.constant)(0x8000_0000);
            constant_code_computes(l, code, t, 0x8000_0000, s);
            let c1 = code.constant(t, 0x8000_0000);
            lemma_vex(l, c1, 0, 1, d, a, t, 0x57, s.with_v(t.0 as int, m));
            assert((l.one)(Prim1::Neg, x) == (l.two)(Prim2::Xor, x, m));
            lemma_pair(l, code, c1, c1.vop(0x57, d, a, t), s, t, m, d, y);
        },
        OpKind::Abs => {
            let m = (l.constant)(0x7FFF_FFFF);
            constant_code_computes(l, code, t, 0x7FFF_FFFF, s);
            let c1 = code.constant(t, 0x7FFF_FFFF);
            lemma_vex(l, c1, 0, 1, d, a, t, 0x54, s.with_v(t.0 as int, m));
            assert((l.one)(Prim1::Abs, x) == (l.two)(Prim2::And, x, m));
            lemma_pair(l, code, c1, c1.vop(0x54, d, a, t), s, t, m, d, y);
        },
        OpKind::Floor => lemma_vex_imm(l, code, 1, 3, d, Reg(0), a, 0x08, 1, s),
        OpKind::Ceil => lemma_vex_imm(l, code, 1, 3, d, Reg(0), a, 0x08, 2, s),
        OpKind::Round => lemma_vex_imm(l, code, 1, 3, d, Reg(0), a, 0x08, 0, s),
        OpKind::Fract => {
            let m = (l.one)(Prim1::Floor, x);
            lemma_vex_imm(l, code, 1, 3, t, Reg(0), a, 0x08, 1, s);
            let c1 = code.rounded(t, a, 1);
            lemma_vex(l, c1, 0, 1, d, a, t, 0x5C, s.with_v(t.0 as int, m));
            lemma_pair(l, code, c1, c1.vop(0x5C, d, a, t), s, t, m, d, y);
        },
        OpKind::TruncToInt => lemma_vex(l, code, 2, 1, d, Reg(0), a, 0x5B, s),
        _ => lemma_vex(l, code, 0, 1, d, Reg(0), a, 0x5B, s),
    }
}

/// The code of a copy copies, also if the registers are the same.
proof fn lemma_copied<T>(l: Lanes<T>, code: Seq<u8>, d: Reg, a: Reg, s: Cpu<T>) -> (t: Cpu<T>)
    requires
        d.0 < 16,
        a.0 < 16,
    ensures
        does(l, code, copy_code(code, d, a), s, t),
        t == s.with_v(d.0 as int, s.v[a.0 as int]) || d == a && t == s,
{
    if d.0 != a.0 {
        lemma_sse(l, code, 0x28, d, a, s);
        s.with_v(d.0 as int, s.v[a.0 as int])
    } else {
        lemma_idle(l, code, s);
        s
    }
}

/// The code of each binary operation computes it, if the copy of the first operand to `d`
/// does not overwrite the second.
pub proof fn binary_code_computes<T>(
    l: Lanes<T>,
    code: Seq<u8>,
    op: OpKind,
    d: Reg,
    a: Reg,
    b: Reg,
    s: Cpu<T>,
)
    requires
        binary_code(code, op, d, a, b) is Some,
        d.0 < 16,
        a.0 < 16,
        b.0 < 16,
        d == a || d != b,
    ensures
        computes(
            l,
            code,
            binary_code(code, op, d, a, b)->0,
            s,
            d,
            l.binary(Dialect::X86, op, s.v[a.0 as int], s.v[b.0 as int]),
            Seq::empty(),
        ),
{
    let x = s.v[a.0 as int];
    let z = s.v[b.0 as int];
    let y = l.binary(Dialect::X86, op, x, z);
    let c = copy_code(code, d, a);
    let out = binary_code(code, op, d, a, b)->0;
    let m = lemma_copied(l, code, d, a, s);
    let t = m.with_v(d.0 as int, y);
    match op {
        OpKind::Add => lemma_sse(l, c, 0x58, d, b, m),
        OpKind::Sub => lemma_sse(l, c, 0x5C, d, b, m),
        OpKind::Mul => lemma_sse(l, c, 0x59, d, b, m),
        OpKind::Div => lemma_sse(l, c, 0x5E, d, b, m),
        OpKind::Min => lemma_sse(l, c, 0x5D, d, b, m),
        OpKind::Max => lemma_sse(l, c, 0x5F, d, b, m),
        OpKind::Eq => lemma_sse_compare(l, c, 0, d, b, m),
        OpKind::Ne => lemma_sse_compare(l, c, 4, d, b, m),
        OpKind::Lt => lemma_sse_compare(l, c, 1, d, b, m),
        OpKind::Le => lemma_sse_compare(l, c, 2, d, b, m),
        OpKind::Gt => lemma_sse_compare(l, c, 6, d, b, m),
        OpKind::Ge => lemma_sse_compare(l, c, 5, d, b, m),
        OpKind::IAdd => lemma_vex(l, c, 1, 1, d, d, b, 0xFE, m),
        OpKind::BitAnd => lemma_vex(l, c, 0, 1, d, d, b, 0x54, m),
        _ => lemma_vex(l, c, 0, 1, d, d, b, 0x56, m),
    }
    assert(does(l, c, out, m, t));
    lemma_does(l, code, c, out, s, m, t);
    assert(sets(s, t, d, y, Seq::empty()));
}

/// The code of a choice by mask leaves the first value where the mask is set, and the
/// second elsewhere.
pub proof fn blend_code_computes<T>(
    l: Lanes<T>,
    code: Seq<u8>,
    d: Reg,
    mask: Reg,
    a: Reg,
    b: Reg,
    tmp: Reg,
    s: Cpu<T>,
)
    requires
        l.coherent(),
        d.0 < 16,
        mask.0 < 16,
        a.0 < 16,
        b.0 < 16,
        tmp.0 < 16,
        tmp != d,
        tmp != mask,
        tmp != b,
    ensures
        computes(
            l,
            code,
            blend_code(code, d, mask, a, b, tmp),
            s,
            d,
            (l.select)(s.v[mask.0 as int], s.v[a.0 as int], s.v[b.0 as int]),
            seq![tmp],
        ),
{
    let m = s.v[mask.0 as int];
    let x = s.v[a.0 as int];
    let z = s.v[b.0 as int];
    let p = (l.two)(Prim2::And, m, x);
    let q = (l.two)(Prim2::AndNot, m, z);
    let y = (l.two)(Prim2::Or, p, q);
    assert((l.select)(m, x, z) == y);
    let c1 = code.vop(0x54, tmp, mask, a);
    let c2 = c1.vop(0x55, d, mask, b);
    let c3 = c2.vop(0x56, d, tmp, d);
    let s1 = s.with_v(tmp.0 as int, p);
    let s2 = s1.with_v(d.0 as int, q);
    let s3 = s2.with_v(d.0 as int, y);
    lemma_vex(l, code, 0, 1, tmp, mask, a, 0x54, s);
    lemma_vex(l, c1, 0, 1, d, mask, b, 0x55, s1);
    lemma_vex(l, c2, 0, 1, d, tmp, d, 0x56, s2);
    lemma_does(l, code, c1, c2, s, s1, s2);
    lemma_does(l, code, c2, c3, s, s2, s3);
    assert(seq![tmp][0] == tmp);
    assert(sets(s, s3, d, y, seq![tmp]));
}

/// The length of a vector: the root of the sum of the squares.
pub proof fn hypot_code_computes<T>(
    l: Lanes<T>,
    code: Seq<u8>,
    d: Reg,
    a: Reg,
    b: Reg,
    scratch: [Reg; 4],
    s: Cpu<T>,
)
    requires
        d.0 < 16,
        a.0 < 16,
        b.0 < 16,
        scratch[0].0 < 16,
        scratch[0] != d,
        scratch[0] != b,
    ensures
        computes(
            l,
            code,
            hypot_code(code, d, a, b, scratch),
            s,
            d,
            l.binary(Dialect::X86, OpKind::Hypot, s.v[a.0 as int], s.v[b.0 as int]),
            seq![scratch[0]],
        ),
{
    let t = scratch[0];
    let x = s.v[a.0 as int];
    let z = s.v[b.0 as int];
    let p = (l.two)(Prim2::Mul, x, x);
    let q = (l.two)(Prim2::Mul, z, z);
    let r = (l.two)(Prim2::Add, q, p);
    let y = (l.one)(Prim1::Sqrt, r);
    let c1 = code.vop(0x59, t, a, a);
    let c2 = c1.vop(0x59, d, b, b);
    let c3 = c2.vop(0x58, d, d, t);
    let c4 = c3.vop(0x51, d, Reg(0), d);
    let s1 = s.with_v(t.0 as int, p);
    let s2 = s1.with_v(d.0 as int, q);
    let s3 = s2.with_v(d.0 as int, r);
    let s4 = s3.with_v(d.0 as int, y);
    lemma_vex(l, code, 0, 1, t, a, a, 0x59, s);
    lemma_vex(l, c1, 0, 1, d, b, b, 0x59, s1);
    lemma_vex(l, c2, 0, 1, d, d, t, 0x58, s2);
    lemma_vex(l, c3, 0, 1, d, Reg(0), d, 0x51, s3);
    lemma_does(l, code, c1, c2, s, s1, s2);
    lemma_does(l, code, c2, c3, s, s2, s3);
    lemma_does(l, code, c3, c4, s, s3, s4);
    assert(seq![t][0] == t);
    assert(sets(s, s4, d, y, seq![t]));
}

/// The code of a shift by an immediate shifts every lane.
pub proof fn shift_code_computes<T>(
    l: Lanes<T>,
    code: Seq<u8>,
    left: bool,
    d: Reg,
    a: Reg,
    amount: u8,
    s: Cpu<T>,
)
    requires
        d.0 < 16,
        a.0 < 16,
    ensures
        computes(
            l,
            code,
            code.shift(
                if left {
                    6u8
                } else {
                    2u8
                },
                d,
                a,
                amount,
            ),
            s,
            d,
            if left {
                (l.shl)(s.v[a.0 as int], amount)
            } else {
                (l.shr)(s.v[a.0 as int], amount)
            },
            Seq::empty(),
        ),
{
    let y = if left {
        (l.shl)(s.v[a.0 as int], amount)
    } else {
        (l.shr)(s.v[a.0 as int], amount)
    };
    lemma_vex_imm(
        l,
        code,
        1,
        1,
        Reg(
            if left {
                6u8
            } else {
                2u8
            },
        ),
        d,
        a,
        0x72,
        amount,
        s,
    );
    assert(sets(s, s.with_v(d.0 as int, y), d, y, Seq::empty()));
}

/// The code of a multiply-add multiplies and adds; that of a clamp takes the smaller of the
/// value and the upper bound, and the larger of that and the lower bound. `d` overwrites
/// no operand that is still to be read.
pub proof fn ternary_code_computes<T>(
    l: Lanes<T>,
    code: Seq<u8>,
    op: OpKind,
    d: Reg,
    a: Reg,
    b: Reg,
    c: Reg,
    s: Cpu<T>,
)
    requires
        op is MulAdd || op is Clamp,
        d.0 < 16,
        a.0 < 16,
        b.0 < 16,
        c.0 < 16,
        d == a && op is MulAdd || d != b,
        d == a && op is Clamp || d != c,
    ensures
        ({
            let x = s.v[a.0 as int];
            let y = s.v[b.0 as int];
            let z = s.v[c.0 as int];
            computes(
                l,
                code,
                ternary_code(code, op, d, a, b, c)->0,
                s,
                d,
                if op is MulAdd {
                    (l.two)(Prim2::Add, (l.two)(Prim2::Mul, x, y), z)
                } else {
                    (l.two)(Prim2::Max, (l.two)(Prim2::Min, x, z), y)
                },
                Seq::empty(),
            )
        }),
{
    let x = s.v[a.0 as int];
    let y = s.v[b.0 as int];
    let z = s.v[c.0 as int];
    let c0 = copy_code(code, d, a);
    let m = lemma_copied(l, code, d, a, s);
    let out = ternary_code(code, op, d, a, b, c)->0;
    if op is MulAdd {
        let p = (l.two)(Prim2::Mul, x, y);
        let r = (l.two)(Prim2::Add, p, z);
        let s1 = m.with_v(d.0 as int, p);
        let s2 = s1.with_v(d.0 as int, r);
        lemma_sse(l, c0, 0x59, d, b, m);
        lemma_sse(l, c0.sse(0x59, d, b), 0x58, d, c, s1);
        lemma_does(l, code, c0, c0.sse(0x59, d, b), s, m, s1);
        lemma_does(l, code, c0.sse(0x59, d, b), out, s, s1, s2);
        assert(sets(s, s2, d, r, Seq::empty()));
    } else {
        let p = (l.two)(Prim2::Min, x, z);
        let r = (l.two)(Prim2::Max, p, y);
        let s1 = m.with_v(d.0 as int, p);
        let s2 = s1.with_v(d.0 as int, r);
        lemma_sse(l, c0, 0x5D, d, c, m);
        lemma_sse(l, c0.sse(0x5D, d, c), 0x5F, d, b, s1);
        lemma_does(l, code, c0, c0.sse(0x5D, d, c), s, m, s1);
        lemma_does(l, code, c0.sse(0x5D, d, c), out, s, s1, s2);
        assert(sets(s, s2, d, r, Seq::empty()));
    }
}

/// A load or a store at the stack pointer plus a displacement.
pub(crate) proof fn lemma_at_rsp<T>(l: Lanes<T>, code: Seq<u8>, r: Reg, disp: i8, s: Cpu<T>)
    requires
        r.0 < 16,
    ensures
        does(l, code, code.at_rsp(0x10, r, disp), s, s.with_v(r.0 as int, s.mem[s.rsp + disp])),
        does(
            l,
            code,
            code.at_rsp(0x11, r, disp),
            s,
            (Cpu { mem: s.mem.insert(s.rsp + disp, s.v[r.0 as int]), ..s }),
        ),
{
    let n = code.len() as int;
    let byte = disp as u8;
    assert(disp >= 0 ==> byte == disp) by (bit_vector)
        requires
            byte == disp as u8,
    ;
    assert(disp < 0 ==> byte == disp + 256) by (bit_vector)
        requires
            byte == disp as u8,
    ;
    lemma_bytes(r.0, 0, 0, 0, 0);
    assert forall|opcode: u8, all: Seq<u8>|
        (opcode == 0x10 || opcode == 0x11) && #[trigger] code.at_rsp(opcode, r, disp).is_prefix_of(
            all,
        ) implies arrives(
        l,
        all,
        n,
        s,
        code.at_rsp(opcode, r, disp).len() as int,
        if opcode == 0x10 {
            s.with_v(r.0 as int, s.mem[s.rsp + disp])
        } else {
            Cpu { mem: s.mem.insert(s.rsp + disp, s.v[r.0 as int]), ..s }
        },
    ) by {
        let b = code.at_rsp(opcode, r, disp);
        lemma_step(l, all, n, s);
        if r.0 >= 8 {
            assert(all[n] == b[n] && all[n + 1] == b[n + 1] && all[n + 2] == b[n + 2] && all[n + 3]
                == b[n + 3] && all[n + 4] == b[n + 4] && all[n + 5] == b[n + 5]);
        } else {
            assert(all[n] == b[n] && all[n + 1] == b[n + 1] && all[n + 2] == b[n + 2] && all[n + 3]
                == b[n + 3] && all[n + 4] == b[n + 4]);
        }
    }
    assert(code.is_prefix_of(code.at_rsp(0x10, r, disp)));
    assert(code.is_prefix_of(code.at_rsp(0x11, r, disp)));
}

} // verus!
