//! What the code of a tree kernel's instructions does.

use crate::backend::emit::kernels::tree::{encoded, Inst};
use crate::backend::emit::lane::{Dialect, Lanes};
use crate::backend::emit::x86_64::effects::{
    binary_code_computes, blend_code_computes, computes, constant_code_computes,
    hypot_code_computes, lemma_sse, sets, unary_code_computes,
};
use crate::backend::emit::x86_64::model::{does, Cpu};
use crate::backend::emit::x86_64::{binary_code, unary_code, X86Code};
use crate::backend::emit::Reg;
use vstd::prelude::*;

verus! {

/// The register that an instruction writes its result to.
pub open spec fn target(i: Inst) -> Reg {
    match i {
        Inst::Load(dst, _) => dst,
        Inst::Copy(dst, _) => dst,
        Inst::Unary(_, dst, _, _) => dst,
        Inst::Binary(_, dst, _, _) => dst,
        Inst::Builtin(_, dst, _, _, _) => dst,
        Inst::Select(dst, _, _, _, _) => dst,
    }
}

/// What an instruction computes from the registers.
pub open spec fn outcome<T>(l: Lanes<T>, i: Inst, s: Cpu<T>) -> T {
    match i {
        Inst::Load(_, bits) => (l.constant)(bits),
        Inst::Copy(_, src) => s.v[src.0 as int],
        Inst::Unary(op, _, src, _) => l.unary(Dialect::X86, op, s.v[src.0 as int]),
        Inst::Binary(op, _, a, b) => l.binary(Dialect::X86, op, s.v[a.0 as int], s.v[b.0 as int]),
        Inst::Builtin(op, _, a, b, _) => l.binary(
            Dialect::X86,
            op,
            s.v[a.0 as int],
            s.v[b.0 as int],
        ),
        Inst::Select(_, mask, a, b, _) => (l.select)(
            s.v[mask.0 as int],
            s.v[a.0 as int],
            s.v[b.0 as int],
        ),
    }
}

/// The register that an instruction may use besides.
pub open spec fn spare(i: Inst) -> Seq<Reg> {
    match i {
        Inst::Unary(_, _, _, sc) => seq![sc[0]],
        Inst::Builtin(_, _, _, _, sc) => seq![sc[0]],
        Inst::Select(_, _, _, _, tmp) => seq![tmp],
        _ => Seq::empty(),
    }
}

/// The instruction's operation has code, and no operand is overwritten before it is read.
pub open spec fn sound(i: Inst) -> bool {
    match i {
        Inst::Load(dst, _) => dst.0 < 16,
        Inst::Copy(dst, src) => dst.0 < 16 && src.0 < 16,
        Inst::Unary(op, dst, src, sc) => unary_code(Seq::empty(), op, dst, src, sc) is Some && dst.0
            < 16 && src.0 < 16 && sc[0].0 < 16 && sc[0] != src,
        Inst::Binary(op, dst, a, b) => binary_code(Seq::empty(), op, dst, a, b) is Some && dst.0 < 16
            && a.0 < 16 && b.0 < 16 && (dst == a || dst != b),
        Inst::Builtin(op, dst, a, b, sc) => op is Hypot && dst.0 < 16 && a.0 < 16 && b.0 < 16
            && sc[0].0 < 16 && sc[0] != dst && sc[0] != b,
        Inst::Select(dst, mask, a, b, tmp) => dst.0 < 16 && mask.0 < 16 && a.0 < 16 && b.0 < 16
            && tmp.0 < 16 && tmp != dst && tmp != mask && tmp != b,
    }
}

/// The code of an instruction computes what the instruction does.
pub proof fn the_code_of_an_instruction_computes_it<T>(
    l: Lanes<T>,
    code: Seq<u8>,
    i: Inst,
    s: Cpu<T>,
)
    requires
        l.coherent(),
        sound(i),
    ensures
        computes(l, code, encoded(code, i), s, target(i), outcome(l, i, s), spare(i)),
{
    reveal(encoded);
    let y = outcome(l, i, s);
    let d = target(i);
    let t = s.with_v(d.0 as int, y);
    assert(sets(s, t, d, y, Seq::empty()));
    match i {
        Inst::Load(dst, bits) => {
            constant_code_computes(l, code, dst, bits, s);
            assert(does(l, code, encoded(code, i), s, t));
        },
        Inst::Copy(dst, src) => {
            lemma_sse(l, code, 0x28, dst, src, s);
            assert(does(l, code, encoded(code, i), s, t));
        },
        Inst::Unary(op, dst, src, sc) => {
            assert(unary_code(code, op, dst, src, sc) is Some);
            unary_code_computes(l, code, op, dst, src, sc, s);
        },
        Inst::Binary(op, dst, a, b) => {
            assert(binary_code(code, op, dst, a, b) is Some);
            binary_code_computes(l, code, op, dst, a, b, s);
        },
        Inst::Builtin(_, dst, a, b, sc) => {
            hypot_code_computes(l, code, dst, a, b, sc, s);
        },
        Inst::Select(dst, mask, a, b, tmp) => {
            blend_code_computes(l, code, dst, mask, a, b, tmp, s);
        },
    }
}

} // verus!
