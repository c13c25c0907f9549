//! What the code of each NEON operation does.

use crate::backend::emit::aarch64::model::{
    does, effect, immediate, lemma_does, lemma_idle, lemma_word, plain, three, two, Cpu,
};
use crate::backend::emit::aarch64::ops::{
    binary_code, copied_code, shift_code, ternary_code, unary_code,
};
use crate::backend::emit::aarch64::builtins::hypot_code;
use crate::backend::emit::aarch64::{
    chunked, expand_imm8, fmov_word, gp_const_code, imm12_word, imm8_of, misc2, mov_v, same3, shl_word,
    u32_const_code, ushr_word, x16_from_sp,
};
use crate::backend::emit::bytes::CodeBytes;
use crate::backend::emit::isa::{Aarch64Backend, IsaBackend};
use crate::backend::emit::pool::{pool_offset, pool_ok};
use crate::backend::emit::lane::{Dialect, Lanes, Prim1, Prim2};
use crate::backend::emit::Reg;
use crate::kind::OpKind;
use vstd::prelude::*;

verus! {

/// The fixed parts of a word all start with the same eight bits.
pub open spec fn around(w: u32, top: u32) -> bool {
    &&& top <= w & 0xFFE0FC00 && w & 0xFFE0FC00 <= w
    &&& top <= w & 0xFFFFFC00 && w & 0xFFFFFC00 <= w
    &&& top <= w & 0xFFA0FC00 && w & 0xFFA0FC00 <= w
    &&& top <= w & 0xFFF8FC00 && w & 0xFFF8FC00 <= w
    &&& top <= w & 0xFFFFFFE0 && w & 0xFFFFFFE0 <= w
    &&& top <= w & 0xFFE00000 && w & 0xFFE00000 <= w
    &&& top <= w & 0xFFC00000 && w & 0xFFC00000 <= w
    &&& w <= top + 0xFF_FFFF
    &&& w & 0xFF000000 == top
}

/// A word with a 12-bit immediate and two registers.
pub open spec fn wide_ok(op: u32, top: u32, i: u32, n: u32, d: u32) -> bool {
    let w = op | (i << 10) | (n << 5) | d;
    &&& w & 31 == d
    &&& (w >> 5) & 31 == n
    &&& (w >> 10) & 0xFFF == i
    &&& w & 0xFFC00000 == op
    &&& w & 0xFC000000 != 0x14000000
    &&& around(w, top)
}

/// A word with a 16-bit immediate for W16.
pub open spec fn half_ok(op: u32, top: u32, i: u32) -> bool {
    let w = (op | 16) | (i << 5);
    &&& w & 31 == 16
    &&& (w >> 5) & 0xFFFF == i
    &&& w & 0xFFE00000 == op
    &&& w & 0xFC000000 != 0x14000000
    &&& around(w, top)
}

/// The remaining words: shifts, immediates and W16 to every lane.
pub open spec fn rest_ok(d: u32, n: u32, k: u32, i8: u32) -> bool {
    let right = 0x6F200400u32 | d | (n << 5) | (((64 - k) as u32 & 0x3F) << 16);
    let left = 0x4F005400u32 | d | (n << 5) | (((k + 32) as u32) << 16);
    let fmov = 0x4F00F400u32 | (((i8 >> 5) & 0x7) << 16) | ((i8 & 0x1F) << 5) | d;
    let zero = 0x4F000400u32 | d;
    let dup = 0x4E040C00u32 | d | (16u32 << 5);
    &&& 1 <= k ==> right & 31 == d && (right >> 5) & 31 == n && (right >> 16) & 127 == 64 - k && right
        & 0xFFA0FC00 == 0x6F200400 && around(right, 0x6F000000) && right & 0xFC000000 != 0x14000000
        && right & 0xFFE0FC00 == 0x6F200400
    &&& left & 31 == d && (left >> 5) & 31 == n && (left >> 16) & 127 == k + 32 && left & 0xFFA0FC00
        == 0x4F205400 && around(left, 0x4F000000) && left & 0xFC000000 != 0x14000000 && left
        & 0xFFE0FC00 == 0x4F205400
    &&& fmov & 31 == d && (fmov >> 5) & 31 == i8 & 0x1F && (fmov >> 16) & 7 == i8 >> 5 && fmov
        & 0xFFF8FC00 == 0x4F00F400 && fmov & 0xFFA0FC00 == 0x4F00F400 && around(fmov, 0x4F000000)
        && fmov & 0xFC000000 != 0x14000000
    &&& zero & 31 == d && zero & 0xFFFFFFE0 == 0x4F000400 && zero & 0xFFF8FC00 == 0x4F000400 && zero
        & 0xFFA0FC00 == 0x4F000400 && around(zero, 0x4F000000) && zero & 0xFC000000 != 0x14000000
    &&& dup & 31 == d && (dup >> 5) & 31 == 16 && dup & 0xFFFFFC00 == 0x4E040C00 && dup & 0xFFE0FC00
        == 0x4E000C00 && around(dup, 0x4E000000) && dup & 0xFC000000 != 0x14000000
}

proof fn lemma_formats(d: u32, n: u32, i12: u32, i16: u32, k: u32, i8: u32)
    requires
        d < 32,
        n < 32,
        i12 < 4096,
        i16 < 0x1_0000,
        k < 32,
        i8 < 256,
    ensures
        wide_ok(0x3DC00000, 0x3D000000, i12, n, d),
        wide_ok(0x3D800000, 0x3D000000, i12, n, d),
        wide_ok(0x91000000, 0x91000000, i12, n, d),
        wide_ok(0xD1000000, 0xD1000000, i12, n, d),
        half_ok(0x52800000, 0x52000000, i16),
        half_ok(0x72A00000, 0x72000000, i16),
        rest_ok(d, n, k, i8),
{
    assert(d < 32 && n < 32 && i12 < 4096 && i16 < 0x1_0000 && k < 32 && i8 < 256 ==> wide_ok(
        0x3DC00000,
        0x3D000000,
        i12,
        n,
        d,
    ) && wide_ok(0x3D800000, 0x3D000000, i12, n, d) && wide_ok(0x91000000, 0x91000000, i12, n, d)
        && wide_ok(0xD1000000, 0xD1000000, i12, n, d) && half_ok(0x52800000, 0x52000000, i16)
        && half_ok(0x72A00000, 0x72000000, i16) && rest_ok(d, n, k, i8)) by (bit_vector);
}

/// From `s` to `t` register `d` receives `y`. Of the other vector registers only those in
/// `scratch` may change, of the general registers only X16, and memory does not.
pub open spec fn sets<T>(s: Cpu<T>, t: Cpu<T>, d: Reg, y: T, scratch: Seq<Reg>) -> bool {
    &&& t.v[d.0 as u32] == y
    &&& t.mem == s.mem
    &&& forall|r: u32| r != 16 ==> #[trigger] t.x[r] == s.x[r]
    &&& forall|r: u8| r != d.0 && !scratch.contains(Reg(r)) ==> #[trigger] t.v[r as u32] == s.v[r as u32]
}

/// The code that was appended leaves `y` in register `d`, and changes nothing else but the
/// registers in `scratch`.
pub open spec fn computes<T>(
    l: Lanes<T>,
    a: Seq<u8>,
    b: Seq<u8>,
    s: Cpu<T>,
    d: Reg,
    y: T,
    scratch: Seq<Reg>,
) -> bool {
    exists|t: Cpu<T>| #[trigger] does(l, a, b, s, t) && sets(s, t, d, y, scratch)
}

proof fn lemma_three_keys(op: u32)
    requires
        three(op) is Some || op == 0x4E20CC00 || op == 0x6E601C00,
    ensures
        op & 0x001F03FF == 0,
        op & 0x400 == 0x400,
        0x4E000000 <= op < 0x70000000,
{
    assert((op == 0x4E20D400 || op == 0x4EA0D400 || op == 0x6E20DC00 || op == 0x6E20FC00 || op
        == 0x4EA0F400 || op == 0x4E20F400 || op == 0x6EA0E400 || op == 0x6E20E400 || op
        == 0x4E20E400 || op == 0x4EA08400 || op == 0x6EA08400 || op == 0x4E201C00 || op
        == 0x4EA01C00 || op == 0x4E20FC00 || op == 0x4EA0FC00 || op == 0x4E20CC00 || op
        == 0x6E601C00) ==> op & 0x001F03FF == 0 && op & 0x400 == 0x400) by (bit_vector);
}

proof fn lemma_two_keys(op: u32)
    requires
        two(op) is Some,
    ensures
        op & 0x3FF == 0,
        op & 0x400 == 0,
        0x4E000000 <= op < 0x70000000,
{
    assert((op == 0x6EA0F800 || op == 0x4EA0F800 || op == 0x6EA1F800 || op == 0x6E205800 || op
        == 0x4E219800 || op == 0x4EA18800 || op == 0x6E218800 || op == 0x4EA1B800 || op
        == 0x4E21D800 || op == 0x4EA1D800 || op == 0x6EA1D800) ==> op & 0x3FF == 0 && op & 0x400
        == 0) by (bit_vector);
}

proof fn lemma_same3_fields(op: u32, d: u8, a: u8, b: u8)
    requires
        op & 0x001F03FF == 0,
        0x4E000000 <= op < 0x70000000,
        d < 32,
        a < 32,
        b < 32,
    ensures
        ({
            let w = same3(op, Reg(d), Reg(a), Reg(b));
            &&& w & 0xFFE0FC00 == op
            &&& w & 31 == d
            &&& (w >> 5) & 31 == a
            &&& (w >> 16) & 31 == b
            &&& plain(w)
        }),
{
    let x = d as u32;
    let y = a as u32;
    let z = b as u32;
    let w = op | (x & 0x1F) | ((y & 0x1F) << 5) | ((z & 0x1F) << 16);
    assert(w & 0xFFE0FC00 == op && w & 31 == x && (w >> 5) & 31 == y && (w >> 16) & 31 == z && w
        & 0xFF000000 != 0x34000000 && w & 0xFC000000 != 0x14000000) by (bit_vector)
        requires
            op & 0x001F03FF == 0,
            0x4E000000 <= op < 0x70000000,
            x < 32,
            y < 32,
            z < 32,
            w == op | (x & 0x1F) | ((y & 0x1F) << 5) | ((z & 0x1F) << 16),
    ;
}

proof fn lemma_misc2_fields(op: u32, d: u8, a: u8)
    requires
        op & 0x3FF == 0,
        0x4E000000 <= op < 0x70000000,
        d < 32,
        a < 32,
    ensures
        ({
            let w = misc2(op, Reg(d), Reg(a));
            &&& w & 0xFFFFFC00 == op
            &&& w & 0xFFE0FC00 == op & 0xFFE0FC00
            &&& w & 31 == d
            &&& (w >> 5) & 31 == a
            &&& plain(w)
        }),
{
    let x = d as u32;
    let y = a as u32;
    let w = op | (x & 0x1F) | ((y & 0x1F) << 5);
    assert(w & 0xFFFFFC00 == op && w & 0xFFE0FC00 == op & 0xFFE0FC00 && w & 31 == x && (w >> 5) & 31
        == y && w & 0xFF000000 != 0x34000000 && w & 0xFC000000 != 0x14000000) by (bit_vector)
        requires
            op & 0x3FF == 0,
            0x4E000000 <= op < 0x70000000,
            x < 32,
            y < 32,
            w == op | (x & 0x1F) | ((y & 0x1F) << 5),
    ;
}

/// An instruction on three vectors.
pub(crate) proof fn lemma_three<T>(l: Lanes<T>, code: Seq<u8>, op: u32, d: Reg, a: Reg, b: Reg, s: Cpu<T>)
    requires
        three(op) is Some,
        d.0 < 32,
        a.0 < 32,
        b.0 < 32,
    ensures
        does(
            l,
            code,
            code.inst(same3(op, d, a, b)),
            s,
            s.with_v(
                d.0 as u32,
                if three(op)->0 is Or && a == b {
                    s.v[a.0 as u32]
                } else {
                    (l.two)(three(op)->0, s.v[a.0 as u32], s.v[b.0 as u32])
                },
            ),
        ),
{
    lemma_three_keys(op);
    lemma_same3_fields(op, d.0, a.0, b.0);
    lemma_word(l, code, same3(op, d, a, b), s);
}

/// A fused multiply-add.
pub(crate) proof fn lemma_fmla<T>(l: Lanes<T>, code: Seq<u8>, d: Reg, a: Reg, b: Reg, s: Cpu<T>)
    requires
        d.0 < 32,
        a.0 < 32,
        b.0 < 32,
    ensures
        does(
            l,
            code,
            code.inst(same3(0x4E20CC00, d, a, b)),
            s,
            s.with_v(
                d.0 as u32,
                (l.fused)(s.v[a.0 as u32], s.v[b.0 as u32], s.v[d.0 as u32]),
            ),
        ),
{
    lemma_three_keys(0x4E20CC00);
    lemma_same3_fields(0x4E20CC00, d.0, a.0, b.0);
    lemma_word(l, code, same3(0x4E20CC00, d, a, b), s);
}

/// A choice by mask.
pub(crate) proof fn lemma_bsl<T>(l: Lanes<T>, code: Seq<u8>, d: Reg, a: Reg, b: Reg, s: Cpu<T>)
    requires
        d.0 < 32,
        a.0 < 32,
        b.0 < 32,
    ensures
        does(
            l,
            code,
            code.inst(same3(0x6E601C00, d, a, b)),
            s,
            s.with_v(
                d.0 as u32,
                (l.select)(s.v[d.0 as u32], s.v[a.0 as u32], s.v[b.0 as u32]),
            ),
        ),
{
    lemma_three_keys(0x6E601C00);
    lemma_same3_fields(0x6E601C00, d.0, a.0, b.0);
    lemma_word(l, code, same3(0x6E601C00, d, a, b), s);
}

/// An instruction on two vectors.
pub(crate) proof fn lemma_two<T>(l: Lanes<T>, code: Seq<u8>, op: u32, d: Reg, a: Reg, s: Cpu<T>)
    requires
        two(op) is Some,
        d.0 < 32,
        a.0 < 32,
    ensures
        does(
            l,
            code,
            code.inst(misc2(op, d, a)),
            s,
            s.with_v(d.0 as u32, (l.one)(two(op)->0, s.v[a.0 as u32])),
        ),
{
    lemma_two_keys(op);
    lemma_misc2_fields(op, d.0, a.0);
    let w = misc2(op, d, a);
    let key = op & 0xFFE0FC00;
    assert(key & 0x400 == 0) by (bit_vector)
        requires
            op & 0x400 == 0,
            key == op & 0xFFE0FC00,
    ;
    if three(key) is Some || key == 0x4E20CC00 || key == 0x6E601C00 {
        lemma_three_keys(key);
    }
    lemma_word(l, code, w, s);
}

/// A register copy.
pub(crate) proof fn lemma_copy<T>(l: Lanes<T>, code: Seq<u8>, d: Reg, a: Reg, s: Cpu<T>)
    requires
        d.0 < 32,
        a.0 < 32,
    ensures
        does(l, code, copied_code(code, d, a), s, s.with_v(d.0 as u32, s.v[a.0 as u32])) || d == a
            && copied_code(code, d, a) == code,
        mov_v(d.0, a.0) == same3(0x4EA01C00, d, a, a),
        does(l, code, code.inst(mov_v(d.0, a.0)), s, s.with_v(d.0 as u32, s.v[a.0 as u32])),
{
    let x = d.0 as u32;
    let y = a.0 as u32;
    assert(0x4EA01C00u32 | (y << 5) | (y << 16) | x == 0x4EA01C00u32 | (x & 0x1F) | ((y & 0x1F)
        << 5) | ((y & 0x1F) << 16)) by (bit_vector)
        requires
            x < 32,
            y < 32,
    ;
    lemma_three(l, code, 0x4EA01C00, d, a, a, s);
}

/// The code of each unary operation computes it: with `a` and `d` any registers, and for
/// the refined reciprocals `a` not overwritten by `d`.
pub proof fn unary_code_computes<T>(
    l: Lanes<T>,
    code: Seq<u8>,
    op: OpKind,
    d: Reg,
    a: Reg,
    scratch: [Reg; 4],
    s: Cpu<T>,
)
    requires
        unary_code(code, op, d, a, scratch) is Some,
        d.0 < 32,
        a.0 < 32,
        scratch[0].0 < 32,
        scratch[0] != d,
        scratch[0] != a,
        op is Recip || op is Rsqrt ==> d != a,
    ensures
        computes(
            l,
            code,
            unary_code(code, op, d, a, scratch)->0,
            s,
            d,
            l.unary(Dialect::Neon, op, s.v[a.0 as u32]),
            seq![scratch[0]],
        ),
{
    let x = s.v[a.0 as u32];
    let t = scratch[0];
    let free = seq![t];
    assert(free.contains(t)) by {
        assert(free[0] == t);
    }
    let out = unary_code(code, op, d, a, scratch)->0;
    match op {
        OpKind::Neg => lemma_two(l, code, 0x6EA0F800, d, a, s),
        OpKind::Abs => lemma_two(l, code, 0x4EA0F800, d, a, s),
        OpKind::Sqrt => lemma_two(l, code, 0x6EA1F800, d, a, s),
        OpKind::Floor => lemma_two(l, code, 0x4E219800, d, a, s),
        OpKind::Ceil => lemma_two(l, code, 0x4EA18800, d, a, s),
        OpKind::Round => lemma_two(l, code, 0x6E218800, d, a, s),
        OpKind::TruncToInt => lemma_two(l, code, 0x4EA1B800, d, a, s),
        OpKind::IntToFloat => lemma_two(l, code, 0x4E21D800, d, a, s),
        OpKind::Fract => {
            let c1 = code.inst(misc2(0x4E219800, t, a));
            let s1 = s.with_v(t.0 as u32, (l.one)(Prim1::Floor, x));
            lemma_two(l, code, 0x4E219800, t, a, s);
            let s2 = s1.with_v(d.0 as u32, (l.two)(Prim2::Sub, x, (l.one)(Prim1::Floor, x)));
            lemma_three(l, c1, 0x4EA0D400, d, a, t, s1);
            lemma_does(l, code, c1, out, s, s1, s2);
            assert(sets(s, s2, d, l.unary(Dialect::Neon, op, x), free));
        },
        OpKind::Recip => {
            let e = (l.one)(Prim1::RecipEstimate, x);
            let f = (l.two)(Prim2::RecipStep, x, e);
            let c1 = code.inst(misc2(0x4EA1D800, d, a));
            let c2 = c1.inst(same3(0x4E20FC00, t, a, d));
            let s1 = s.with_v(d.0 as u32, e);
            let s2 = s1.with_v(t.0 as u32, f);
            let s3 = s2.with_v(d.0 as u32, (l.two)(Prim2::Mul, e, f));
            lemma_two(l, code, 0x4EA1D800, d, a, s);
            lemma_three(l, c1, 0x4E20FC00, t, a, d, s1);
            lemma_three(l, c2, 0x6E20DC00, d, d, t, s2);
            lemma_does(l, code, c1, c2, s, s1, s2);
            lemma_does(l, code, c2, out, s, s2, s3);
            assert(sets(s, s3, d, l.unary(Dialect::Neon, op, x), free));
        },
        _ => {
            let e = (l.one)(Prim1::RsqrtEstimate, x);
            let q = (l.two)(Prim2::Mul, e, e);
            let f = (l.two)(Prim2::RsqrtStep, x, q);
            let c1 = code.inst(misc2(0x6EA1D800, d, a));
            let c2 = c1.inst(same3(0x6E20DC00, t, d, d));
            let c3 = c2.inst(same3(0x4EA0FC00, t, a, t));
            let s1 = s.with_v(d.0 as u32, e);
            let s2 = s1.with_v(t.0 as u32, q);
            let s3 = s2.with_v(t.0 as u32, f);
            let s4 = s3.with_v(d.0 as u32, (l.two)(Prim2::Mul, e, f));
            lemma_two(l, code, 0x6EA1D800, d, a, s);
            lemma_three(l, c1, 0x6E20DC00, t, d, d, s1);
            lemma_three(l, c2, 0x4EA0FC00, t, a, t, s2);
            lemma_three(l, c3, 0x6E20DC00, d, d, t, s3);
            lemma_does(l, code, c1, c2, s, s1, s2);
            lemma_does(l, code, c2, c3, s, s2, s3);
            lemma_does(l, code, c3, out, s, s3, s4);
            assert(sets(s, s4, d, l.unary(Dialect::Neon, op, x), free));
        },
    }
    let one = s.with_v(d.0 as u32, l.unary(Dialect::Neon, op, x));
    assert(sets(s, one, d, l.unary(Dialect::Neon, op, x), free));
}

/// The code of each binary operation computes it, whatever the registers; for the length
/// of a vector, the second operand is not overwritten by `d`.
pub proof fn binary_code_computes<T>(
    l: Lanes<T>,
    code: Seq<u8>,
    op: OpKind,
    d: Reg,
    a: Reg,
    b: Reg,
    s: Cpu<T>,
)
    requires
        l.coherent(),
        binary_code(code, op, d, a, b) is Some,
        d.0 < 32,
        a.0 < 32,
        b.0 < 32,
    ensures
        computes(
            l,
            code,
            binary_code(code, op, d, a, b)->0,
            s,
            d,
            l.binary(Dialect::Neon, op, s.v[a.0 as u32], s.v[b.0 as u32]),
            Seq::empty(),
        ),
{
    let x = s.v[a.0 as u32];
    let y = s.v[b.0 as u32];
    let out = binary_code(code, op, d, a, b)->0;
    match op {
        OpKind::Add => lemma_three(l, code, 0x4E20D400, d, a, b, s),
        OpKind::Sub => lemma_three(l, code, 0x4EA0D400, d, a, b, s),
        OpKind::Mul => lemma_three(l, code, 0x6E20DC00, d, a, b, s),
        OpKind::Div => lemma_three(l, code, 0x6E20FC00, d, a, b, s),
        OpKind::Min => lemma_three(l, code, 0x4EA0F400, d, a, b, s),
        OpKind::Max => lemma_three(l, code, 0x4E20F400, d, a, b, s),
        OpKind::Gt => lemma_three(l, code, 0x6EA0E400, d, a, b, s),
        OpKind::Ge => lemma_three(l, code, 0x6E20E400, d, a, b, s),
        OpKind::Lt => {
            lemma_three(l, code, 0x6EA0E400, d, b, a, s);
            assert((l.two)(Prim2::Greater, y, x) == (l.two)(Prim2::Less, x, y));
        },
        OpKind::Le => {
            lemma_three(l, code, 0x6E20E400, d, b, a, s);
            assert((l.two)(Prim2::GreaterOrEqual, y, x) == (l.two)(Prim2::LessOrEqual, x, y));
        },
        OpKind::Eq => lemma_three(l, code, 0x4E20E400, d, a, b, s),
        OpKind::Ne => {
            let e = (l.two)(Prim2::Equal, x, y);
            let c1 = code.inst(same3(0x4E20E400, d, a, b));
            let s1 = s.with_v(d.0 as u32, e);
            let s2 = s1.with_v(d.0 as u32, (l.one)(Prim1::Not, e));
            lemma_three(l, code, 0x4E20E400, d, a, b, s);
            lemma_two(l, c1, 0x6E205800, d, d, s1);
            lemma_does(l, code, c1, out, s, s1, s2);
            assert((l.two)(Prim2::NotEqual, x, y) == (l.one)(Prim1::Not, e));
            assert(sets(s, s2, d, l.binary(Dialect::Neon, op, x, y), Seq::empty()));
        },
        OpKind::IAdd => lemma_three(l, code, 0x4EA08400, d, a, b, s),
        OpKind::BitAnd => lemma_three(l, code, 0x4E201C00, d, a, b, s),
        _ => {
            lemma_three(l, code, 0x4EA01C00, d, a, b, s);
            assert((l.two)(Prim2::Or, x, x) == x);
        },
    }
    let one = s.with_v(d.0 as u32, l.binary(Dialect::Neon, op, x, y));
    assert(sets(s, one, d, l.binary(Dialect::Neon, op, x, y), Seq::empty()));
}

/// The code of a shift by an immediate shifts every lane. The immediate field of a right
/// shift holds amounts from one on, that of a left shift amounts below 32.
pub proof fn shift_code_computes<T>(
    l: Lanes<T>,
    code: Seq<u8>,
    op: OpKind,
    d: Reg,
    a: Reg,
    amount: u8,
    s: Cpu<T>,
)
    requires
        op is Shl || op is Shr,
        d.0 < 32,
        a.0 < 32,
        amount < 32,
        op is Shr ==> 1 <= amount,
    ensures
        computes(
            l,
            code,
            shift_code(code, op, d, a, amount)->0,
            s,
            d,
            if op is Shl {
                (l.shl)(s.v[a.0 as u32], amount)
            } else {
                (l.shr)(s.v[a.0 as u32], amount)
            },
            Seq::empty(),
        ),
{
    lemma_formats(d.0 as u32, a.0 as u32, 0, 0, amount as u32, 0);
    let w = if op is Shl {
        shl_word(d, a, amount)
    } else {
        ushr_word(d, a, amount)
    };
    let y = if op is Shl {
        (l.shl)(s.v[a.0 as u32], amount)
    } else {
        (l.shr)(s.v[a.0 as u32], amount)
    };
    lemma_word(l, code, w, s);
    assert(effect(l, s, w) == s.with_v(d.0 as u32, y));
    assert(sets(s, effect(l, s, w), d, y, Seq::empty()));
}

proof fn lemma_immediate(i: u8)
    ensures
        immediate(i as int) == expand_imm8(i),
        ((i as u32 >> 5) * 32 + (i as u32 & 0x1F)) == i,
{
    let x = i as u32;
    let sign = x / 128;
    let part = (x / 16) % 8;
    let low = x % 16;
    let e: u32 = if part < 4 {
        (128 + part) as u32
    } else {
        (120 + part) as u32
    };
    assert(expand_imm8(i) == sign * 0x8000_0000 + e * 0x80_0000 + low * 0x8_0000 && (x >> 5) * 32
        + (x & 0x1F) == x) by (bit_vector)
        requires
            x == i as u32,
            sign == x / 128,
            part == (x / 16) % 8,
            low == x % 16,
            e == if part < 4 {
                (128 + part) as u32
            } else {
                (120 + part) as u32
            },
    ;
}

/// Code that builds a constant inline leaves it in every lane.
pub(crate) proof fn lemma_gp_const<T>(l: Lanes<T>, code: Seq<u8>, d: Reg, bits: u32, s: Cpu<T>)
    requires
        d.0 < 32,
    ensures
        computes(l, code, gp_const_code(code, d, bits), s, d, (l.constant)(bits), Seq::empty()),
{
    let lo = bits & 0xFFFF;
    let hi = bits >> 16;
    assert(lo < 0x1_0000 && hi < 0x1_0000 && lo + hi * 0x1_0000 == bits) by (bit_vector)
        requires
            lo == bits & 0xFFFF,
            hi == bits >> 16,
    ;
    lemma_formats(d.0 as u32, 0, 0, lo, 0, 0);
    lemma_formats(d.0 as u32, 0, 0, hi, 0, 0);
    assert(0x52800000u32 | 16 == 0x52800010 && 0x72A00000u32 | 16 == 0x72A00010) by (bit_vector);
    let w1 = 0x52800010u32 | (lo << 5);
    let w2 = 0x72A00010u32 | (hi << 5);
    let w3 = 0x4E040C00u32 | (d.0 as u32) | (16u32 << 5);
    let c1 = code.inst(w1);
    let c2 = c1.inst(w2);
    let c3 = c2.inst(w3);
    let s1 = effect(l, s, w1);
    let s2 = effect(l, s1, w2);
    let s3 = effect(l, s2, w3);
    lemma_word(l, code, w1, s);
    lemma_word(l, c1, w2, s1);
    lemma_word(l, c2, w3, s2);
    assert(s1 == s.with_x(16, lo as int));
    assert(s2 == s1.with_x(16, bits as int));
    assert(s3 == s2.with_v(d.0 as u32, (l.constant)(bits)));
    lemma_does(l, code, c1, c2, s, s1, s2);
    lemma_does(l, code, c2, c3, s, s2, s3);
    assert(sets(s, s3, d, (l.constant)(bits), Seq::empty()));
}

/// Code loading a bit pattern leaves it in every lane.
pub(crate) proof fn lemma_u32_const<T>(l: Lanes<T>, code: Seq<u8>, d: Reg, bits: u32, s: Cpu<T>)
    requires
        d.0 < 32,
    ensures
        computes(l, code, u32_const_code(code, d, bits), s, d, (l.constant)(bits), Seq::empty()),
{
    if bits == 0 {
        lemma_formats(d.0 as u32, 0, 0, 0, 0, 0);
        let w = 0x4F000400u32 | (d.0 as u32);
        lemma_word(l, code, w, s);
        assert(sets(s, effect(l, s, w), d, (l.constant)(0), Seq::empty()));
    } else {
        lemma_gp_const(l, code, d, bits, s);
    }
}

/// The constants behind the code are in memory where X17 points.
pub open spec fn pool_loaded<T>(l: Lanes<T>, s: Cpu<T>, pool: Seq<u32>) -> bool {
    forall|i: int|
        0 <= i < pool.len() ==> s.mem[s.x[17] + 16 * i] == (l.constant)(#[trigger] pool[i])
}

/// A vector load or store at a general register plus an offset.
pub(crate) proof fn lemma_memory<T>(l: Lanes<T>, code: Seq<u8>, i: u32, n: u32, d: Reg, s: Cpu<T>)
    requires
        d.0 < 32,
        n < 32,
        i < 4096,
    ensures
        does(
            l,
            code,
            code.inst(imm12_word(0x3DC00000, i, n, d)),
            s,
            s.with_v(d.0 as u32, s.mem[s.x[n] + 16 * i]),
        ),
        does(
            l,
            code,
            code.inst(imm12_word(0x3D800000, i, n, d)),
            s,
            (Cpu { mem: s.mem.insert(s.x[n] + 16 * i, s.v[d.0 as u32]), ..s }),
        ),
        does(
            l,
            code,
            code.inst(imm12_word(0x91000000, i, n, d)),
            s,
            s.with_x(d.0 as u32, s.x[n] + i),
        ),
        does(
            l,
            code,
            code.inst(imm12_word(0xD1000000, i, n, d)),
            s,
            s.with_x(d.0 as u32, s.x[n] - i),
        ),
{
    lemma_formats(d.0 as u32, n, i, 0, 0, 0);
    lemma_word(l, code, imm12_word(0x3DC00000, i, n, d), s);
    lemma_word(l, code, imm12_word(0x3D800000, i, n, d), s);
    lemma_word(l, code, imm12_word(0x91000000, i, n, d), s);
    lemma_word(l, code, imm12_word(0xD1000000, i, n, d), s);
}

/// Code loading a constant leaves it in every lane, whether it is built inline or comes
/// from behind the code.
pub proof fn const_code_computes<T>(
    l: Lanes<T>,
    code: Seq<u8>,
    pool: Seq<u32>,
    d: Reg,
    bits: u32,
    s: Cpu<T>,
)
    requires
        d.0 < 32,
        pool_ok(pool),
        pool_loaded(l, s, pool),
    ensures
        computes(
            l,
            code,
            Aarch64Backend::const_code(code, pool, d, bits),
            s,
            d,
            (l.constant)(bits),
            Seq::empty(),
        ),
{
    let y = (l.constant)(bits);
    if pool.contains(bits) {
        let i = pool.index_of(bits);
        assert(pool[i] == bits);
        let k = (pool_offset(pool, bits) / 16) as u32;
        assert(k == i);
        lemma_memory(l, code, k, 17, d, s);
        assert(sets(s, s.with_v(d.0 as u32, y), d, y, Seq::empty()));
    } else if bits == 0 {
        lemma_u32_const(l, code, d, 0, s);
    } else {
        match imm8_of(bits) {
            Some(i) => {
                assert(expand_imm8(i) == bits);
                lemma_immediate(i);
                lemma_formats(d.0 as u32, 0, 0, 0, 0, i as u32);
                let w = fmov_word(d, i);
                lemma_word(l, code, w, s);
                assert(effect(l, s, w) == s.with_v(d.0 as u32, y));
                assert(sets(s, effect(l, s, w), d, y, Seq::empty()));
            },
            None => lemma_gp_const(l, code, d, bits, s),
        }
    }
}

/// A register is raised or lowered by a size, in as many instructions as it takes.
pub(crate) proof fn lemma_chunked<T>(
    l: Lanes<T>,
    code: Seq<u8>,
    up: bool,
    r: u32,
    base: u32,
    size: u32,
    s: Cpu<T>,
)
    requires
        r == 16 || r == 31,
        base == (if up {
            0x91000000u32
        } else {
            0xD1000000u32
        }) | (r << 5) | r,
        s.x.contains_key(r),
    ensures
        does(
            l,
            code,
            chunked(code, base, size),
            s,
            s.with_x(
                r,
                if up {
                    s.x[r] + size
                } else {
                    s.x[r] - size
                },
            ),
        ),
    decreases size,
{
    let op = if up {
        0x91000000u32
    } else {
        0xD1000000u32
    };
    let c = if size <= 4080 {
        size
    } else {
        4080u32
    };
    assert(base | (c << 10) == op | (c << 10) | (r << 5) | r) by (bit_vector)
        requires
            base == op | (r << 5) | r,
    ;
    let w = base | (c << 10);
    let s1 = s.with_x(
        r,
        if up {
            s.x[r] + c
        } else {
            s.x[r] - c
        },
    );
    lemma_memory(l, code, c, r, Reg(r as u8), s);
    if size == 0 {
        lemma_idle(l, code, s);
        assert(s1.x =~= s.x);
    } else if size > 4080 {
        lemma_chunked(l, code.inst(w), up, r, base, (size - 4080) as u32, s1);
        let end = s.with_x(
            r,
            if up {
                s.x[r] + size
            } else {
                s.x[r] - size
            },
        );
        let after = s1.with_x(
            r,
            if up {
                s1.x[r] + (size - 4080)
            } else {
                s1.x[r] - (size - 4080)
            },
        );
        assert(after.x =~= end.x);
        lemma_does(l, code, code.inst(w), chunked(code, base, size), s, s1, end);
    }
}

/// Code loading a stack slot reads the vector at the stack pointer plus the offset.
pub proof fn load_code_computes<T>(l: Lanes<T>, code: Seq<u8>, d: Reg, offset: u32, s: Cpu<T>)
    requires
        d.0 < 32,
        offset % 16 == 0,
    ensures
        computes(
            l,
            code,
            Aarch64Backend::load_code(code, d, offset),
            s,
            d,
            s.mem[s.x[31] + offset],
            Seq::empty(),
        ),
{
    let y = s.mem[s.x[31] + offset];
    if offset / 16 <= 4095 {
        lemma_memory(l, code, offset / 16, 31, d, s);
        assert(sets(s, s.with_v(d.0 as u32, y), d, y, Seq::empty()));
    } else {
        let c1 = x16_from_sp(code, offset);
        let s1 = s.with_x(16, s.x[31] + offset);
        lemma_x16(l, code, offset, s);
        lemma_memory(l, c1, 0, 16, d, s1);
        let s2 = s1.with_v(d.0 as u32, y);
        lemma_does(l, code, c1, Aarch64Backend::load_code(code, d, offset), s, s1, s2);
        assert(sets(s, s2, d, y, Seq::empty()));
    }
}

proof fn lemma_x16<T>(l: Lanes<T>, code: Seq<u8>, offset: u32, s: Cpu<T>)
    ensures
        does(l, code, x16_from_sp(code, offset), s, s.with_x(16, s.x[31] + offset)),
{
    let first = if offset < 4080 {
        offset
    } else {
        4080u32
    };
    let c1 = code.inst(imm12_word(0x91000000, first, 31, Reg(16)));
    let s1 = s.with_x(16, s.x[31] + first);
    lemma_memory(l, code, first, 31, Reg(16), s);
    let base = 0x91000000u32 | (16u32 << 5) | 16u32;
    lemma_chunked(l, c1, true, 16, base, (offset - first) as u32, s1);
    let end = s.with_x(16, s.x[31] + offset);
    let after = s1.with_x(16, s1.x[16] + (offset - first));
    assert(after.x =~= end.x);
    lemma_does(l, code, c1, x16_from_sp(code, offset), s, s1, end);
}

/// Code storing to a stack slot writes the register to the stack pointer plus the offset,
/// and changes no vector register.
pub proof fn store_code_computes<T>(l: Lanes<T>, code: Seq<u8>, a: Reg, offset: u32, s: Cpu<T>)
    requires
        a.0 < 32,
        offset % 16 == 0,
    ensures
        exists|t: Cpu<T>| #[trigger]
            does(l, code, Aarch64Backend::store_code(code, a, offset), s, t) && t.v == s.v && t.mem
                == s.mem.insert(s.x[31] + offset, s.v[a.0 as u32]) && forall|r: u32|
                r != 16 ==> #[trigger] t.x[r] == s.x[r],
{
    let out = Aarch64Backend::store_code(code, a, offset);
    let mem = s.mem.insert(s.x[31] + offset, s.v[a.0 as u32]);
    if offset / 16 <= 4095 {
        lemma_memory(l, code, offset / 16, 31, a, s);
        assert(does(l, code, out, s, (Cpu { mem, ..s })));
    } else {
        let c1 = x16_from_sp(code, offset);
        let s1 = s.with_x(16, s.x[31] + offset);
        lemma_x16(l, code, offset, s);
        lemma_memory(l, c1, 0, 16, a, s1);
        let s2 = Cpu { mem, ..s1 };
        lemma_does(l, code, c1, out, s, s1, s2);
        assert(does(l, code, out, s, s2));
    }
}

/// The code of a fused multiply-add leaves `dst + a * b`, rounded once, in `dst`.
pub proof fn fma_code_computes<T>(l: Lanes<T>, code: Seq<u8>, d: Reg, a: Reg, b: Reg, s: Cpu<T>)
    requires
        d.0 < 32,
        a.0 < 32,
        b.0 < 32,
    ensures
        computes(
            l,
            code,
            Aarch64Backend::fma_code(code, d, a, b),
            s,
            d,
            (l.fused)(s.v[a.0 as u32], s.v[b.0 as u32], s.v[d.0 as u32]),
            Seq::empty(),
        ),
{
    lemma_fmla(l, code, d, a, b, s);
    let y = (l.fused)(s.v[a.0 as u32], s.v[b.0 as u32], s.v[d.0 as u32]);
    assert(sets(s, s.with_v(d.0 as u32, y), d, y, Seq::empty()));
}

/// The code of a choice leaves in `dst` the first operand where the mask there is set, and
/// the second elsewhere.
pub proof fn select_code_computes<T>(l: Lanes<T>, code: Seq<u8>, d: Reg, a: Reg, b: Reg, s: Cpu<T>)
    requires
        d.0 < 32,
        a.0 < 32,
        b.0 < 32,
    ensures
        computes(
            l,
            code,
            Aarch64Backend::select_code(code, d, a, b),
            s,
            d,
            (l.select)(s.v[d.0 as u32], s.v[a.0 as u32], s.v[b.0 as u32]),
            Seq::empty(),
        ),
{
    lemma_bsl(l, code, d, a, b, s);
    let y = (l.select)(s.v[d.0 as u32], s.v[a.0 as u32], s.v[b.0 as u32]);
    assert(sets(s, s.with_v(d.0 as u32, y), d, y, Seq::empty()));
}

/// The code of a register copy copies the register.
pub proof fn mov_code_computes<T>(l: Lanes<T>, code: Seq<u8>, d: Reg, a: Reg, s: Cpu<T>)
    requires
        d.0 < 32,
        a.0 < 32,
    ensures
        computes(
            l,
            code,
            Aarch64Backend::mov_code(code, d, a),
            s,
            d,
            s.v[a.0 as u32],
            Seq::empty(),
        ),
{
    lemma_copy(l, code, d, a, s);
    lemma_idle(l, code, s);
    let y = s.v[a.0 as u32];
    assert(sets(s, s.with_v(d.0 as u32, y), d, y, Seq::empty()));
    assert(d == a ==> sets(s, s, d, y, Seq::empty()));
}

/// The length of a vector: the root of the sum of the squares.
pub proof fn hypot_code_computes<T>(l: Lanes<T>, code: Seq<u8>, d: Reg, a: Reg, b: Reg, s: Cpu<T>)
    requires
        d.0 < 32,
        a.0 < 32,
        b.0 < 32,
        d != b,
    ensures
        computes(
            l,
            code,
            hypot_code(code, d, a, b),
            s,
            d,
            l.binary(Dialect::Neon, OpKind::Hypot, s.v[a.0 as u32], s.v[b.0 as u32]),
            Seq::empty(),
        ),
{
    let x = s.v[a.0 as u32];
    let y = s.v[b.0 as u32];
    let q = (l.two)(Prim2::Mul, x, x);
    let r = (l.fused)(y, y, q);
    let c1 = code.inst(same3(0x6E20DC00, d, a, a));
    let c2 = c1.inst(same3(0x4E20CC00, d, b, b));
    let s1 = s.with_v(d.0 as u32, q);
    let s2 = s1.with_v(d.0 as u32, r);
    let s3 = s2.with_v(d.0 as u32, (l.one)(Prim1::Sqrt, r));
    lemma_three(l, code, 0x6E20DC00, d, a, a, s);
    lemma_fmla(l, c1, d, b, b, s1);
    lemma_two(l, c2, 0x6EA1F800, d, d, s2);
    lemma_does(l, code, c1, c2, s, s1, s2);
    lemma_does(l, code, c2, hypot_code(code, d, a, b), s, s2, s3);
    assert(sets(s, s3, d, l.binary(Dialect::Neon, OpKind::Hypot, x, y), Seq::empty()));
}

/// The code of each ternary operation computes it, if `d` overwrites no operand that is
/// still to be read: a multiply-add is rounded once, or twice where `d` holds a factor; a
/// clamp is the larger of the lower bound and the smaller of the value and the upper
/// bound.
pub proof fn ternary_code_computes<T>(
    l: Lanes<T>,
    code: Seq<u8>,
    op: OpKind,
    d: Reg,
    a: Reg,
    b: Reg,
    c: Reg,
    s: Cpu<T>,
)
    requires
        op is MulAdd || op is Select || op is Clamp,
        d.0 < 32,
        a.0 < 32,
        b.0 < 32,
        c.0 < 32,
        op is Select ==> d == a || d != b && d != c,
        op is Clamp ==> d != b,
    ensures
        ({
            let x = s.v[a.0 as u32];
            let y = s.v[b.0 as u32];
            let z = s.v[c.0 as u32];
            computes(
                l,
                code,
                ternary_code(code, op, d, a, b, c)->0,
                s,
                d,
                match op {
                    OpKind::MulAdd => if (d == a || d == b) && d != c {
                        (l.two)(Prim2::Add, (l.two)(Prim2::Mul, x, y), z)
                    } else {
                        (l.fused)(x, y, z)
                    },
                    OpKind::Select => (l.select)(x, y, z),
                    _ => (l.two)(Prim2::Max, (l.two)(Prim2::Min, x, z), y),
                },
                Seq::empty(),
            )
        }),
{
    let x = s.v[a.0 as u32];
    let y = s.v[b.0 as u32];
    let z = s.v[c.0 as u32];
    let out = ternary_code(code, op, d, a, b, c)->0;
    match op {
        OpKind::MulAdd => {
            if (d == a || d == b) && d != c {
                let p = (l.two)(Prim2::Mul, x, y);
                let c1 = code.inst(same3(0x6E20DC00, d, a, b));
                let s1 = s.with_v(d.0 as u32, p);
                let r = (l.two)(Prim2::Add, p, z);
                let s2 = s1.with_v(d.0 as u32, r);
                lemma_three(l, code, 0x6E20DC00, d, a, b, s);
                lemma_three(l, c1, 0x4E20D400, d, d, c, s1);
                lemma_does(l, code, c1, out, s, s1, s2);
                assert(sets(s, s2, d, r, Seq::empty()));
            } else {
                let c1 = copied_code(code, d, c);
                let s1 = if d == c {
                    s
                } else {
                    s.with_v(d.0 as u32, z)
                };
                lemma_copy(l, code, d, c, s);
                lemma_idle(l, code, s);
                let r = (l.fused)(x, y, z);
                let s2 = s1.with_v(d.0 as u32, r);
                lemma_fmla(l, c1, d, a, b, s1);
                lemma_does(l, code, c1, out, s, s1, s2);
                assert(sets(s, s2, d, r, Seq::empty()));
            }
        },
        OpKind::Select => {
            let c1 = copied_code(code, d, a);
            let s1 = if d == a {
                s
            } else {
                s.with_v(d.0 as u32, x)
            };
            lemma_copy(l, code, d, a, s);
            lemma_idle(l, code, s);
            let r = (l.select)(x, y, z);
            let s2 = s1.with_v(d.0 as u32, r);
            lemma_bsl(l, c1, d, b, c, s1);
            lemma_does(l, code, c1, out, s, s1, s2);
            assert(sets(s, s2, d, r, Seq::empty()));
        },
        _ => {
            let p = (l.two)(Prim2::Min, x, z);
            let c1 = code.inst(same3(0x4EA0F400, d, a, c));
            let s1 = s.with_v(d.0 as u32, p);
            let r = (l.two)(Prim2::Max, p, y);
            let s2 = s1.with_v(d.0 as u32, r);
            lemma_three(l, code, 0x4EA0F400, d, a, c, s);
            lemma_three(l, c1, 0x4E20F400, d, d, b, s1);
            lemma_does(l, code, c1, out, s, s1, s2);
            assert(sets(s, s2, d, r, Seq::empty()));
        },
    }
}

} // verus!
