//! What the code of the SSE machine's operations does.

use crate::backend::emit::bytes::CodeBytes;
use crate::backend::emit::isa::sse::{commutes, hazard_free, redzone, sse_binary, X86Backend};
use crate::backend::emit::isa::IsaBackend;
use crate::backend::emit::lane::{Dialect, Lanes, Prim2};
use crate::backend::emit::x86_64;
use crate::backend::emit::x86_64::effects::{
    binary_code_computes, blend_code_computes, computes, lemma_at_rsp, lemma_sse, sets,
};
use crate::backend::emit::x86_64::model::{does, lemma_does, Cpu};
use crate::backend::emit::x86_64::X86Code;
use crate::backend::emit::Reg;
use crate::kind::OpKind;
use vstd::prelude::*;

verus! {

/// One computation after another.
proof fn lemma_computes<T>(
    l: Lanes<T>,
    a: Seq<u8>,
    b: Seq<u8>,
    c: Seq<u8>,
    s: Cpu<T>,
    t: Cpu<T>,
    d: Reg,
    y: T,
    free: Seq<Reg>,
)
    requires
        does(l, a, b, s, t),
        computes(l, b, c, t, d, y, Seq::empty()),
        t.mem == s.mem,
        t.rsp == s.rsp,
        forall|r: u8|
            r != d.0 && !free.contains(Reg(r)) ==> #[trigger] t.v[r as int] == s.v[r as int],
    ensures
        computes(l, a, c, s, d, y, free),
{
    let u = choose|u: Cpu<T>| #[trigger] does(l, b, c, t, u) && sets(t, u, d, y, Seq::empty());
    lemma_does(l, a, b, c, s, t, u);
    assert forall|r: u8| r != d.0 && !free.contains(Reg(r)) implies #[trigger] u.v[r as int]
        == s.v[r as int] by {
        assert(!Seq::<Reg>::empty().contains(Reg(r)));
        assert(t.v[r as int] == s.v[r as int]);
    }
    assert(sets(s, u, d, y, free));
}

/// The code of each binary operation computes it for any registers but the scratch
/// register, whether or not the destination holds an operand.
pub proof fn hazard_free_code_computes<T>(
    l: Lanes<T>,
    code: Seq<u8>,
    op: OpKind,
    d: Reg,
    a: Reg,
    b: Reg,
    s: Cpu<T>,
)
    requires
        l.commuting(),
        sse_binary(op),
        d.0 < 16,
        a.0 < 16,
        b.0 < 16,
        d != Reg(10),
        a != Reg(10),
        b != Reg(10),
    ensures
        computes(
            l,
            code,
            hazard_free(code, op, d, a, b),
            s,
            d,
            l.binary(Dialect::X86, op, s.v[a.0 as int], s.v[b.0 as int]),
            seq![Reg(10)],
        ),
{
    let x = s.v[a.0 as int];
    let z = s.v[b.0 as int];
    let y = l.binary(Dialect::X86, op, x, z);
    let out = hazard_free(code, op, d, a, b);
    let free = seq![Reg(10)];
    assert(free[0] == Reg(10));
    if d == a || d != b {
        binary_code_computes(l, code, op, d, a, b, s);
        let t = choose|t: Cpu<T>| #[trigger]
            does(l, code, out, s, t) && sets(s, t, d, y, Seq::empty());
        assert(sets(s, t, d, y, free)) by {
            assert forall|r: u8| r != d.0 && !free.contains(Reg(r)) implies #[trigger] t.v[r as int]
                == s.v[r as int] by {
                assert(!Seq::<Reg>::empty().contains(Reg(r)));
            }
        }
    } else if commutes(op) {
        binary_code_computes(l, code, op, d, b, a, s);
        assert(l.binary(Dialect::X86, op, z, x) == y) by {
            match op {
                OpKind::Add => assert((l.two)(Prim2::Add, x, z) == (l.two)(Prim2::Add, z, x)),
                OpKind::Mul => assert((l.two)(Prim2::Mul, x, z) == (l.two)(Prim2::Mul, z, x)),
                OpKind::Min => assert((l.two)(Prim2::Min, x, z) == (l.two)(Prim2::Min, z, x)),
                OpKind::Max => assert((l.two)(Prim2::Max, x, z) == (l.two)(Prim2::Max, z, x)),
                OpKind::Eq => assert((l.two)(Prim2::Equal, x, z) == (l.two)(Prim2::Equal, z, x)),
                _ => assert((l.two)(Prim2::NotEqual, x, z) == (l.two)(Prim2::NotEqual, z, x)),
            }
        }
        let t = choose|t: Cpu<T>| #[trigger]
            does(l, code, out, s, t) && sets(s, t, d, y, Seq::empty());
        assert(sets(s, t, d, y, free)) by {
            assert forall|r: u8| r != d.0 && !free.contains(Reg(r)) implies #[trigger] t.v[r as int]
                == s.v[r as int] by {
                assert(!Seq::<Reg>::empty().contains(Reg(r)));
            }
        }
    } else {
        let c1 = code.sse(0x28, Reg(10), b);
        let c2 = c1.sse(0x28, d, a);
        let s1 = s.with_v(10, z);
        let s2 = s1.with_v(d.0 as int, x);
        lemma_sse(l, code, 0x28, Reg(10), b, s);
        lemma_sse(l, c1, 0x28, d, a, s1);
        lemma_does(l, code, c1, c2, s, s1, s2);
        binary_code_computes(l, c2, op, d, d, Reg(10), s2);
        lemma_computes(l, code, c2, out, s, s2, d, y, free);
    }
}

/// The code of a multiply-add adds the product of `a` and `b` to `d`.
pub proof fn fma_code_computes<T>(l: Lanes<T>, code: Seq<u8>, d: Reg, a: Reg, b: Reg, s: Cpu<T>)
    requires
        d.0 < 16,
        a.0 < 16,
        b.0 < 16,
        d != Reg(10),
        b != Reg(10),
    ensures
        computes(
            l,
            code,
            X86Backend::fma_code(code, d, a, b),
            s,
            d,
            (l.two)(
                Prim2::Add,
                s.v[d.0 as int],
                (l.two)(Prim2::Mul, s.v[a.0 as int], s.v[b.0 as int]),
            ),
            seq![Reg(10)],
        ),
{
    let t = Reg(10);
    let x = s.v[a.0 as int];
    let z = s.v[b.0 as int];
    let p = (l.two)(Prim2::Mul, x, z);
    let y = (l.two)(Prim2::Add, s.v[d.0 as int], p);
    let c1 = code.sse(0x28, t, a);
    let c2 = c1.sse(0x59, t, b);
    let c3 = c2.sse(0x58, d, t);
    let s1 = s.with_v(10, x);
    let s2 = s1.with_v(10, p);
    let s3 = s2.with_v(d.0 as int, y);
    assert(x86_64::copy_code(c1, t, t) == c1 && x86_64::copy_code(c2, d, d) == c2);
    assert(X86Backend::fma_code(code, d, a, b) == c3);
    lemma_sse(l, code, 0x28, t, a, s);
    lemma_sse(l, c1, 0x59, t, b, s1);
    lemma_sse(l, c2, 0x58, d, t, s2);
    lemma_does(l, code, c1, c2, s, s1, s2);
    lemma_does(l, code, c2, c3, s, s2, s3);
    assert(seq![t][0] == t);
    assert(sets(s, s3, d, y, seq![t]));
}

/// The code of a choice leaves in `d` the first operand where the mask there is set, and
/// the second elsewhere.
pub proof fn select_code_computes<T>(l: Lanes<T>, code: Seq<u8>, d: Reg, a: Reg, b: Reg, s: Cpu<T>)
    requires
        l.coherent(),
        d.0 < 16,
        a.0 < 16,
        b.0 < 16,
        d != Reg(10),
        b != Reg(10),
    ensures
        computes(
            l,
            code,
            X86Backend::select_code(code, d, a, b),
            s,
            d,
            (l.select)(s.v[d.0 as int], s.v[a.0 as int], s.v[b.0 as int]),
            seq![Reg(10)],
        ),
{
    blend_code_computes(l, code, d, d, a, b, Reg(10), s);
}

/// The code of a copy copies the register.
pub proof fn mov_code_computes<T>(l: Lanes<T>, code: Seq<u8>, d: Reg, a: Reg, s: Cpu<T>)
    requires
        d.0 < 16,
        a.0 < 16,
    ensures
        does(
            l,
            code,
            X86Backend::mov_code(code, d, a),
            s,
            s.with_v(d.0 as int, s.v[a.0 as int]),
        ),
{
    lemma_sse(l, code, 0x28, d, a, s);
}

/// Slots are 16 bytes each, downward from the stack pointer: code loading or storing one
/// accesses the vector that lies `offset + 16` bytes below it.
pub proof fn slot_code_accesses_below_the_stack_pointer<T>(
    l: Lanes<T>,
    code: Seq<u8>,
    r: Reg,
    offset: u32,
    s: Cpu<T>,
)
    requires
        r.0 < 16,
        X86Backend::slot_ok(offset),
    ensures
        does(
            l,
            code,
            X86Backend::load_code(code, r, offset),
            s,
            s.with_v(r.0 as int, s.mem[s.rsp - (offset + 16)]),
        ),
        does(
            l,
            code,
            X86Backend::store_code(code, r, offset),
            s,
            (Cpu { mem: s.mem.insert(s.rsp - (offset + 16), s.v[r.0 as int]), ..s }),
        ),
{
    lemma_at_rsp(l, code, r, redzone(offset), s);
}

} // verus!
