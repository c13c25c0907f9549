//! What the SSE code of a branch over an arm does.

use crate::backend::emit::bytes::{read_appended_word, word_at, CodeBytes};
use crate::backend::emit::isa::sse::X86Backend;
use crate::backend::emit::isa::{Branch, IsaBackend};
use crate::backend::emit::lane::Lanes;
use crate::backend::emit::x86_64::effects::lemma_sse;
use crate::backend::emit::x86_64::model::{
    arrives, does, legacy, lemma_arrives, lemma_does, lemma_step, step, Cpu,
};
use crate::backend::emit::x86_64::{
    patched_rel32_leads_to_target, rel32_patched, rel32_target, X86Code,
};
use crate::backend::emit::Reg;
use vstd::prelude::*;

verus! {

/// Nothing that a value may be in has changed.
pub open spec fn undisturbed<T>(s: Cpu<T>, t: Cpu<T>) -> bool {
    t.v == s.v && t.mem == s.mem && t.rsp == s.rsp
}

/// Running from one position leads to another, with nothing disturbed.
pub open spec fn leads<T>(l: Lanes<T>, code: Seq<u8>, from: int, s: Cpu<T>, to: int) -> bool {
    exists|t: Cpu<T>| undisturbed(s, t) && #[trigger] arrives(l, code, from, s, to, t)
}

/// The branch whose distance is at `p`, once it leads to `target`, is taken from the end of
/// `code` exactly if `taken`; else what follows it runs.
pub open spec fn branches<T>(
    l: Lanes<T>,
    code: Seq<u8>,
    out: Seq<u8>,
    p: int,
    s: Cpu<T>,
    taken: bool,
) -> bool {
    forall|all: Seq<u8>, target: int|
        out.is_prefix_of(all) && -0x8000_0000 <= target - (p + 4) < 0x8000_0000 ==> leads(
            l,
            #[trigger] rel32_patched(all, p, target),
            code.len() as int,
            s,
            if taken {
                target
            } else {
                p + 4
            },
        )
}

/// A branch on the last result being zero.
proof fn lemma_branch<T>(l: Lanes<T>, code: Seq<u8>, c: Seq<u8>, s: Cpu<T>, t: Cpu<T>)
    requires
        does(l, code, c, s, t),
        undisturbed(s, t),
    ensures
        branches(l, code, c.byte(0x0F).byte(0x84).inst(0), c.len() as int + 2, s, t.zero),
{
    let q = c.len() as int;
    let p = q + 2;
    let out = c.byte(0x0F).byte(0x84).inst(0);
    assert forall|all: Seq<u8>, target: int|
        out.is_prefix_of(all) && -0x8000_0000 <= target - (p + 4) < 0x8000_0000 implies leads(
        l,
        #[trigger] rel32_patched(all, p, target),
        code.len() as int,
        s,
        if t.zero {
            target
        } else {
            p + 4
        },
    ) by {
        read_appended_word(c.byte(0x0F).byte(0x84), 0);
        assert(out.len() == p + 4);
        patched_rel32_leads_to_target(all, p, target);
        let f = rel32_patched(all, p, target);
        assert forall|i: int| 0 <= i < p implies f[i] == out[i] by {
            assert(f[i] == all[i]);
            assert(all[i] == out[i]);
        }
        assert(out[q] == 0x0F && out[q + 1] == 0x84);
        assert(f[q] == 0x0F && f[q + 1] == 0x84);
        assert(c.is_prefix_of(f)) by {
            assert forall|i: int| 0 <= i < c.len() implies f[i] == c[i] by {
                assert(out[i] == c[i]);
            }
            assert(c =~= f.subrange(0, c.len() as int));
        }
        assert(arrives(l, f, code.len() as int, s, q, t));
        let e: int = if t.zero {
            target
        } else {
            p + 4
        };
        assert(rel32_target(f, p) == target);
        assert(step(l, f, q, t) == (e, t));
        lemma_step(l, f, q, t);
        lemma_arrives(l, f, code.len() as int, s, q, t, e, t);
    }
}

/// The two bytes of `test eax, eax`.
proof fn lemma_test<T>(l: Lanes<T>, code: Seq<u8>, s: Cpu<T>)
    ensures
        does(l, code, code.byte(0x85).byte(0xC0), s, (Cpu { zero: s.eax == 0, ..s })),
{
    let b = code.byte(0x85).byte(0xC0);
    let t = Cpu { zero: s.eax == 0, ..s };
    let n = code.len() as int;
    assert(code.is_prefix_of(b));
    assert forall|all: Seq<u8>| #[trigger] b.is_prefix_of(all) implies arrives(
        l,
        all,
        n,
        s,
        b.len() as int,
        t,
    ) by {
        assert(all[n] == b[n] && all[n + 1] == b[n + 1]);
        lemma_step(l, all, n, s);
    }
}

/// The three bytes of `cmp eax, 15`.
proof fn lemma_all_four<T>(l: Lanes<T>, code: Seq<u8>, s: Cpu<T>)
    ensures
        does(l, code, code.byte(0x83).byte(0xF8).byte(0x0F), s, (Cpu { zero: s.eax == 15, ..s })),
{
    let b = code.byte(0x83).byte(0xF8).byte(0x0F);
    let t = Cpu { zero: s.eax == 15, ..s };
    let n = code.len() as int;
    assert(code.is_prefix_of(b));
    assert forall|all: Seq<u8>| #[trigger] b.is_prefix_of(all) implies arrives(
        l,
        all,
        n,
        s,
        b.len() as int,
        t,
    ) by {
        assert(all[n] == b[n] && all[n + 1] == b[n + 1] && all[n + 2] == b[n + 2]);
        lemma_step(l, all, n, s);
    }
}

/// The code that skips an arm if no lane of the mask is set leads to the target exactly then:
/// if no lane has its sign set.
pub proof fn skip_if_false_skips_when_no_lane_is_set<T>(
    l: Lanes<T>,
    code: Seq<u8>,
    mask: Reg,
    s: Cpu<T>,
)
    requires
        mask.0 < 16,
        code.len() + 16 <= usize::MAX,
    ensures
        ({
            let (out, b) = X86Backend::skip_if_false(code, mask);
            b matches Branch::Cond(p) && branches(
                l,
                code,
                out,
                p as int,
                s,
                (l.signs)(s.v[mask.0 as int]) == 0,
            )
        }),
{
    let c1 = code.sse(0x50, Reg(0), mask);
    lemma_sse(l, code, 0x50, Reg(0), mask, s);
    let s1 = legacy(l, s, 0x50, 0, mask.0 as int, 0);
    let c2 = c1.byte(0x85).byte(0xC0);
    lemma_test(l, c1, s1);
    let s2 = Cpu { zero: s1.eax == 0, ..s1 };
    lemma_does(l, code, c1, c2, s, s1, s2);
    lemma_branch(l, code, c2, s, s2);
}

/// The code that skips an arm if every lane of the mask is set leads to the target exactly
/// then: if all four lanes have their sign set.
pub proof fn skip_if_true_skips_when_every_lane_is_set<T>(
    l: Lanes<T>,
    code: Seq<u8>,
    mask: Reg,
    s: Cpu<T>,
)
    requires
        mask.0 < 16,
        code.len() + 16 <= usize::MAX,
    ensures
        ({
            let (out, b) = X86Backend::skip_if_true(code, mask);
            b matches Branch::Cond(p) && branches(
                l,
                code,
                out,
                p as int,
                s,
                (l.signs)(s.v[mask.0 as int]) == 15,
            )
        }),
{
    let c1 = code.sse(0x50, Reg(0), mask);
    lemma_sse(l, code, 0x50, Reg(0), mask, s);
    let s1 = legacy(l, s, 0x50, 0, mask.0 as int, 0);
    let c2 = c1.byte(0x83).byte(0xF8).byte(0x0F);
    lemma_all_four(l, c1, s1);
    let s2 = Cpu { zero: s1.eax == 15, ..s1 };
    lemma_does(l, code, c1, c2, s, s1, s2);
    lemma_branch(l, code, c2, s, s2);
}

} // verus!
