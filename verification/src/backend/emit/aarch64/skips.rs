//! What the NEON code of a branch over an arm does.

use crate::backend::emit::aarch64::branch::{cond_patched, patched_cond_leads_to_target, reach19};
use crate::backend::emit::aarch64::model::{
    arrives, does, effect, lemma_does, lemma_word, plain, step, steps, Cpu,
};
use crate::backend::emit::bytes::{read_appended_word, word_at, CodeBytes};
use crate::backend::emit::isa::{Aarch64Backend, Branch, IsaBackend};
use crate::backend::emit::lane::Lanes;
use crate::backend::emit::Reg;
use vstd::prelude::*;

verus! {

/// Nothing that a value may be in has changed.
pub open spec fn undisturbed<T>(s: Cpu<T>, t: Cpu<T>) -> bool {
    &&& t.mem == s.mem
    &&& forall|r: u32| r != 28 ==> #[trigger] t.v[r] == s.v[r]
    &&& forall|r: u32| r != 16 ==> #[trigger] t.x[r] == s.x[r]
}

/// Running from one position leads to another, with nothing disturbed.
pub open spec fn leads<T>(l: Lanes<T>, code: Seq<u8>, from: int, s: Cpu<T>, to: int) -> bool {
    exists|t: Cpu<T>| undisturbed(s, t) && #[trigger] arrives(l, code, from, s, to, t)
}

/// The branch at `p`, once it leads to `target`, is taken from the end of `code` exactly if
/// `taken`; else what follows it runs.
pub open spec fn branches<T>(
    l: Lanes<T>,
    code: Seq<u8>,
    out: Seq<u8>,
    p: int,
    s: Cpu<T>,
    taken: bool,
) -> bool {
    forall|all: Seq<u8>, target: int|
        out.is_prefix_of(all) && (target - p) % 4 == 0 && reach19(p, target) ==> leads(
            l,
            #[trigger] cond_patched(all, p, target),
            code.len() as int,
            s,
            if taken {
                target
            } else {
                p + 4
            },
        )
}

proof fn lemma_across(base: u32, mask: u32)
    requires
        base == 0x6EB0A800 || base == 0x6EB1A800,
        mask < 32,
    ensures
        ({
            let w = base | 28u32 | (mask << 5u32);
            &&& w & 0xFFE0FC00 == 0x6EA0A800
            &&& w & 0xFFFFFC00 == base
            &&& w & 31 == 28
            &&& (w >> 5u32) & 31 == mask
            &&& plain(w)
        }),
{
    let w = base | 28u32 | (mask << 5u32);
    assert(w & 0xFFE0FC00 == 0x6EA0A800 && w & 0xFFFFFC00 == base && w & 31 == 28 && (w >> 5u32) & 31
        == mask && w & 0xFF000000 != 0x34000000 && w & 0xFC000000 != 0x14000000) by (bit_vector)
        requires
            base == 0x6EB0A800 || base == 0x6EB1A800,
            mask < 32,
            w == base | 28u32 | (mask << 5u32),
    ;
}

proof fn lemma_fixed()
    ensures
        0x1E260000u32 | (28u32 << 5u32) | 16u32 == 0x1E260390,
        0x1E260390u32 & 0xFFE0FC00 == 0x1E200000,
        0x1E260390u32 & 0xFFFFFC00 == 0x1E260000,
        0x1E260390u32 & 31 == 16,
        (0x1E260390u32 >> 5u32) & 31 == 28,
        plain(0x1E260390),
        0x2A3003F0u32 & 0xFFE0FC00 == 0x2A200000,
        0x2A3003F0u32 & 0xFFFFFC00 == 0x2A300000,
        0x2A3003F0u32 & 0xFFA0FC00 == 0x2A200000,
        0x2A3003F0u32 & 0xFFF8FC00 == 0x2A300000,
        0x2A3003F0u32 & 0xFFFFFFE0 == 0x2A3003E0,
        0x2A3003F0u32 & 0xFFE00000 == 0x2A200000,
        0x2A3003F0u32 & 0xFFC00000 == 0x2A000000,
        plain(0x2A3003F0),
        0x34000010u32 & 0xFF00001F == 0x34000010,
{
    assert(0x1E260000u32 | (28u32 << 5u32) | 16u32 == 0x1E260390 && 0x1E260390u32 & 0xFFE0FC00
        == 0x1E200000 && 0x1E260390u32 & 0xFFFFFC00 == 0x1E260000 && 0x1E260390u32 & 31 == 16 && (
    0x1E260390u32 >> 5u32) & 31 == 28 && 0x1E260390u32 & 0xFF000000 != 0x34000000 && 0x1E260390u32
        & 0xFC000000 != 0x14000000 && 0x2A3003F0u32 & 0xFFE0FC00 == 0x2A200000 && 0x2A3003F0u32
        & 0xFFFFFC00 == 0x2A300000 && 0x2A3003F0u32 & 0xFFA0FC00 == 0x2A200000 && 0x2A3003F0u32
        & 0xFFF8FC00 == 0x2A300000 && 0x2A3003F0u32 & 0xFFFFFFE0 == 0x2A3003E0 && 0x2A3003F0u32
        & 0xFFE00000 == 0x2A200000 && 0x2A3003F0u32 & 0xFFC00000 == 0x2A000000 && 0x2A3003F0u32
        & 0xFF000000 != 0x34000000 && 0x2A3003F0u32 & 0xFC000000 != 0x14000000 && 0x34000010u32
        & 0xFF00001F == 0x34000010) by (bit_vector);
}

/// A branch on the sixteenth general register being zero.
proof fn lemma_branch<T>(l: Lanes<T>, code: Seq<u8>, c: Seq<u8>, s: Cpu<T>, t: Cpu<T>)
    requires
        does(l, code, c, s, t),
        undisturbed(s, t),
    ensures
        branches(l, code, c.inst(0x34000010), c.len() as int, s, t.x[16] == 0),
{
    let p = c.len() as int;
    let out = c.inst(0x34000010);
    let taken = t.x[16] == 0;
    assert forall|all: Seq<u8>, target: int|
        out.is_prefix_of(all) && (target - p) % 4 == 0 && reach19(p, target) implies leads(
        l,
        #[trigger] cond_patched(all, p, target),
        code.len() as int,
        s,
        if taken {
            target
        } else {
            p + 4
        },
    ) by {
        read_appended_word(c, 0x34000010);
        assert(out.len() == p + 4);
        assert(all[p] == out[p] && all[p + 1] == out[p + 1] && all[p + 2] == out[p + 2] && all[p + 3]
            == out[p + 3]);
        assert(word_at(all, p) == word_at(out, p));
        patched_cond_leads_to_target(all, p, target);
        let f = cond_patched(all, p, target);
        let w = word_at(f, p);
        lemma_fixed();
        assert(w & 0xFF000000 == 0x34000000 && w & 31 == 16) by (bit_vector)
            requires
                w & 0xFF00001F == 0x34000010,
        ;
        assert(c.is_prefix_of(f)) by {
            assert forall|i: int| 0 <= i < c.len() implies f[i] == c[i] by {
                assert(f[i] == all[i]);
                assert(all[i] == out[i]);
            }
            assert(c =~= f.subrange(0, c.len() as int));
        }
        let n = choose|n: nat| #[trigger] steps(l, f, code.len() as int, s, n) == (p, t);
        let e: int = if taken {
            target
        } else {
            p + 4
        };
        assert(steps(l, f, code.len() as int, s, n + 1) == step(l, f, p, t));
        assert(step(l, f, p, t) == (e, t));
        assert(arrives(l, f, code.len() as int, s, e, t));
    }
}

/// The code that skips an arm if no lane of the mask is set leads to the target exactly then:
/// if the largest lane is zero.
pub proof fn skip_if_false_skips_when_no_lane_is_set<T>(
    l: Lanes<T>,
    code: Seq<u8>,
    mask: Reg,
    s: Cpu<T>,
)
    requires
        l.coherent(),
        mask.0 < 32,
        code.len() + 12 <= usize::MAX,
    ensures
        ({
            let (out, b) = Aarch64Backend::skip_if_false(code, mask);
            b matches Branch::Cond(p) && branches(
                l,
                code,
                out,
                p as int,
                s,
                (l.largest)(s.v[mask.0 as u32]) == 0,
            )
        }),
{
    let w = 0x6EB0A800u32 | 28u32 | ((mask.0 as u32) << 5u32);
    lemma_across(0x6EB0A800, mask.0 as u32);
    lemma_fixed();
    let c1 = code.inst(w);
    lemma_word(l, code, w, s);
    let x = (l.largest)(s.v[mask.0 as u32]);
    let s1 = s.with_v(28, (l.scalar)(x));
    assert(effect(l, s, w) == s1);
    let c2 = c1.inst(0x1E260390);
    lemma_word(l, c1, 0x1E260390, s1);
    let s2 = s1.with_x(16, x as int);
    assert(effect(l, s1, 0x1E260390) == s2);
    lemma_does(l, code, c1, c2, s, s1, s2);
    lemma_branch(l, code, c2, s, s2);
}

/// The code that skips an arm if every lane of the mask is set leads to the target exactly
/// then: if the least lane is all ones.
pub proof fn skip_if_true_skips_when_every_lane_is_set<T>(
    l: Lanes<T>,
    code: Seq<u8>,
    mask: Reg,
    s: Cpu<T>,
)
    requires
        l.coherent(),
        mask.0 < 32,
        code.len() + 16 <= usize::MAX,
    ensures
        ({
            let (out, b) = Aarch64Backend::skip_if_true(code, mask);
            b matches Branch::Cond(p) && branches(
                l,
                code,
                out,
                p as int,
                s,
                (l.least)(s.v[mask.0 as u32]) == 0xFFFF_FFFF,
            )
        }),
{
    let w = 0x6EB1A800u32 | 28u32 | ((mask.0 as u32) << 5u32);
    lemma_across(0x6EB1A800, mask.0 as u32);
    lemma_fixed();
    let c1 = code.inst(w);
    lemma_word(l, code, w, s);
    let x = (l.least)(s.v[mask.0 as u32]);
    let s1 = s.with_v(28, (l.scalar)(x));
    assert(effect(l, s, w) == s1);
    let c2 = c1.inst(0x1E260390);
    lemma_word(l, c1, 0x1E260390, s1);
    let s2 = s1.with_x(16, x as int);
    assert(effect(l, s1, 0x1E260390) == s2);
    let c3 = c2.inst(0x2A3003F0);
    lemma_word(l, c2, 0x2A3003F0, s2);
    let s3 = s2.with_x(16, 0xFFFF_FFFF - x);
    assert(effect(l, s2, 0x2A3003F0) == s3);
    lemma_does(l, code, c1, c2, s, s1, s2);
    lemma_does(l, code, c2, c3, s, s2, s3);
    lemma_branch(l, code, c3, s, s3);
}

} // verus!
