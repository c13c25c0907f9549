//! What the start and the end of a scanline kernel do to its caller's registers.

use crate::backend::emit::aarch64::branch::{
    branch_steps, cond_patched, cond_target, field19, patched_cond_leads_to_target,
};
use crate::backend::emit::aarch64::scanline::{
    bcond_word, gp_restored, gp_saved, loop_closed, loop_reaches, neon_block, neon_restored,
    neon_saved, pair_imm, pair_imm_ok, pair_word, q_offset, q_post16, scanline_end,
};
use crate::backend::emit::bytes::{read_appended_word, word_at, CodeBytes};
use crate::backend::emit::Reg;
use vstd::prelude::*;

verus! {

/// Registers and stack. Memory is in units of eight bytes, by address; a vector
/// register takes two.
pub struct Frame {
    /// The stack pointer.
    pub sp: int,
    /// General registers.
    pub x: Map<u32, int>,
    /// Vector registers.
    pub v: Map<u32, (int, int)>,
    /// Memory.
    pub mem: Map<int, int>,
}

impl Frame {
    /// With two general registers stored.
    pub open spec fn put_x(self, a: int, t: u32, u: u32) -> Frame {
        Frame { mem: self.mem.insert(a, self.x[t]).insert(a + 8, self.x[u]), ..self }
    }

    /// With two general registers loaded.
    pub open spec fn get_x(self, a: int, t: u32, u: u32) -> Frame {
        Frame { x: self.x.insert(t, self.mem[a]).insert(u, self.mem[a + 8]), ..self }
    }

    /// With a vector register stored.
    pub open spec fn put_v(self, a: int, t: u32) -> Frame {
        Frame { mem: self.mem.insert(a, self.v[t].0).insert(a + 8, self.v[t].1), ..self }
    }

    /// With a vector register loaded.
    pub open spec fn get_v(self, a: int, t: u32) -> Frame {
        Frame { v: self.v.insert(t, (self.mem[a], self.mem[a + 8])), ..self }
    }

    /// After an access of registers on the stack; what other words do is left open.
    pub open spec fn after(self, w: u32) -> Frame {
        let op = w & 0xFFC00000;
        let t = w & 31;
        let u = (w >> 10) & 31;
        let base = (w >> 5) & 31;
        let pair = self.sp + signed7((w >> 15) & 0x7F) * 8;
        let wide = self.sp + signed7((w >> 15) & 0x7F) * 16;
        let one = self.sp + ((w >> 10) & 0xFFF) * 16;
        if base != 31 {
            arbitrary()
        } else if op == 0xA9800000 {
            Frame { sp: pair, ..self.put_x(pair, t, u) }
        } else if op == 0xA9000000 {
            self.put_x(pair, t, u)
        } else if op == 0xA9400000 {
            self.get_x(pair, t, u)
        } else if op == 0xA8C00000 {
            Frame { sp: pair, ..self.get_x(self.sp, t, u) }
        } else if op == 0xAD000000 {
            self.put_v(wide, t).put_v(wide + 16, u)
        } else if op == 0xAD400000 {
            self.get_v(wide, t).get_v(wide + 16, u)
        } else if op == 0x3D800000 {
            self.put_v(one, t)
        } else if op == 0x3DC00000 {
            self.get_v(one, t)
        } else {
            arbitrary()
        }
    }

    /// After the words from `from` up to `to`.
    pub open spec fn ran(self, code: Seq<u8>, from: int, to: int) -> Frame
        decreases to - from,
    {
        if to < from + 4 {
            self
        } else {
            self.ran(code, from, to - 4).after(word_at(code, to - 4))
        }
    }
}

/// The value of a 7-bit two's complement field.
pub open spec fn signed7(imm: u32) -> int {
    if imm < 64 {
        imm as int
    } else {
        imm - 128
    }
}

proof fn lemma_pair_fields(base: u32, t: u8, u: u8, bytes: int, unit: int)
    requires
        base & 0x3FFFFF == 0,
        t < 32,
        u < 32,
        unit == 8 || unit == 16,
        pair_imm_ok(bytes, unit),
    ensures
        ({
            let w = pair_word(base, t, u, 31, bytes, unit);
            &&& w & 0xFFC00000 == base
            &&& w & 31 == t
            &&& (w >> 10) & 31 == u
            &&& (w >> 5) & 31 == 31
            &&& signed7((w >> 15) & 0x7F) * unit == bytes
        }),
{
    let i = pair_imm(bytes, unit);
    let a = t as u32;
    let b = u as u32;
    let n = 31u8 as u32;
    let w = base | (i << 15) | (b << 10) | (n << 5) | a;
    assert(w & 0xFFC00000 == base && w & 31 == a && (w >> 10) & 31 == b && (w >> 5) & 31 == 31 && (
    w >> 15) & 0x7F == i) by (bit_vector)
        requires
            base & 0x3FFFFF == 0,
            i < 128,
            a < 32,
            b < 32,
            n == 31,
            w == base | (i << 15) | (b << 10) | (n << 5) | a,
    ;
    if unit == 8 {
        assert(bytes == 8 * (bytes / 8));
    } else {
        assert(bytes == 16 * (bytes / 16));
    }
}

proof fn lemma_one_fields(base: u32, t: u8, bytes: u32)
    requires
        base & 0x3FFFFF == 0,
        t < 32,
        bytes % 16 == 0,
        bytes < 0x1_0000,
    ensures
        ({
            let w = q_offset(base, t, 31, bytes);
            &&& w & 0xFFC00000 == base
            &&& w & 31 == t
            &&& (w >> 5) & 31 == 31
            &&& ((w >> 10) & 0xFFF) * 16 == bytes
        }),
{
    let i = bytes / 16;
    let a = t as u32;
    let n = 31u8 as u32;
    let w = base | (i << 10) | (n << 5) | a;
    assert(w & 0xFFC00000 == base && w & 31 == a && (w >> 5) & 31 == 31 && (w >> 10) & 0xFFF == i)
        by (bit_vector)
        requires
            base & 0x3FFFFF == 0,
            i < 4096,
            a < 32,
            n == 31,
            w == base | (i << 10) | (n << 5) | a,
    ;
}

/// What is appended later does not change what ran before.
proof fn lemma_prefix(m: Frame, a: Seq<u8>, b: Seq<u8>, from: int, to: int)
    requires
        0 <= from,
        to <= a.len(),
        a.is_prefix_of(b),
        (to - from) % 4 == 0,
    ensures
        m.ran(b, from, to) == m.ran(a, from, to),
    decreases to - from,
{
    if from + 4 <= to {
        lemma_prefix(m, a, b, from, to - 4);
        assert(word_at(a, to - 4) == word_at(b, to - 4));
    }
}

/// One more word.
proof fn lemma_more(m: Frame, code: Seq<u8>, w: u32, from: int)
    requires
        0 <= from <= code.len(),
        (code.len() - from) % 4 == 0,
    ensures
        m.ran(code.inst(w), from, (code.len() + 4) as int) == m.ran(code, from, code.len() as int).after(w),
        code.inst(w).len() == code.len() + 4,
        code.is_prefix_of(code.inst(w)),
{
    read_appended_word(code, w);
    assert(code.is_prefix_of(code.inst(w)));
    lemma_prefix(m, code, code.inst(w), from, code.len() as int);
}

/// Vector registers from `V(8+i)` up to `V(7+n)` are at their place above the stack
/// pointer.
pub open spec fn holds_vectors(m: Frame, v: Map<u32, (int, int)>, i: int, n: int) -> bool {
    forall|k: int|
        i <= k < n ==> m.mem[m.sp + 48 + 16 * k] == (#[trigger] v[(8 + k) as u32]).0 && m.mem[m.sp
            + 56 + 16 * k] == v[(8 + k) as u32].1
}

/// Both frames have the same stack pointer, registers, and memory outside the places
/// of the vector registers from `V(8+i)` up to `V(7+n)`.
spec fn stored_only(a: Frame, b: Frame, i: int, n: int) -> bool {
    &&& a.sp == b.sp
    &&& a.x == b.x
    &&& a.v == b.v
    &&& forall|p: int|
        !(a.sp + 48 + 16 * i <= p < a.sp + 48 + 16 * n) ==> a.mem[p] == #[trigger] b.mem[p]
}

/// Storing vector registers.
proof fn lemma_stores(m: Frame, code: Seq<u8>, from: int, i: int, n: int)
    requires
        0 <= from <= code.len(),
        (code.len() - from) % 4 == 0,
        0 <= i <= n <= 8,
    ensures
        ({
            let out = neon_block(code, 0xAD000000, 0x3D800000, i, n);
            let before = m.ran(code, from, code.len() as int);
            let done = m.ran(out, from, out.len() as int);
            &&& out.len() == code.len() + 4 * ((n - i + 1) / 2)
            &&& code.is_prefix_of(out)
            &&& stored_only(before, done, i, n)
            &&& holds_vectors(done, before.v, i, n)
        }),
    decreases n - i,
{
    let before = m.ran(code, from, code.len() as int);
    let a = before.sp + 48 + 16 * i;
    assert(0xAD000000u32 & 0x3FFFFF == 0 && 0x3D800000u32 & 0x3FFFFF == 0) by (bit_vector);
    if i + 1 < n {
        let w = pair_word(0xAD000000, (8 + i) as u8, (9 + i) as u8, 31, 48 + 16 * i, 16);
        let next = code.inst(w);
        lemma_pair_fields(0xAD000000, (8 + i) as u8, (9 + i) as u8, 48 + 16 * i, 16);
        lemma_more(m, code, w, from);
        lemma_stores(m, next, from, i + 2, n);
        let mid = m.ran(next, from, next.len() as int);
        let out = neon_block(code, 0xAD000000, 0x3D800000, i, n);
        let done = m.ran(out, from, out.len() as int);
        assert(mid == before.put_v(a, (8 + i) as u32).put_v(a + 16, (9 + i) as u32));
        assert(code.is_prefix_of(out));
        assert forall|k: int| i <= k < n implies done.mem[done.sp + 48 + 16 * k] == (
        #[trigger] before.v[(8 + k) as u32]).0 && done.mem[done.sp + 56 + 16 * k] == before.v[(8
            + k) as u32].1 by {
            if k < i + 2 {
                assert(done.mem[done.sp + 48 + 16 * k] == mid.mem[done.sp + 48 + 16 * k]);
                assert(done.mem[done.sp + 56 + 16 * k] == mid.mem[done.sp + 56 + 16 * k]);
            } else {
                assert(mid.v[(8 + k) as u32] == before.v[(8 + k) as u32]);
            }
        }
    } else if i < n {
        let w = q_offset(0x3D800000, (8 + i) as u8, 31, (48 + 16 * i) as u32);
        lemma_one_fields(0x3D800000, (8 + i) as u8, (48 + 16 * i) as u32);
        lemma_more(m, code, w, from);
        let out = neon_block(code, 0xAD000000, 0x3D800000, i, n);
        let done = m.ran(out, from, out.len() as int);
        assert(done == before.put_v(a, (8 + i) as u32));
    }
}

/// Both frames have the same stack pointer, general registers and memory, and vector
/// registers but those from `V(8+i)` up to `V(7+n)`.
spec fn loaded_only(a: Frame, b: Frame, i: int, n: int) -> bool {
    &&& a.sp == b.sp
    &&& a.x == b.x
    &&& a.mem == b.mem
    &&& forall|r: u32| !(8 + i <= r < 8 + n) ==> a.v[r] == #[trigger] b.v[r]
}

/// Loading vector registers.
proof fn lemma_loads(m: Frame, code: Seq<u8>, from: int, i: int, n: int)
    requires
        0 <= from <= code.len(),
        (code.len() - from) % 4 == 0,
        0 <= i <= n <= 8,
    ensures
        ({
            let out = neon_block(code, 0xAD400000, 0x3DC00000, i, n);
            let before = m.ran(code, from, code.len() as int);
            let done = m.ran(out, from, out.len() as int);
            &&& out.len() == code.len() + 4 * ((n - i + 1) / 2)
            &&& code.is_prefix_of(out)
            &&& loaded_only(before, done, i, n)
            &&& holds_vectors(done, done.v, i, n)
        }),
    decreases n - i,
{
    let before = m.ran(code, from, code.len() as int);
    let a = before.sp + 48 + 16 * i;
    assert(0xAD400000u32 & 0x3FFFFF == 0 && 0x3DC00000u32 & 0x3FFFFF == 0) by (bit_vector);
    if i + 1 < n {
        let w = pair_word(0xAD400000, (8 + i) as u8, (9 + i) as u8, 31, 48 + 16 * i, 16);
        let next = code.inst(w);
        lemma_pair_fields(0xAD400000, (8 + i) as u8, (9 + i) as u8, 48 + 16 * i, 16);
        lemma_more(m, code, w, from);
        lemma_loads(m, next, from, i + 2, n);
        let mid = m.ran(next, from, next.len() as int);
        let out = neon_block(code, 0xAD400000, 0x3DC00000, i, n);
        let done = m.ran(out, from, out.len() as int);
        assert(mid == before.get_v(a, (8 + i) as u32).get_v(a + 16, (9 + i) as u32));
        assert(code.is_prefix_of(out));
        assert forall|k: int| i <= k < n implies done.mem[done.sp + 48 + 16 * k] == (
        #[trigger] done.v[(8 + k) as u32]).0 && done.mem[done.sp + 56 + 16 * k] == done.v[(8
            + k) as u32].1 by {
            if k < i + 2 {
                assert(mid.v[(8 + k) as u32] == done.v[(8 + k) as u32]);
            }
        }
    } else if i < n {
        let w = q_offset(0x3DC00000, (8 + i) as u8, 31, (48 + 16 * i) as u32);
        lemma_one_fields(0x3DC00000, (8 + i) as u8, (48 + 16 * i) as u32);
        lemma_more(m, code, w, from);
        let out = neon_block(code, 0xAD400000, 0x3DC00000, i, n);
        let done = m.ran(out, from, out.len() as int);
        assert(done == before.get_v(a, (8 + i) as u32));
    }
}

/// The general registers that a kernel keeps for its caller.
pub open spec fn kept_for_caller(r: u32) -> bool {
    19 <= r <= 22 || r == 29 || r == 30
}

/// A frame of a kernel that saved `n` vector registers when its caller's registers
/// were those of `m`: they are in their places, from the stack pointer on.
pub open spec fn saved_frame(m: Frame, f: Frame, n: int) -> bool {
    &&& f.sp == m.sp - (48 + 16 * n)
    &&& f.mem[f.sp] == m.x[29]
    &&& f.mem[f.sp + 8] == m.x[30]
    &&& f.mem[f.sp + 16] == m.x[19]
    &&& f.mem[f.sp + 24] == m.x[20]
    &&& f.mem[f.sp + 32] == m.x[21]
    &&& f.mem[f.sp + 40] == m.x[22]
    &&& holds_vectors(f, m.v, 0, n)
}

/// The start of a scanline kernel stores its caller's registers: X19 to X22, X29 and
/// X30, and V8 to V(7+n), each in a place of its own in a frame of `48 + 16 * n`
/// bytes.
pub proof fn prologues_save_registers(m: Frame, code: Seq<u8>, n: int)
    requires
        0 <= n <= 8,
    ensures
        ({
            let saved = neon_saved(gp_saved(code, 48 + 16 * n), n);
            &&& saved.len() == code.len() + 4 * (3 + (n + 1) / 2)
            &&& saved_frame(m, m.ran(saved, code.len() as int, saved.len() as int), n)
        }),
{
    let frame = 48 + 16 * n;
    let from = code.len() as int;
    let w1 = pair_word(0xA9800000, 29, 30, 31, -frame, 8);
    let w2 = pair_word(0xA9000000, 19, 20, 31, 16, 8);
    let w3 = pair_word(0xA9000000, 21, 22, 31, 32, 8);
    assert(0xA9800000u32 & 0x3FFFFF == 0 && 0xA9000000u32 & 0x3FFFFF == 0) by (bit_vector);
    lemma_pair_fields(0xA9800000, 29, 30, -frame, 8);
    lemma_pair_fields(0xA9000000, 19, 20, 16, 8);
    lemma_pair_fields(0xA9000000, 21, 22, 32, 8);
    let c1 = code.inst(w1);
    let c2 = c1.inst(w2);
    let c3 = c2.inst(w3);
    lemma_more(m, code, w1, from);
    lemma_more(m, c1, w2, from);
    lemma_more(m, c2, w3, from);
    lemma_stores(m, c3, from, 0, n);
    let f1 = m.ran(c1, from, c1.len() as int);
    assert(m.ran(code, from, from) == m);
    assert(f1.sp == m.sp - frame);
    let f3 = m.ran(c3, from, c3.len() as int);
    let saved = neon_saved(c3, n);
    let f = m.ran(saved, from, saved.len() as int);
    assert(f3.mem[f.sp] == f.mem[f.sp] && f3.mem[f.sp + 8] == f.mem[f.sp + 8]);
    assert(f3.mem[f.sp + 16] == f.mem[f.sp + 16] && f3.mem[f.sp + 24] == f.mem[f.sp + 24]);
    assert(f3.mem[f.sp + 32] == f.mem[f.sp + 32] && f3.mem[f.sp + 40] == f.mem[f.sp + 40]);
}

/// Loading everything again.
proof fn lemma_restores(m: Frame, f: Frame, code: Seq<u8>, n: int)
    requires
        0 <= n <= 8,
        saved_frame(m, f, n),
    ensures
        ({
            let restored = gp_restored(neon_restored(code, n), 48 + 16 * n);
            let end = f.ran(restored, code.len() as int, restored.len() - 4);
            &&& restored.len() == code.len() + 4 * (4 + (n + 1) / 2)
            &&& code.is_prefix_of(restored)
            &&& end.sp == m.sp
            &&& forall|r: u32| #[trigger] kept_for_caller(r) ==> end.x[r] == m.x[r]
            &&& forall|r: u32| 8 <= r < 8 + n ==> #[trigger] end.v[r] == m.v[r]
            &&& word_at(restored, restored.len() - 4) == 0xD65F03C0
        }),
{
    let frame = 48 + 16 * n;
    let from = code.len() as int;
    let w1 = pair_word(0xA9400000, 21, 22, 31, 32, 8);
    let w2 = pair_word(0xA9400000, 19, 20, 31, 16, 8);
    let w3 = pair_word(0xA8C00000, 29, 30, 31, frame, 8);
    assert(0xA9400000u32 & 0x3FFFFF == 0 && 0xA8C00000u32 & 0x3FFFFF == 0) by (bit_vector);
    lemma_pair_fields(0xA9400000, 21, 22, 32, 8);
    lemma_pair_fields(0xA9400000, 19, 20, 16, 8);
    lemma_pair_fields(0xA8C00000, 29, 30, frame, 8);
    lemma_loads(f, code, from, 0, n);
    let c0 = neon_restored(code, n);
    let c1 = c0.inst(w1);
    let c2 = c1.inst(w2);
    let c3 = c2.inst(w3);
    let restored = c3.inst(0xD65F03C0);
    lemma_more(f, c0, w1, from);
    lemma_more(f, c1, w2, from);
    lemma_more(f, c2, w3, from);
    lemma_more(f, c3, 0xD65F03C0, from);
    read_appended_word(c3, 0xD65F03C0);
    lemma_prefix(f, c3, restored, from, c3.len() as int);
    assert(f.ran(code, from, from) == f);
    let g = f.ran(c0, from, c0.len() as int);
    let end = f.ran(restored, from, restored.len() - 4);
    assert(end.v == g.v);
    assert forall|r: u32| 8 <= r < 8 + n implies #[trigger] end.v[r] == m.v[r] by {
        let k = r - 8;
        assert((8 + k) as u32 == r);
        assert(g.v[(8 + k) as u32] == g.v[r]);
        assert(m.v[(8 + k) as u32] == m.v[r]);
    }
}

proof fn lemma_back_edge(imm: u32)
    requires
        imm < 0x8_0000,
    ensures
        (bcond_word(imm, 1) >> 5) & 0x7FFFF == imm,
        bcond_word(imm, 1) & 0xFF00001F == 0x54000001,
{
    let c = 1u8 as u32;
    let w = 0x54000000u32 | ((imm & 0x7FFFF) << 5) | c;
    assert((w >> 5) & 0x7FFFF == imm && w & 0xFF00001F == 0x54000001) by (bit_vector)
        requires
            imm < 0x8_0000,
            c == 1,
            w == 0x54000000u32 | ((imm & 0x7FFFF) << 5) | c,
    ;
}

/// The end of a scanline kernel of whole instructions stores the result, counts down
/// and branches back to the loop header while the count is not zero. The zero-count
/// exit leads to what follows. That is `4 + (n + 1) / 2` words, which load the caller's
/// registers from where they were saved, raise the stack pointer to where it was, and
/// return. No earlier byte but those of the zero-count exit changes.
pub proof fn ends_close_the_loop_and_restore_registers(
    code: Seq<u8>,
    exit_patch: int,
    header: int,
    result: Reg,
    n: int,
    m: Frame,
    f: Frame,
)
    requires
        0 <= n <= 8,
        0 <= exit_patch,
        exit_patch + 4 <= code.len(),
        (exit_patch - code.len()) % 4 == 0,
        (header - code.len()) % 4 == 0,
        loop_reaches(code.len() as int, exit_patch, header),
        saved_frame(m, f, n),
    ensures
        ({
            let e = code.len() as int;
            let out = scanline_end(code, exit_patch, header, result, n);
            let end = f.ran(out, e + 12, out.len() - 4);
            &&& out.len() == e + 4 * (7 + (n + 1) / 2)
            &&& word_at(out, e) == q_post16(0x3C810400, result.0, 20)
            &&& word_at(out, e + 4) == 0xF1000000u32 | (1u32 << 10) | (21u32 << 5) | 21u32
            &&& word_at(out, e + 8) & 0xFF00001F == 0x54000001
            &&& cond_target(word_at(out, e + 8), e + 8) == header
            &&& word_at(out, exit_patch) & 0xFF00001F == word_at(code, exit_patch) & 0xFF00001F
            &&& cond_target(word_at(out, exit_patch), exit_patch) == e + 12
            &&& end.sp == m.sp
            &&& end.sp == f.sp + 48 + 16 * n
            &&& forall|r: u32| #[trigger] kept_for_caller(r) ==> end.x[r] == m.x[r]
            &&& forall|r: u32| 8 <= r < 8 + n ==> #[trigger] end.v[r] == m.v[r]
            &&& word_at(out, out.len() - 4) == 0xD65F03C0
            &&& forall|i: int|
                0 <= i < e && !(exit_patch <= i < exit_patch + 4) ==> #[trigger] out[i] == code[i]
        }),
{
    let e = code.len() as int;
    let w1 = q_post16(0x3C810400, result.0, 20);
    let w2 = 0xF1000000u32 | (1u32 << 10) | (21u32 << 5) | 21u32;
    let imm = field19(branch_steps(e + 8, header));
    let w3 = bcond_word(imm, 0x01);
    let c1 = code.inst(w1);
    let c2 = c1.inst(w2);
    let c3 = c2.inst(w3);
    let closed = loop_closed(code, exit_patch, header, result);
    read_appended_word(code, w1);
    read_appended_word(c1, w2);
    read_appended_word(c2, w3);
    lemma_back_edge(imm);
    assert(cond_target(w3, e + 8) == header);
    patched_cond_leads_to_target(c3, exit_patch, e + 12);
    assert(closed == cond_patched(c3, exit_patch, e + 12));
    lemma_restores(m, f, closed, n);
    let out = scanline_end(code, exit_patch, header, result, n);
    assert(word_at(closed, e) == word_at(c1, e));
    assert(word_at(closed, e + 4) == word_at(c2, e + 4));
    assert(word_at(closed, e + 8) == word_at(c3, e + 8));
    assert(word_at(c3, exit_patch) == word_at(code, exit_patch));
    assert(word_at(out, e) == word_at(closed, e));
    assert(word_at(out, e + 4) == word_at(closed, e + 4));
    assert(word_at(out, e + 8) == word_at(closed, e + 8));
    assert(word_at(out, exit_patch) == word_at(closed, exit_patch));
    assert forall|i: int|
        0 <= i < e && !(exit_patch <= i < exit_patch + 4) implies #[trigger] out[i] == code[i] by {
        assert(out[i] == closed[i]);
        assert(closed[i] == c3[i]);
    }
}

/// Scanline kernels keep their caller's registers: whatever runs between the start and
/// the end of a kernel that saved `n` vector registers, if it leaves the stack pointer
/// and the frame alone, X19 to X22, X29, X30, V8 to V(7+n) and the stack pointer are at
/// the end what they were at the start. Without vector registers, `n` is zero.
pub proof fn scanline_kernels_keep_registers(
    m: Frame,
    start: Seq<u8>,
    f: Frame,
    code: Seq<u8>,
    exit_patch: int,
    header: int,
    result: Reg,
    n: int,
)
    requires
        0 <= n <= 8,
        0 <= exit_patch,
        exit_patch + 4 <= code.len(),
        (exit_patch - code.len()) % 4 == 0,
        (header - code.len()) % 4 == 0,
        loop_reaches(code.len() as int, exit_patch, header),
        ({
            let saved = neon_saved(gp_saved(start, 48 + 16 * n), n);
            let g = m.ran(saved, start.len() as int, saved.len() as int);
            &&& f.sp == g.sp
            &&& forall|a: int| g.sp <= a < g.sp + 48 + 16 * n ==> #[trigger] f.mem[a] == g.mem[a]
        }),
    ensures
        ({
            let out = scanline_end(code, exit_patch, header, result, n);
            let end = f.ran(out, (code.len() + 12) as int, out.len() - 4);
            &&& end.sp == m.sp
            &&& forall|r: u32| #[trigger] kept_for_caller(r) ==> end.x[r] == m.x[r]
            &&& forall|r: u32| 8 <= r < 8 + n ==> #[trigger] end.v[r] == m.v[r]
        }),
{
    prologues_save_registers(m, start, n);
    let saved = neon_saved(gp_saved(start, 48 + 16 * n), n);
    let g = m.ran(saved, start.len() as int, saved.len() as int);
    assert(saved_frame(m, f, n));
    ends_close_the_loop_and_restore_registers(code, exit_patch, header, result, n, m, f);
}

} // verus!
