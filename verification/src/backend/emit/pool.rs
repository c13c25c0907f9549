//! The constant pool placed behind the code.

use crate::backend::emit::aarch64::{
    emit_fmov_imm, emit_ldr_q_x17, fmov_imm_code, imm12_word, imm8_of, mov_code, needs_const_pool,
    u32_const_code,
};
use crate::backend::emit::bytes::CodeBytes;
use crate::backend::emit::regalloc::ValueId;
use crate::backend::emit::schedule::ScheduledOp;
use crate::backend::emit::Reg;
use std::collections::BTreeMap;
use vstd::prelude::*;

verus! {

broadcast use vstd::std_specs::btree::group_btree_axioms;

/// The error of a pool that has no room for another entry.
pub open spec fn pool_overflow() -> &'static str {
    "constant pool overflow: exceeded 12-bit LDR offset limit (max 4095 entries)"
}

/// Constant pool: distinct 32-bit patterns, each stored as 16 bytes behind the
/// code and loaded relative to X17. Its view is the sequence of patterns.
pub struct ConstPool {
    entries: Vec<u32>,
    index: BTreeMap<u32, u16>,
}

impl View for ConstPool {
    type V = Seq<u32>;

    closed spec fn view(&self) -> Seq<u32> {
        self.entries@
    }
}

/// Contents of the pool after asking for `bits`.
pub open spec fn pool_with(entries: Seq<u32>, bits: u32) -> Seq<u32> {
    if entries.contains(bits) || entries.len() >= 4096 {
        entries
    } else {
        entries.push(bits)
    }
}

/// `bits` is in the pool or finds room there.
pub open spec fn pool_accepts(entries: Seq<u32>, bits: u32) -> bool {
    entries.contains(bits) || entries.len() < 4096
}

/// Byte offset of `bits` in the pool.
pub open spec fn pool_offset(entries: Seq<u32>, bits: u32) -> u16 {
    (entries.index_of(bits) * 16) as u16
}

/// A pool holds each pattern once and no more than fit a 12-bit index.
pub open spec fn pool_ok(entries: Seq<u32>) -> bool {
    entries.no_duplicates() && entries.len() <= 4096
}

/// A pool keeps what it holds, at the same offsets, however often more is
/// asked for; asking again for the same pattern changes nothing.
pub proof fn pool_grows(entries: Seq<u32>, a: u32, b: u32)
    requires
        pool_ok(entries),
        entries.contains(a),
    ensures
        pool_ok(pool_with(entries, b)),
        pool_with(entries, b).contains(a),
        pool_offset(pool_with(entries, b), a) == pool_offset(entries, a),
        pool_with(entries, a) == entries,
        pool_with(pool_with(entries, b), b) == pool_with(entries, b),
{
    let more = pool_with(entries, b);
    let i = entries.index_of(a);
    assert(more[i] == a);
    assert(more.contains(a));
    assert(more.index_of(a) == i);
    if pool_accepts(entries, b) && !entries.contains(b) {
        assert(more[entries.len() as int] == b);
        assert(more.contains(b));
    }
}

/// The pool of the constants among the first `k` entries of a schedule that no
/// single instruction can build.
pub open spec fn pool_of(sched: Seq<(ValueId, ScheduledOp)>, k: int) -> Result<
    Seq<u32>,
    &'static str,
>
    decreases k,
{
    if k <= 0 {
        Ok(Seq::empty())
    } else {
        match pool_of(sched, k - 1) {
            Err(e) => Err(e),
            Ok(entries) => match sched[k - 1].1 {
                ScheduledOp::Const(bits) => if bits != 0 && imm8_of(bits) is None {
                    if pool_accepts(entries, bits) {
                        Ok(pool_with(entries, bits))
                    } else {
                        Err(pool_overflow())
                    }
                } else {
                    Ok(entries)
                },
                _ => Ok(entries),
            },
        }
    }
}

proof fn lemma_pool_error(sched: Seq<(ValueId, ScheduledOp)>, i: int, k: int)
    requires
        0 <= i <= k,
        pool_of(sched, i) is Err,
    ensures
        pool_of(sched, k) == pool_of(sched, i),
    decreases k,
{
    if i < k {
        lemma_pool_error(sched, i, k - 1);
    }
}

impl ConstPool {
    /// Collect the constants of a schedule that no single instruction can build.
    pub fn from_schedule(schedule: &[(ValueId, ScheduledOp)]) -> (r: Result<
        ConstPool,
        &'static str,
    >)
        ensures
            match pool_of(schedule@, schedule@.len() as int) {
                Ok(entries) => r matches Ok(p) && p.wf() && p@ == entries,
                Err(e) => r matches Err(f) && f == e,
            },
    {
        let mut pool = ConstPool::new();
        let mut i: usize = 0;
        while i < schedule.len()
            invariant
                i <= schedule@.len(),
                pool.wf(),
                pool_of(schedule@, i as int) == Ok::<Seq<u32>, &'static str>(pool@),
            decreases schedule@.len() - i,
        {
            if let ScheduledOp::Const(bits) = schedule[i].1 {
                if needs_const_pool(bits) {
                    if let Err(e) = pool.push_f32(bits) {
                        proof {
                            lemma_pool_error(schedule@, i + 1, schedule@.len() as int);
                        }
                        return Err(e);
                    }
                }
            }
            i += 1;
        }
        Ok(pool)
    }

    /// The index agrees with the entries.
    pub closed spec fn wf(&self) -> bool {
        &&& pool_ok(self.entries@)
        &&& forall|b: u32| #[trigger] self.index@.contains_key(b) <==> self.entries@.contains(b)
        &&& forall|b: u32| #[trigger]
            self.index@.contains_key(b) ==> (self.index@[b] as int) < self.entries@.len()
                && self.entries@[self.index@[b] as int] == b
    }

    /// A valid pool holds no pattern twice and at most 4096 of them.
    pub proof fn lemma_wf(&self)
        requires
            self.wf(),
        ensures
            pool_ok(self@),
    {
    }

    /// Create an empty constant pool.
    pub fn new() -> (pool: ConstPool)
        ensures
            pool.wf(),
            pool@ == Seq::<u32>::empty(),
    {
        ConstPool { entries: Vec::new(), index: BTreeMap::new() }
    }

    /// Insert the `f32` with the given bits, unless it is there, and return its
    /// byte offset from X17.
    pub fn push_f32(&mut self, bits: u32) -> (r: Result<u16, &'static str>)
        requires
            old(self).wf(),
        ensures
            final(self).wf(),
            final(self)@ == pool_with(old(self)@, bits),
            r == if pool_accepts(old(self)@, bits) {
                Ok::<u16, &'static str>(pool_offset(final(self)@, bits))
            } else {
                Err(pool_overflow())
            },
            r matches Ok(offset) ==> offset % 16 == 0 && offset / 16 < final(self)@.len()
                && final(self)@[offset as int / 16] == bits,
    {
        if let Some(idx) = self.index.get(&bits) {
            let idx: u16 = *idx;
            return Ok(idx * 16);
        }
        let idx: usize = self.entries.len();
        if idx >= 4096 {
            return Err("constant pool overflow: exceeded 12-bit LDR offset limit (max 4095 entries)");
        }
        self.entries.push(bits);
        self.index.insert(bits, idx as u16);
        proof {
            let was = old(self).entries@;
            let now = self.entries@;
            assert(now[idx as int] == bits);
            assert(now.contains(bits));
            assert(now.index_of(bits) == idx);
            assert forall|b: u32| was.contains(b) implies #[trigger] now.contains(b) by {
                let i = was.index_of(b);
                assert(now[i] == b);
            }
            assert forall|b: u32| #[trigger] now.contains(b) && b != bits implies was.contains(
                b,
            ) by {
                let i = now.index_of(b);
                assert(was[i] == b);
            }
        }
        Ok((idx * 16) as u16)
    }

    /// Byte offset of a pattern, or `None` if it is not in the pool.
    pub fn offset_for(&self, val_bits: u32) -> (r: Option<u16>)
        requires
            self.wf(),
        ensures
            r == if self@.contains(val_bits) {
                Some(pool_offset(self@, val_bits))
            } else {
                None::<u16>
            },
            r matches Some(offset) ==> offset % 16 == 0 && offset / 16 < self@.len()
                && self@[offset as int / 16] == val_bits,
    {
        match self.index.get(&val_bits) {
            Some(idx) => {
                let idx: u16 = *idx;
                Some(idx * 16)
            },
            None => None,
        }
    }

    /// Number of entries.
    pub fn len(&self) -> (n: usize)
        ensures
            n == self@.len(),
    {
        self.entries.len()
    }

    /// True if the pool has no entries.
    pub fn is_empty(&self) -> (b: bool)
        ensures
            b == (self@.len() == 0),
    {
        self.entries.len() == 0
    }

    /// The pattern at an index.
    pub fn entry(&self, i: usize) -> (bits: u32)
        requires
            i < self@.len(),
        ensures
            bits == self@[i as int],
    {
        self.entries[i]
    }
}

/// Code loading a constant: from the pool if it is there, else built inline.
pub open spec fn const_load_code(code: Seq<u8>, dst: Reg, bits: u32, pool: Seq<u32>) -> Seq<u8> {
    if pool.contains(bits) {
        code.inst(imm12_word(0x3DC00000, (pool_offset(pool, bits) / 16) as u32, 17, dst))
    } else {
        fmov_imm_code(code, dst, bits)
    }
}

/// Emit a constant load, using the constant pool when it holds the value.
pub fn emit_const_load(code: &mut Vec<u8>, dst: Reg, val_bits: u32, pool: &ConstPool)
    requires
        pool.wf(),
    ensures
        final(code)@ == const_load_code(old(code)@, dst, val_bits, pool@),
{
    match pool.offset_for(val_bits) {
        Some(offset) => emit_ldr_q_x17(code, dst, offset),
        None => {
            let scratch = [Reg(28), Reg(29), Reg(30), Reg(31)];
            emit_fmov_imm(code, dst, val_bits, scratch);
        },
    }
}

/// Code and pool under construction; once the pool has overflowed nothing more
/// is appended.
#[verifier::ext_equal]
pub struct Output {
    /// Code so far.
    pub code: Seq<u8>,
    /// Pool so far.
    pub pool: Seq<u32>,
    /// No overflow so far.
    pub ok: bool,
}

impl Output {
    /// One more instruction.
    pub open spec fn inst(self, w: u32) -> Output {
        if self.ok {
            Output { code: self.code.inst(w), ..self }
        } else {
            self
        }
    }

    /// A bit pattern built inline in every lane of `dst`.
    pub open spec fn bits(self, dst: Reg, bits: u32) -> Output {
        if self.ok {
            Output { code: u32_const_code(self.code, dst, bits), ..self }
        } else {
            self
        }
    }

    /// A register copy.
    pub open spec fn mov(self, dst: Reg, src: Reg) -> Output {
        if self.ok {
            Output { code: mov_code(self.code, dst, src), ..self }
        } else {
            self
        }
    }

    /// A pool entry loaded into `dst`.
    pub open spec fn load(self, dst: Reg, bits: u32) -> Output {
        if !self.ok {
            self
        } else if pool_accepts(self.pool, bits) {
            let pool = pool_with(self.pool, bits);
            Output {
                code: self.code.inst(
                    imm12_word(0x3DC00000, (pool_offset(pool, bits) / 16) as u32, 17, dst),
                ),
                pool,
                ok: true,
            }
        } else {
            Output { ok: false, ..self }
        }
    }

    /// What a function that produced this output returns.
    pub open spec fn status(self) -> Result<(), &'static str> {
        if self.ok {
            Ok(())
        } else {
            Err(pool_overflow())
        }
    }
}

/// Put a constant into the pool and load it into `dst`.
pub(crate) fn emit_pool_load(
    code: &mut Vec<u8>,
    pool: &mut ConstPool,
    dst: Reg,
    bits: u32,
) -> (r: Result<(), &'static str>)
    requires
        old(pool).wf(),
    ensures
        final(pool).wf(),
        ({
            let out = (Output { code: old(code)@, pool: old(pool)@, ok: true }).load(dst, bits);
            &&& final(code)@ == out.code
            &&& final(pool)@ == out.pool
            &&& r == out.status()
        }),
{
    match pool.push_f32(bits) {
        Ok(offset) => {
            emit_ldr_q_x17(code, dst, offset);
            Ok(())
        },
        Err(e) => Err(e),
    }
}

} // verus!
