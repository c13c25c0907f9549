//! What the NEON code at the ends of a kernel does.

use crate::backend::emit::aarch64::chunked;
use crate::backend::emit::aarch64::effects::{lemma_chunked, lemma_copy};
use crate::backend::emit::aarch64::model::{does, lemma_does, lemma_idle, Cpu};
use crate::backend::emit::bytes::CodeBytes;
use crate::backend::emit::isa::neon::{anchored, copy_code};
use crate::backend::emit::isa::{Aarch64Backend, IsaBackend};
use crate::backend::emit::lane::Lanes;
use crate::backend::emit::Reg;
use vstd::prelude::*;

verus! {

/// The code before the first entry lowers the stack pointer by the size of the frame; the
/// word behind it, where the address of the constants is taken, is the anchor.
pub proof fn entry_makes_room_for_the_frame<T>(l: Lanes<T>, code: Seq<u8>, frame: u32, s: Cpu<T>)
    requires
        s.x.contains_key(31),
    ensures
        ({
            let (out, anchor) = Aarch64Backend::entered(code, frame);
            exists|c: Seq<u8>| #[trigger]
                does(l, code, c, s, s.with_x(31, s.x[31] - frame)) && out == c.inst(0x10000011)
                    && anchor == c.len()
        }),
{
    assert(0xD10003FFu32 == 0xD1000000u32 | (31u32 << 5) | 31u32) by (bit_vector);
    lemma_chunked(l, code, false, 31, 0xD10003FF, frame, s);
    let c = chunked(code, 0xD10003FF, frame);
    assert(does(l, code, c, s, s.with_x(31, s.x[31] - frame)));
}

/// The code behind the last entry leaves the result in the first vector register and raises
/// the stack pointer by the size of the frame, before it returns.
pub proof fn exit_returns_the_result<T>(
    l: Lanes<T>,
    code: Seq<u8>,
    pool: Seq<u32>,
    anchor: int,
    result: Reg,
    frame: u32,
    s: Cpu<T>,
)
    requires
        result.0 < 32,
        s.x.contains_key(31),
    ensures
        exists|c: Seq<u8>, t: Cpu<T>| #[trigger]
            does(l, code, c, s, t) && t.v[0] == s.v[result.0 as u32] && t.mem == s.mem && t.x[31]
                == s.x[31] + frame && Aarch64Backend::finished(code, pool, anchor, result, frame)
                == anchored(c.inst(0xD65F03C0), pool, anchor),
{
    assert(0x910003FFu32 == 0x91000000u32 | (31u32 << 5) | 31u32) by (bit_vector);
    let c1 = copy_code(code, Reg(0), result);
    let y = s.v[result.0 as u32];
    let t1 = if result.0 == 0 {
        s
    } else {
        s.with_v(0, y)
    };
    lemma_copy(l, code, Reg(0), result, s);
    lemma_idle(l, code, s);
    assert(does(l, code, c1, s, t1));
    let c = chunked(c1, 0x910003FF, frame);
    let t = t1.with_x(31, t1.x[31] + frame);
    lemma_chunked(l, c1, true, 31, 0x910003FF, frame, t1);
    lemma_does(l, code, c1, c, s, t1, t);
}

} // verus!
