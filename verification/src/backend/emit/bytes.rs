//! Machine code as a byte sequence: appending, reading and patching words.

use vstd::prelude::*;

verus! {

/// Appending to a byte sequence, for use in contracts.
pub trait CodeBytes: Sized {
    /// One more byte.
    spec fn byte(self, b: u8) -> Self;

    /// One more 32-bit word, little endian.
    spec fn inst(self, w: u32) -> Self;
}

impl CodeBytes for Seq<u8> {
    open spec fn byte(self, b: u8) -> Seq<u8> {
        self.push(b)
    }

    open spec fn inst(self, w: u32) -> Seq<u8> {
        self.push((w & 0xFF) as u8).push(((w >> 8) & 0xFF) as u8).push(
            ((w >> 16) & 0xFF) as u8,
        ).push(((w >> 24) & 0xFF) as u8)
    }
}

/// The little-endian word of four bytes.
pub open spec fn word_of(b0: u8, b1: u8, b2: u8, b3: u8) -> u32 {
    (b0 as u32) | ((b1 as u32) << 8) | ((b2 as u32) << 16) | ((b3 as u32) << 24)
}

/// The word stored at byte position `pos`.
pub open spec fn word_at(code: Seq<u8>, pos: int) -> u32 {
    word_of(code[pos], code[pos + 1], code[pos + 2], code[pos + 3])
}

/// `code` with the word at byte position `pos` replaced.
pub open spec fn with_word(code: Seq<u8>, pos: int, w: u32) -> Seq<u8> {
    code.update(pos, (w & 0xFF) as u8).update(pos + 1, ((w >> 8) & 0xFF) as u8).update(
        pos + 2,
        ((w >> 16) & 0xFF) as u8,
    ).update(pos + 3, ((w >> 24) & 0xFF) as u8)
}

proof fn lemma_word_bytes(w: u32)
    ensures
        word_of(
            (w & 0xFF) as u8,
            ((w >> 8) & 0xFF) as u8,
            ((w >> 16) & 0xFF) as u8,
            ((w >> 24) & 0xFF) as u8,
        ) == w,
{
    assert((((w & 0xFF) as u8) as u32) | (((((w >> 8) & 0xFF) as u8) as u32) << 8) | ((((w >> 16)
        & 0xFF) as u8) as u32) << 16 | ((((w >> 24) & 0xFF) as u8) as u32) << 24 == w)
        by (bit_vector);
}

/// Reading back an appended word gives the word.
pub proof fn read_appended_word(code: Seq<u8>, w: u32)
    ensures
        word_at(code.inst(w), code.len() as int) == w,
        code.inst(w).len() == code.len() + 4,
        code.inst(w).take(code.len() as int) == code,
{
    lemma_word_bytes(w);
    assert(code.inst(w).take(code.len() as int) =~= code);
}

/// Reading back a replaced word gives the word, and every other byte stays.
pub proof fn read_replaced_word(code: Seq<u8>, pos: int, w: u32)
    requires
        0 <= pos,
        pos + 4 <= code.len(),
    ensures
        word_at(with_word(code, pos, w), pos) == w,
        with_word(code, pos, w).len() == code.len(),
        forall|i: int|
            0 <= i < code.len() && !(pos <= i < pos + 4) ==> #[trigger] with_word(
                code,
                pos,
                w,
            )[i] == code[i],
{
    lemma_word_bytes(w);
}

/// Write a 32-bit word to the code buffer.
#[inline]
pub fn emit32(code: &mut Vec<u8>, inst: u32)
    ensures
        final(code)@ == old(code)@.inst(inst),
{
    code.push((inst & 0xFF) as u8);
    code.push(((inst >> 8) & 0xFF) as u8);
    code.push(((inst >> 16) & 0xFF) as u8);
    code.push(((inst >> 24) & 0xFF) as u8);
}

/// The word stored at byte position `pos`.
pub fn read32(code: &[u8], pos: usize) -> (w: u32)
    requires
        pos + 4 <= code@.len(),
    ensures
        w == word_at(code@, pos as int),
{
    (code[pos] as u32) | ((code[pos + 1] as u32) << 8) | ((code[pos + 2] as u32) << 16) | ((
    code[pos + 3] as u32) << 24)
}

/// Replaces the word at byte position `pos`.
pub fn write32(code: &mut [u8], pos: usize, w: u32)
    requires
        pos + 4 <= old(code)@.len(),
    ensures
        final(code)@ == with_word(old(code)@, pos as int, w),
{
    code[pos] = (w & 0xFF) as u8;
    code[pos + 1] = ((w >> 8) & 0xFF) as u8;
    code[pos + 2] = ((w >> 16) & 0xFF) as u8;
    code[pos + 3] = ((w >> 24) & 0xFF) as u8;
}

/// Appends a run of bytes.
pub fn emit_bytes(code: &mut Vec<u8>, bytes: &[u8])
    ensures
        final(code)@ == old(code)@ + bytes@,
{
    let mut i: usize = 0;
    while i < bytes.len()
        invariant
            i <= bytes@.len(),
            code@ =~= old(code)@ + bytes@.take(i as int),
        decreases bytes@.len() - i,
    {
        code.push(bytes[i]);
        i += 1;
    }
    assert(bytes@.take(i as int) =~= bytes@);
}

} // verus!
