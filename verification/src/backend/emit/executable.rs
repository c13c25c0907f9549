//! What goes into executable memory: the code, and how many pages it takes.
//!
//! Mapping the pages and flipping them between writable and executable is the
//! caller's work.

use crate::backend::emit::bytes::emit_bytes;
use vstd::prelude::*;

verus! {

/// The least multiple of the page size that holds `len` bytes.
pub open spec fn whole_pages(len: int, page_size: int) -> int {
    (len + page_size - 1) / page_size * page_size
}

/// `capacity` holds `len` bytes, in whole pages and no page too many.
pub open spec fn is_whole_pages(capacity: int, len: int, page_size: int) -> bool {
    &&& capacity % page_size == 0
    &&& len <= capacity < len + page_size
}

/// Rounding to whole pages gives the least number of pages that is enough.
pub proof fn whole_pages_are_least(len: int, page_size: int)
    requires
        0 <= len,
        0 < page_size,
    ensures
        is_whole_pages(whole_pages(len, page_size), len, page_size),
{
    let q = (len + page_size - 1) / page_size;
    vstd::arithmetic::div_mod::lemma_fundamental_div_mod(len + page_size - 1, page_size);
    vstd::arithmetic::div_mod::lemma_mod_bound(len + page_size - 1, page_size);
    assert(page_size * q == q * page_size) by (nonlinear_arith);
    vstd::arithmetic::div_mod::lemma_mod_multiples_basic(q, page_size);
}

/// Round up to whole pages.
fn round_to_pages(len: usize, page_size: usize) -> (capacity: usize)
    requires
        0 < page_size,
        len + page_size - 1 <= usize::MAX,
    ensures
        capacity == whole_pages(len as int, page_size as int),
        is_whole_pages(capacity as int, len as int, page_size as int),
{
    proof {
        whole_pages_are_least(len as int, page_size as int);
    }
    let pages: usize = (len + (page_size - 1)) / page_size;
    assert(pages * page_size <= len + page_size - 1) by {
        vstd::arithmetic::div_mod::lemma_fundamental_div_mod(
            len + page_size - 1,
            page_size as int,
        );
        assert(page_size * pages == pages * page_size) by (nonlinear_arith);
    }
    pages * page_size
}

/// A copy of some bytes.
fn copied(bytes: &[u8]) -> (v: Vec<u8>)
    ensures
        v@ == bytes@,
{
    let mut v: Vec<u8> = Vec::with_capacity(bytes.len());
    emit_bytes(&mut v, bytes);
    assert(v@ =~= bytes@);
    v
}

/// Code for executable memory, and the size of the memory it needs.
#[derive(Debug)]
pub struct ExecutableCode {
    code: Vec<u8>,
    capacity: usize,
}

impl ExecutableCode {
    /// The code.
    pub closed spec fn bytes(&self) -> Seq<u8> {
        self.code@
    }

    /// The size of the memory.
    pub closed spec fn room(&self) -> int {
        self.capacity as int
    }

    /// Lay out code in pages of memory. There must be some.
    pub fn from_code(code: &[u8], page_size: usize) -> (r: Result<ExecutableCode, &'static str>)
        requires
            0 < page_size,
            code@.len() + page_size - 1 <= usize::MAX,
        ensures
            match r {
                Ok(e) => {
                    &&& code@.len() > 0
                    &&& e.bytes() == code@
                    &&& e.room() == whole_pages(code@.len() as int, page_size as int)
                    &&& is_whole_pages(e.room(), code@.len() as int, page_size as int)
                },
                Err(e) => code@.len() == 0 && e == "empty code buffer",
            },
    {
        if code.len() == 0 {
            return Err("empty code buffer");
        }
        let capacity: usize = round_to_pages(code.len(), page_size);
        Ok(ExecutableCode { code: copied(code), capacity })
    }

    /// The code.
    pub fn as_bytes(&self) -> (b: &[u8])
        ensures
            b@ == self.bytes(),
    {
        self.code.as_slice()
    }

    /// Length of the code in bytes.
    pub fn len(&self) -> (n: usize)
        ensures
            n == self.bytes().len(),
    {
        self.code.len()
    }

    /// Whether there is no code.
    pub fn is_empty(&self) -> (b: bool)
        ensures
            b == (self.bytes().len() == 0),
    {
        self.code.len() == 0
    }

    /// Size of the memory in bytes.
    pub fn capacity(&self) -> (n: usize)
        ensures
            n == self.room(),
    {
        self.capacity
    }
}

/// A reusable region of executable memory: what it holds and how much it can
/// hold.
#[derive(Debug)]
pub struct CodeBuffer {
    code: Vec<u8>,
    capacity: usize,
}

impl CodeBuffer {
    /// What it holds.
    pub closed spec fn bytes(&self) -> Seq<u8> {
        self.code@
    }

    /// How much it can hold.
    pub closed spec fn room(&self) -> int {
        self.capacity as int
    }

    /// It holds no more than it can.
    pub open spec fn wf(&self) -> bool {
        self.bytes().len() <= self.room()
    }

    /// A buffer of at least `capacity` bytes, in whole pages.
    pub fn new(capacity: usize, page_size: usize) -> (r: Result<CodeBuffer, &'static str>)
        requires
            0 < page_size,
            capacity + page_size - 1 <= usize::MAX,
        ensures
            match r {
                Ok(b) => {
                    &&& capacity > 0
                    &&& b.wf()
                    &&& b.bytes() == Seq::<u8>::empty()
                    &&& b.room() == whole_pages(capacity as int, page_size as int)
                    &&& is_whole_pages(b.room(), capacity as int, page_size as int)
                },
                Err(e) => capacity == 0 && e == "CodeBuffer capacity must be > 0",
            },
    {
        if capacity == 0 {
            return Err("CodeBuffer capacity must be > 0");
        }
        let capacity: usize = round_to_pages(capacity, page_size);
        Ok(CodeBuffer { code: Vec::new(), capacity })
    }

    /// Replace what the buffer holds.
    pub fn write_code(&mut self, code: &[u8]) -> (r: Result<(), &'static str>)
        requires
            old(self).wf(),
        ensures
            final(self).wf(),
            final(self).room() == old(self).room(),
            if code@.len() == 0 {
                r == Err::<(), &'static str>("CodeBuffer: empty code") && final(self).bytes() == old(self).bytes()
            } else if code@.len() > old(self).room() {
                r == Err::<(), &'static str>("CodeBuffer: code exceeds buffer capacity") && final(self).bytes() == old(self).bytes()
            } else {
                r is Ok && final(self).bytes() == code@
            },
    {
        if code.len() == 0 {
            return Err("CodeBuffer: empty code");
        }
        if code.len() > self.capacity {
            return Err("CodeBuffer: code exceeds buffer capacity");
        }
        self.code = copied(code);
        Ok(())
    }

    /// What the buffer holds.
    pub fn as_bytes(&self) -> (b: &[u8])
        ensures
            b@ == self.bytes(),
    {
        self.code.as_slice()
    }

    /// Length of the code in bytes.
    pub fn len(&self) -> (n: usize)
        ensures
            n == self.bytes().len(),
    {
        self.code.len()
    }

    /// Whether the buffer holds no code.
    pub fn is_empty(&self) -> (b: bool)
        ensures
            b == (self.bytes().len() == 0),
    {
        self.code.len() == 0
    }

    /// Total capacity in bytes.
    pub fn capacity(&self) -> (n: usize)
        ensures
            n == self.room(),
    {
        self.capacity
    }
}

} // verus!
