//! Binding bound-memory buffers and uniform values to their declared slots.
//!
//! Bindings borrow their contents: a [`BindingTable`] is valid for the duration
//! of one evaluation. Sample values are `f32` bit patterns.

use crate::arena::rewrite::{find_uniform, uniform_slot};
use crate::arena::{BufferDecl, BufferId, UniformDecl, UniformId, UniformIdentity};
use crate::expr::Environment;
use crate::text::{dec, push_dec};
use vstd::prelude::*;
use vstd::string::*;

verus! {

/// Why binding failed.
#[derive(Clone, Copy, PartialEq, Eq, Structural, Debug)]
pub enum BindError {
    /// The number of supplied slices does not match the buffer count.
    Count {
        /// Buffers declared.
        declared: usize,
        /// Slices supplied.
        supplied: usize,
    },
    /// A slice length does not match its declared `width * height`.
    Length {
        /// The offending slot.
        slot: u16,
        /// Length the declaration requires.
        expected: usize,
        /// Length supplied.
        actual: usize,
    },
    /// A value was supplied for an identity that is not declared.
    Uniform(UniformIdentity),
}

impl BindError {
    /// The message of this error.
    pub open spec fn text(self) -> Seq<char> {
        match self {
            BindError::Count { declared, supplied } => "binding count mismatch: graph declares "@
                + dec(declared as nat) + " buffer(s), "@ + dec(supplied as nat) + " supplied"@,
            BindError::Length { slot, expected, actual } => "buffer slot "@ + dec(slot as nat)
                + ": declared length "@ + dec(expected as nat) + ", bound slice has "@ + dec(
                actual as nat,
            ),
            BindError::Uniform(id) => "UniformIdentity("@ + dec(id.serial() as nat)
                + ") is not a uniform this arena declares"@,
        }
    }

    /// The message of this error.
    pub fn message(&self) -> (s: String)
        ensures
            s@ == self.text(),
    {
        let mut s = String::new();
        match *self {
            BindError::Count { declared, supplied } => {
                s.append("binding count mismatch: graph declares ");
                push_dec(&mut s, declared as u64);
                s.append(" buffer(s), ");
                push_dec(&mut s, supplied as u64);
                s.append(" supplied");
            },
            BindError::Length { slot, expected, actual } => {
                s.append("buffer slot ");
                push_dec(&mut s, slot as u64);
                s.append(": declared length ");
                push_dec(&mut s, expected as u64);
                s.append(", bound slice has ");
                push_dec(&mut s, actual as u64);
            },
            BindError::Uniform(id) => {
                s.append("UniformIdentity(");
                push_dec(&mut s, id.number() as u64);
                s.append(") is not a uniform this arena declares");
            },
        }
        assert(s@ =~= self.text());
        s
    }
}

/// Number of samples a declaration covers.
pub open spec fn samples(d: BufferDecl) -> int {
    d.width * d.height
}

/// The first slot whose slice does not have the declared length.
pub open spec fn misfit(decls: Seq<BufferDecl>, slices: Seq<&[u32]>, from: int) -> Option<int>
    decreases decls.len() - from,
{
    if from >= decls.len() {
        None
    } else if slices[from]@.len() != samples(decls[from]) {
        Some(from)
    } else {
        misfit(decls, slices, from + 1)
    }
}

/// Default values of a list of uniform declarations.
pub open spec fn defaults(decls: Seq<UniformDecl>) -> Seq<u32> {
    Seq::new(decls.len(), |i: int| decls[i].default)
}

/// `cur` after writing each listed value to the slot of its identity, in
/// order; the first undeclared identity stops it.
pub open spec fn assigned(
    decls: Seq<UniformDecl>,
    cur: Seq<u32>,
    values: Seq<(UniformIdentity, u32)>,
) -> Result<Seq<u32>, UniformIdentity>
    decreases values.len(),
{
    if values.len() == 0 {
        Ok(cur)
    } else {
        match uniform_slot(decls, values[0].0) {
            None => Err(values[0].0),
            Some(i) => assigned(decls, cur.update(i, values[0].1), values.drop_first()),
        }
    }
}

/// Borrowed contents for every declared buffer, and the values of the
/// uniforms. Uniforms are supplied by identity; a table bound without them
/// evaluates every one at its declared default.
pub struct BindingTable<'a> {
    slots: Vec<&'a [u32]>,
    uniforms: Vec<u32>,
}

impl<'a> BindingTable<'a> {
    /// The bound slices, by buffer slot.
    pub closed spec fn slot_view(&self) -> Seq<&'a [u32]> {
        self.slots@
    }

    /// The bound uniform values, by uniform slot; empty means every default.
    pub closed spec fn uniform_view(&self) -> Seq<u32> {
        self.uniforms@
    }

    /// Bind a value to each of the named uniforms; every other slot keeps its
    /// value, or its declared default if none were bound yet.
    #[verifier::loop_isolation(false)]
    pub fn bind_uniforms(
        self,
        env: &Environment,
        values: &[(UniformIdentity, u32)],
    ) -> (r: Result<Self, BindError>)
        ensures
            ({
                let start = if self.uniform_view().len() != env.uniforms@.len() {
                    defaults(env.uniforms@)
                } else {
                    self.uniform_view()
                };
                match assigned(env.uniforms@, start, values@) {
                    Ok(u) => r matches Ok(t) && t.uniform_view() == u && t.slot_view()
                        == self.slot_view(),
                    Err(id) => r == Err::<Self, BindError>(BindError::Uniform(id)),
                }
            }),
    {
        let slots = self.slots;
        let mut uniforms = self.uniforms;
        let decls = env.uniforms.as_slice();
        if uniforms.len() != decls.len() {
            let mut fresh: Vec<u32> = Vec::new();
            let mut i: usize = 0;
            while i < decls.len()
                invariant
                    i <= decls@.len(),
                    fresh@ =~= defaults(decls@).take(i as int),
                decreases decls@.len() - i,
            {
                fresh.push(decls[i].default);
                i += 1;
            }
            assert(fresh@ =~= defaults(decls@));
            uniforms = fresh;
        }
        let ghost start = uniforms@;
        let mut k: usize = 0;
        assert(values@.skip(0) =~= values@);
        while k < values.len()
            invariant
                k <= values@.len(),
                decls@ == env.uniforms@,
                uniforms@.len() == decls@.len(),
                assigned(decls@, uniforms@, values@.skip(k as int)) == assigned(
                    decls@,
                    start,
                    values@,
                ),
            decreases values@.len() - k,
        {
            let (id, v): (UniformIdentity, u32) = values[k];
            proof {
                assert(values@.skip(k as int)[0] == values@[k as int]);
                assert(values@.skip(k as int).drop_first() =~= values@.skip(k as int + 1));
                crate::arena::rewrite::lemma_uniform_slot(decls@, id);
            }
            match find_uniform(decls, id) {
                Some(slot) => {
                    uniforms.set(slot, v);
                },
                None => {
                    return Err(BindError::Uniform(id));
                },
            }
            k += 1;
        }
        Ok(BindingTable { slots, uniforms })
    }

    /// The value bound to uniform slot `id`, or `None` to mean its default.
    #[inline]
    pub fn uniform(&self, id: UniformId) -> (r: Option<u32>)
        ensures
            r == if id.0 < self.uniform_view().len() {
                Some(self.uniform_view()[id.0 as int])
            } else {
                None
            },
    {
        if (id.0 as usize) < self.uniforms.len() {
            Some(self.uniforms[id.0 as usize])
        } else {
            None
        }
    }

    /// Bind `slices` to the buffer slots in order, checking the count and
    /// every length against the declarations.
    pub fn bind(env: &Environment, slices: &[&'a [u32]]) -> (r: Result<Self, BindError>)
        requires
            env.buffers@.len() <= u16::MAX,
            forall|i: int|
                0 <= i < env.buffers@.len() ==> samples(#[trigger] env.buffers@[i]) <= usize::MAX,
        ensures
            env.buffers@.len() != slices@.len() ==> r == Err::<Self, BindError>(
                BindError::Count {
                    declared: env.buffers@.len() as usize,
                    supplied: slices@.len() as usize,
                },
            ),
            env.buffers@.len() == slices@.len() ==> match misfit(env.buffers@, slices@, 0) {
                Some(i) => r == Err::<Self, BindError>(
                    BindError::Length {
                        slot: i as u16,
                        expected: samples(env.buffers@[i]) as usize,
                        actual: slices@[i]@.len() as usize,
                    },
                ),
                None => r matches Ok(t) && t.slot_view() == slices@ && t.uniform_view()
                    == Seq::<u32>::empty(),
            },
    {
        let decls = env.buffers.as_slice();
        if decls.len() != slices.len() {
            return Err(BindError::Count { declared: decls.len(), supplied: slices.len() });
        }
        let mut slots: Vec<&'a [u32]> = Vec::new();
        let mut i: usize = 0;
        while i < decls.len()
            invariant
                decls@ == env.buffers@,
                decls@.len() == slices@.len(),
                decls@.len() <= u16::MAX,
                forall|i: int|
                    0 <= i < decls@.len() ==> samples(#[trigger] decls@[i]) <= usize::MAX,
                i <= decls@.len(),
                slots@ =~= slices@.take(i as int),
                misfit(decls@, slices@, i as int) == misfit(decls@, slices@, 0),
            decreases decls@.len() - i,
        {
            let d: BufferDecl = decls[i];
            assert(samples(decls@[i as int]) >= 0) by (nonlinear_arith)
                requires
                    samples(decls@[i as int]) == decls@[i as int].width * decls@[i as int].height,
            ;
            let expected: usize = d.width as usize * d.height as usize;
            let slice: &'a [u32] = slices[i];
            if slice.len() != expected {
                return Err(
                    BindError::Length { slot: i as u16, expected, actual: slice.len() },
                );
            }
            slots.push(slice);
            i += 1;
        }
        assert(slices@.take(i as int) =~= slices@);
        Ok(BindingTable { slots, uniforms: Vec::new() })
    }

    /// A table for graphs that declare no buffers.
    pub fn empty() -> (t: Self)
        ensures
            t.slot_view() == Seq::<&'a [u32]>::empty(),
            t.uniform_view() == Seq::<u32>::empty(),
    {
        BindingTable { slots: Vec::new(), uniforms: Vec::new() }
    }

    /// The contents bound to `id`.
    #[inline]
    pub fn slot(&self, id: BufferId) -> (s: &'a [u32])
        requires
            id.0 < self.slot_view().len(),
        ensures
            s@ == self.slot_view()[id.0 as int]@,
    {
        self.slots[id.0 as usize]
    }
}

/// A successful binding makes every in-range sample readable: the slice of each
/// slot has exactly the declared number of samples.
pub proof fn bound_slices_fit(decls: Seq<BufferDecl>, slices: Seq<&[u32]>, from: int, i: int)
    requires
        0 <= from <= i < decls.len(),
        misfit(decls, slices, from) is None,
    ensures
        slices[i]@.len() == samples(decls[i]),
    decreases i - from,
{
    if from < i {
        bound_slices_fit(decls, slices, from + 1, i);
    }
}

} // verus!
