//! Arena-allocated expression storage.
//!
//! [`ExprArena`] stores expression nodes in a flat list indexed by [`ExprId`].
//! The arena is append-only; [`ExprArena::clear`] truncates it for reuse.
//! Nodes are stored children before parents.

use crate::fold::Fold;
use crate::key::KernelKey;
use crate::kind::OpKind;
use crate::number::{is_same, same};
use vstd::prelude::*;
use vstd::slice::slice_subrange;

pub mod model;
pub mod display;
pub mod link;
pub mod order;
pub mod rewrite;
mod walk;

use model::{lemma_operands_push, nary_len, ArenaModel};

verus! {

/// Coordinate axes a lattice has, and so the coordinate `Var` indices: `X = 0`,
/// `Y = 1`.
pub const COORD_AXES: usize = 2;

/// The lower of the two retired coordinate indices. They are reserved and
/// never reissued.
pub const RETIRED_COORD_FIRST: u8 = 2;

/// The upper of the two retired coordinate indices.
pub const RETIRED_COORD_LAST: u8 = 3;

/// The first `Var` index a reduction binder takes: past the retired axes.
pub const REDUCE_BINDER_BASE: u8 = 4;

/// How many reduction binders the index space holds.
pub const REDUCE_BINDERS: u8 = 4;

/// Index into an [`ExprArena`].
#[derive(Clone, Copy, PartialEq, Eq, Structural, Hash, Debug, PartialOrd, Ord)]
pub struct ExprId(pub u32);

/// Slot index into an [`ExprArena`]'s buffer table.
#[derive(Clone, Copy, PartialEq, Eq, Structural, Hash, Debug, PartialOrd, Ord)]
pub struct BufferId(pub u16);

/// Which block of memory a declaration refers to, independent of any arena.
#[derive(Clone, Copy, PartialEq, Eq, Structural, Hash, Debug, PartialOrd, Ord)]
pub struct BufferIdentity(u32);

/// Takes the next identity from `counter`. An exhausted counter stays
/// exhausted: it never wraps onto an identity already handed out.
pub fn mint_identity(counter: &mut u32) -> (r: Option<u32>)
    ensures
        *old(counter) < u32::MAX ==> r == Some(*old(counter)) && *final(counter) == *old(counter)
            + 1,
        *old(counter) == u32::MAX ==> r is None && *final(counter) == *old(counter),
{
    let n: u32 = *counter;
    match n.checked_add(1) {
        Some(next) => {
            *counter = next;
            Some(n)
        },
        None => None,
    }
}

impl BufferIdentity {
    /// The counter value this identity was minted at.
    pub closed spec fn serial(self) -> u32 {
        self.0
    }

    /// Mint an identity distinct from every other minted from `counter`.
    pub fn mint(counter: &mut u32) -> (id: Self)
        requires
            *old(counter) < u32::MAX,
        ensures
            id.serial() == *old(counter),
            *final(counter) == *old(counter) + 1,
    {
        match mint_identity(counter) {
            Some(n) => BufferIdentity(n),
            None => BufferIdentity(0),
        }
    }
}

/// Declaration of a bound memory buffer: row-major, `stride == width`.
#[derive(Clone, Copy, PartialEq, Eq, Structural, Hash, Debug)]
pub struct BufferDecl {
    /// Which memory this names.
    pub id: BufferIdentity,
    /// X extent (samples per row).
    pub width: u32,
    /// Y extent (number of rows).
    pub height: u32,
}

/// Slot index into an [`ExprArena`]'s uniform table.
#[derive(Clone, Copy, PartialEq, Eq, Structural, Hash, Debug, PartialOrd, Ord)]
pub struct UniformId(pub u16);

/// Which uniform a declaration refers to, independent of any arena.
#[derive(Clone, Copy, PartialEq, Eq, Structural, Hash, Debug, PartialOrd, Ord)]
pub struct UniformIdentity(u32);

impl UniformIdentity {
    /// The counter value this identity was minted at.
    pub closed spec fn serial(self) -> u32 {
        self.0
    }

    /// Mint an identity distinct from every other minted from `counter`.
    pub fn mint(counter: &mut u32) -> (id: Self)
        requires
            *old(counter) < u32::MAX,
        ensures
            id.serial() == *old(counter),
            *final(counter) == *old(counter) + 1,
    {
        match mint_identity(counter) {
            Some(n) => UniformIdentity(n),
            None => UniformIdentity(0),
        }
    }

    /// The counter value this identity was minted at.
    pub(crate) fn number(self) -> (n: u32)
        ensures
            n == self.serial(),
    {
        self.0
    }
}

/// Declaration of a uniform: its identity plus the value (as `f32` bits) the
/// kernel holds for it when nothing has been bound. Compared by bit pattern.
#[derive(Clone, Copy, PartialEq, Eq, Structural, Hash, Debug)]
pub struct UniformDecl {
    /// Which instance this names.
    pub id: UniformIdentity,
    /// Bits of the value bound when no block supplies one.
    pub default: u32,
}

/// Distinct mints give distinct identities.
pub proof fn minted_buffers_differ(a: BufferIdentity, b: BufferIdentity)
    ensures
        a.serial() != b.serial() <==> a != b,
{
}

/// Distinct mints give distinct identities.
pub proof fn minted_uniforms_differ(a: UniformIdentity, b: UniformIdentity)
    ensures
        a.serial() != b.serial() <==> a != b,
{
}

/// A single expression node stored in the arena. Two nodes are `==` if they agree,
/// where constants are compared as numbers: zeros of either sign are equal, and what
/// is not a number equals nothing, itself included.
#[derive(Clone, Copy, Debug)]
pub enum ExprNode {
    /// A lattice coordinate, a reduction binder's index, or a placeholder.
    Var(u8),
    /// A constant, as its `f32` bit pattern.
    Const(u32),
    Param(u8),
    /// Bound-memory leaf, read through `Ternary(OpKind::Gather, buffer, x, y)`.
    Buffer(BufferId),
    /// Lattice-invariant scalar supplied per call.
    Uniform(UniformId),
    /// A kernel named by content.
    Ref(KernelKey),
    Unary(OpKind, ExprId),
    Binary(OpKind, ExprId, ExprId),
    Ternary(OpKind, ExprId, ExprId, ExprId),
    /// N-ary node: operand table range start and length.
    Nary(OpKind, u32, u16),
    /// A bounded fold: `⊕_{k ∈ fold.range()} body[fold.binder() := k]`.
    Reduce { fold: Fold, body: ExprId },
}

impl PartialEq for ExprNode {
    fn eq(&self, other: &ExprNode) -> (b: bool) {
        match (*self, *other) {
            (ExprNode::Var(a), ExprNode::Var(b)) => a == b,
            (ExprNode::Const(a), ExprNode::Const(b)) => is_same(a, b),
            (ExprNode::Param(a), ExprNode::Param(b)) => a == b,
            (ExprNode::Buffer(a), ExprNode::Buffer(b)) => a == b,
            (ExprNode::Uniform(a), ExprNode::Uniform(b)) => a == b,
            (ExprNode::Ref(a), ExprNode::Ref(b)) => a == b,
            (ExprNode::Unary(o, a), ExprNode::Unary(p, b)) => o == p && a == b,
            (ExprNode::Binary(o, a, c), ExprNode::Binary(p, b, d)) => o == p && a == b && c == d,
            (ExprNode::Ternary(o, a, c, e), ExprNode::Ternary(p, b, d, f)) => {
                o == p && a == b && c == d && e == f
            },
            (ExprNode::Nary(o, a, m), ExprNode::Nary(p, b, n)) => o == p && a == b && m == n,
            (ExprNode::Reduce { fold: f, body: a }, ExprNode::Reduce { fold: g, body: b }) => {
                f == g && a == b
            },
            _ => false,
        }
    }
}

impl vstd::std_specs::cmp::PartialEqSpecImpl for ExprNode {
    open spec fn obeys_eq_spec() -> bool {
        true
    }

    open spec fn eq_spec(&self, other: &ExprNode) -> bool {
        match (*self, *other) {
            (ExprNode::Const(a), ExprNode::Const(b)) => same(a, b),
            (a, b) => a == b,
        }
    }
}

/// The operands of a node, taken one at a time from the front.
pub enum ExprChildren<'a> {
    Zero,
    One(ExprId),
    Two(ExprId, ExprId),
    Three(ExprId, ExprId, ExprId),
    Nary(&'a [ExprId]),
}

impl<'a> View for ExprChildren<'a> {
    type V = Seq<ExprId>;

    open spec fn view(&self) -> Seq<ExprId> {
        match *self {
            ExprChildren::Zero => Seq::empty(),
            ExprChildren::One(a) => seq![a],
            ExprChildren::Two(a, b) => seq![a, b],
            ExprChildren::Three(a, b, c) => seq![a, b, c],
            ExprChildren::Nary(s) => s@,
        }
    }
}

impl<'a> ExprChildren<'a> {
    /// Removes and returns the first remaining operand.
    pub fn next(&mut self) -> (r: Option<ExprId>)
        ensures
            old(self)@.len() == 0 ==> r is None && final(self)@ == old(self)@,
            old(self)@.len() > 0 ==> r == Some(old(self)@[0]) && final(self)@
                == old(self)@.drop_first(),
    {
        let ghost before = self@;
        match *self {
            ExprChildren::Zero => None,
            ExprChildren::One(a) => {
                *self = ExprChildren::Zero;
                assert(self@ =~= before.drop_first());
                Some(a)
            },
            ExprChildren::Two(a, b) => {
                *self = ExprChildren::One(b);
                assert(self@ =~= before.drop_first());
                Some(a)
            },
            ExprChildren::Three(a, b, c) => {
                *self = ExprChildren::Two(b, c);
                assert(self@ =~= before.drop_first());
                Some(a)
            },
            ExprChildren::Nary(s) => {
                if s.len() == 0 {
                    None
                } else {
                    let first: ExprId = s[0];
                    *self = ExprChildren::Nary(slice_subrange(s, 1, s.len()));
                    assert(self@ =~= before.drop_first());
                    Some(first)
                }
            },
        }
    }

    /// How many operands remain.
    pub fn len(&self) -> (n: usize)
        ensures
            n == self@.len(),
    {
        match *self {
            ExprChildren::Zero => 0,
            ExprChildren::One(_) => 1,
            ExprChildren::Two(_, _) => 2,
            ExprChildren::Three(_, _, _) => 3,
            ExprChildren::Nary(s) => s.len(),
        }
    }

    /// Lower and upper bound on the operands remaining; the two agree.
    pub fn size_hint(&self) -> (r: (usize, Option<usize>))
        ensures
            r.0 == self@.len(),
            r.1 == Some(r.0),
    {
        let n: usize = self.len();
        (n, Some(n))
    }

    /// How many operands remain, consuming the walk.
    pub fn count(self) -> (n: usize)
        ensures
            n == self@.len(),
    {
        self.len()
    }

    /// The remaining operands in order.
    pub fn collect(self) -> (v: Vec<ExprId>)
        ensures
            v@ == self@,
    {
        let ghost all = self@;
        let mut it = self;
        let mut v: Vec<ExprId> = Vec::new();
        assert(it@ =~= all.skip(0));
        loop
            invariant
                v@.len() <= all.len(),
                v@ =~= all.take(v@.len() as int),
                it@ =~= all.skip(v@.len() as int),
            ensures
                v@ =~= all,
            decreases all.len() - v@.len(),
        {
            match it.next() {
                Some(id) => {
                    v.push(id);
                },
                None => {
                    break ;
                },
            }
        }
        v
    }
}

/// Arena-allocated expression storage. Append-only.
pub struct ExprArena {
    nodes: Vec<ExprNode>,
    nary_children: Vec<ExprId>,
    buffers: Vec<BufferDecl>,
    uniforms: Vec<UniformDecl>,
}

impl View for ExprArena {
    type V = ArenaModel;

    closed spec fn view(&self) -> ArenaModel {
        ArenaModel {
            nodes: self.nodes@,
            nary: self.nary_children@,
            buffers: self.buffers@,
            uniforms: self.uniforms@,
        }
    }
}

impl Default for ExprArena {
    fn default() -> (a: Self)
        ensures
            a@ == ArenaModel::empty(),
    {
        Self::new()
    }
}

impl Clone for ExprArena {
    fn clone(&self) -> (a: Self)
        ensures
            a@ == self@,
    {
        let mut nodes: Vec<ExprNode> = Vec::new();
        let mut i: usize = 0;
        while i < self.nodes.len()
            invariant
                i <= self.nodes@.len(),
                nodes@ =~= self.nodes@.take(i as int),
            decreases self.nodes@.len() - i,
        {
            nodes.push(self.nodes[i]);
            i += 1;
        }
        let nary_children = copy_ids(self.nary_children.as_slice());
        let buffers = copy_buffers(self.buffers.as_slice());
        let uniforms = copy_uniforms(self.uniforms.as_slice());
        ExprArena { nodes, nary_children, buffers, uniforms }
    }
}

/// Copies a list of node ids.
fn copy_ids(s: &[ExprId]) -> (v: Vec<ExprId>)
    ensures
        v@ == s@,
{
    let mut v: Vec<ExprId> = Vec::new();
    let mut i: usize = 0;
    while i < s.len()
        invariant
            i <= s@.len(),
            v@ =~= s@.take(i as int),
        decreases s@.len() - i,
    {
        v.push(s[i]);
        i += 1;
    }
    v
}

/// Copies a list of buffer declarations.
fn copy_buffers(s: &[BufferDecl]) -> (v: Vec<BufferDecl>)
    ensures
        v@ == s@,
{
    let mut v: Vec<BufferDecl> = Vec::new();
    let mut i: usize = 0;
    while i < s.len()
        invariant
            i <= s@.len(),
            v@ =~= s@.take(i as int),
        decreases s@.len() - i,
    {
        v.push(s[i]);
        i += 1;
    }
    v
}

/// Copies a list of uniform declarations.
fn copy_uniforms(s: &[UniformDecl]) -> (v: Vec<UniformDecl>)
    ensures
        v@ == s@,
{
    let mut v: Vec<UniformDecl> = Vec::new();
    let mut i: usize = 0;
    while i < s.len()
        invariant
            i <= s@.len(),
            v@ =~= s@.take(i as int),
        decreases s@.len() - i,
    {
        v.push(s[i]);
        i += 1;
    }
    v
}

impl ExprArena {
    /// Create an empty arena.
    pub fn new() -> (a: Self)
        ensures
            a@ == ArenaModel::empty(),
            a@.wf(),
            a@.compact(),
    {
        ExprArena {
            nodes: Vec::new(),
            nary_children: Vec::new(),
            buffers: Vec::new(),
            uniforms: Vec::new(),
        }
    }

    /// Create an empty arena with storage reserved for `n` nodes.
    pub fn with_capacity(n: usize) -> (a: Self)
        ensures
            a@ == ArenaModel::empty(),
            a@.wf(),
            a@.compact(),
    {
        ExprArena {
            nodes: Vec::with_capacity(n),
            nary_children: Vec::new(),
            buffers: Vec::new(),
            uniforms: Vec::new(),
        }
    }

    /// Truncate to zero nodes and declarations.
    pub fn clear(&mut self)
        ensures
            final(self)@ == ArenaModel::empty(),
            final(self)@.wf(),
            final(self)@.compact(),
    {
        self.nodes.clear();
        self.nary_children.clear();
        self.buffers.clear();
        self.uniforms.clear();
        assert(self@ =~= ArenaModel::empty());
    }

    /// Number of operands held in operand lists.
    pub(crate) fn operand_count(&self) -> (n: usize)
        ensures
            n == self@.nary.len(),
    {
        self.nary_children.len()
    }

    /// Number of nodes in the arena.
    #[inline]
    pub fn len(&self) -> (n: usize)
        ensures
            n == self@.nodes.len(),
    {
        self.nodes.len()
    }

    /// Whether the arena contains no nodes.
    #[inline]
    pub fn is_empty(&self) -> (b: bool)
        ensures
            b <==> self@.nodes.len() == 0,
    {
        self.nodes.len() == 0
    }

    /// Appends `node`; its id is its position.
    fn push_node(&mut self, node: ExprNode) -> (id: ExprId)
        requires
            old(self)@.has_room(),
        ensures
            id.0 == old(self)@.nodes.len(),
            final(self)@ == (ArenaModel { nodes: old(self)@.nodes.push(node), ..old(self)@ }),
            old(self)@.wf() && old(self)@.node_ok(id.0 as int, node) ==> final(self)@.wf(),
            model::operands(final(self)@.nodes) == model::operands(old(self)@.nodes) + nary_len(
                node,
            ),
    {
        let id = ExprId(self.nodes.len() as u32);
        self.nodes.push(node);
        proof {
            lemma_operands_push(old(self)@.nodes, node);
            if old(self)@.wf() && old(self)@.node_ok(id.0 as int, node) {
                assert forall|i: int| 0 <= i < self@.nodes.len() implies self@.node_ok(
                    i,
                    #[trigger] self@.nodes[i],
                ) by {
                    assert(self@.kids_of(self@.nodes[i]) == old(self)@.kids_of(self@.nodes[i]));
                    if i < old(self)@.nodes.len() {
                        assert(old(self)@.node_ok(i, old(self)@.nodes[i]));
                    }
                }
            }
        }
        id
    }

    /// Push a `Var(i)` node.
    pub fn push_var(&mut self, i: u8) -> (id: ExprId)
        requires
            old(self)@.has_room(),
        ensures
            id.0 == old(self)@.nodes.len(),
            final(self)@ == (ArenaModel {
                nodes: old(self)@.nodes.push(ExprNode::Var(i)),
                ..old(self)@
            }),
            old(self)@.wf() ==> final(self)@.wf(),
            old(self)@.compact() ==> final(self)@.compact(),
    {
        self.push_node(ExprNode::Var(i))
    }

    /// Push a `Const` node holding the bits `v`.
    pub fn push_const(&mut self, v: u32) -> (id: ExprId)
        requires
            old(self)@.has_room(),
        ensures
            id.0 == old(self)@.nodes.len(),
            final(self)@ == (ArenaModel {
                nodes: old(self)@.nodes.push(ExprNode::Const(v)),
                ..old(self)@
            }),
            old(self)@.wf() ==> final(self)@.wf(),
            old(self)@.compact() ==> final(self)@.compact(),
    {
        self.push_node(ExprNode::Const(v))
    }

    /// Push a `Param(i)` node.
    pub fn push_param(&mut self, i: u8) -> (id: ExprId)
        requires
            old(self)@.has_room(),
        ensures
            id.0 == old(self)@.nodes.len(),
            final(self)@ == (ArenaModel {
                nodes: old(self)@.nodes.push(ExprNode::Param(i)),
                ..old(self)@
            }),
            old(self)@.wf() ==> final(self)@.wf(),
            old(self)@.compact() ==> final(self)@.compact(),
    {
        self.push_node(ExprNode::Param(i))
    }

    /// Declare a buffer slot.
    pub fn declare_buffer(&mut self, decl: BufferDecl) -> (id: BufferId)
        requires
            old(self)@.buffers.len() < u16::MAX,
        ensures
            id.0 == old(self)@.buffers.len(),
            final(self)@ == (ArenaModel { buffers: old(self)@.buffers.push(decl), ..old(self)@ }),
            old(self)@.wf() ==> final(self)@.wf(),
            old(self)@.compact() ==> final(self)@.compact(),
    {
        let id = BufferId(self.buffers.len() as u16);
        self.buffers.push(decl);
        proof {
            lemma_more_declarations(old(self)@, self@);
        }
        id
    }

    /// Push a `Buffer(id)` leaf node.
    pub fn push_buffer(&mut self, id: BufferId) -> (r: ExprId)
        requires
            old(self)@.has_room(),
            id.0 < old(self)@.buffers.len(),
        ensures
            r.0 == old(self)@.nodes.len(),
            final(self)@ == (ArenaModel {
                nodes: old(self)@.nodes.push(ExprNode::Buffer(id)),
                ..old(self)@
            }),
            old(self)@.wf() ==> final(self)@.wf(),
            old(self)@.compact() ==> final(self)@.compact(),
    {
        self.push_node(ExprNode::Buffer(id))
    }

    /// Declare a uniform slot.
    pub fn declare_uniform(&mut self, decl: UniformDecl) -> (id: UniformId)
        requires
            old(self)@.uniforms.len() < u16::MAX,
        ensures
            id.0 == old(self)@.uniforms.len(),
            final(self)@ == (ArenaModel { uniforms: old(self)@.uniforms.push(decl), ..old(self)@ }),
            old(self)@.wf() ==> final(self)@.wf(),
            old(self)@.compact() ==> final(self)@.compact(),
    {
        let id = UniformId(self.uniforms.len() as u16);
        self.uniforms.push(decl);
        proof {
            lemma_more_declarations(old(self)@, self@);
        }
        id
    }

    /// Push a `Uniform(id)` leaf node.
    pub fn push_uniform(&mut self, id: UniformId) -> (r: ExprId)
        requires
            old(self)@.has_room(),
            id.0 < old(self)@.uniforms.len(),
        ensures
            r.0 == old(self)@.nodes.len(),
            final(self)@ == (ArenaModel {
                nodes: old(self)@.nodes.push(ExprNode::Uniform(id)),
                ..old(self)@
            }),
            old(self)@.wf() ==> final(self)@.wf(),
            old(self)@.compact() ==> final(self)@.compact(),
    {
        self.push_node(ExprNode::Uniform(id))
    }

    /// Push a `Ref(key)` leaf: a kernel named by content.
    pub fn push_ref(&mut self, key: KernelKey) -> (id: ExprId)
        requires
            old(self)@.has_room(),
        ensures
            id.0 == old(self)@.nodes.len(),
            final(self)@ == (ArenaModel {
                nodes: old(self)@.nodes.push(ExprNode::Ref(key)),
                ..old(self)@
            }),
            old(self)@.wf() ==> final(self)@.wf(),
            old(self)@.compact() ==> final(self)@.compact(),
    {
        self.push_node(ExprNode::Ref(key))
    }

    /// The declaration of a uniform slot.
    #[inline]
    pub fn uniform_decl(&self, id: UniformId) -> (d: &UniformDecl)
        requires
            id.0 < self@.uniforms.len(),
        ensures
            *d == self@.uniforms[id.0 as int],
    {
        &self.uniforms[id.0 as usize]
    }

    /// All declared uniforms, indexed by [`UniformId`].
    #[inline]
    pub fn uniforms(&self) -> (s: &[UniformDecl])
        ensures
            s@ == self@.uniforms,
    {
        self.uniforms.as_slice()
    }

    /// Push a `Gather(buffer, x, y)` read of a declared buffer.
    pub fn push_gather(&mut self, buffer: BufferId, x: ExprId, y: ExprId) -> (id: ExprId)
        requires
            old(self)@.nodes.len() < u32::MAX,
            buffer.0 < old(self)@.buffers.len(),
        ensures
            id.0 == old(self)@.nodes.len() + 1,
            final(self)@ == (ArenaModel {
                nodes: old(self)@.nodes.push(ExprNode::Buffer(buffer)).push(
                    ExprNode::Ternary(
                        OpKind::Gather,
                        ExprId(old(self)@.nodes.len() as u32),
                        x,
                        y,
                    ),
                ),
                ..old(self)@
            }),
            old(self)@.wf() && old(self)@.has(x) && old(self)@.has(y) ==> final(self)@.wf(),
            old(self)@.compact() ==> final(self)@.compact(),
    {
        let buf = self.push_buffer(buffer);
        self.push_ternary(OpKind::Gather, buf, x, y)
    }

    /// Push the bounded fold `⊕_{k ∈ fold.range()} body[fold.binder() := k]`.
    pub fn push_reduce(&mut self, fold: Fold, body: ExprId) -> (id: ExprId)
        requires
            old(self)@.has_room(),
        ensures
            id.0 == old(self)@.nodes.len(),
            final(self)@ == (ArenaModel {
                nodes: old(self)@.nodes.push(ExprNode::Reduce { fold, body }),
                ..old(self)@
            }),
            old(self)@.wf() && old(self)@.has(body) ==> final(self)@.wf(),
            old(self)@.compact() ==> final(self)@.compact(),
    {
        self.push_node(ExprNode::Reduce { fold, body })
    }

    /// The declaration of a buffer slot.
    #[inline]
    pub fn buffer_decl(&self, id: BufferId) -> (d: &BufferDecl)
        requires
            id.0 < self@.buffers.len(),
        ensures
            *d == self@.buffers[id.0 as int],
    {
        &self.buffers[id.0 as usize]
    }

    /// All declared buffers, indexed by [`BufferId`].
    #[inline]
    pub fn buffers(&self) -> (s: &[BufferDecl])
        ensures
            s@ == self@.buffers,
    {
        self.buffers.as_slice()
    }

    /// Push a unary operation node.
    pub fn push_unary(&mut self, op: OpKind, child: ExprId) -> (id: ExprId)
        requires
            old(self)@.has_room(),
        ensures
            id.0 == old(self)@.nodes.len(),
            final(self)@ == (ArenaModel {
                nodes: old(self)@.nodes.push(ExprNode::Unary(op, child)),
                ..old(self)@
            }),
            old(self)@.wf() && old(self)@.has(child) ==> final(self)@.wf(),
            old(self)@.compact() ==> final(self)@.compact(),
    {
        self.push_node(ExprNode::Unary(op, child))
    }

    /// Push a binary operation node.
    pub fn push_binary(&mut self, op: OpKind, a: ExprId, b: ExprId) -> (id: ExprId)
        requires
            old(self)@.has_room(),
        ensures
            id.0 == old(self)@.nodes.len(),
            final(self)@ == (ArenaModel {
                nodes: old(self)@.nodes.push(ExprNode::Binary(op, a, b)),
                ..old(self)@
            }),
            old(self)@.wf() && old(self)@.has(a) && old(self)@.has(b) ==> final(self)@.wf(),
            old(self)@.compact() ==> final(self)@.compact(),
    {
        self.push_node(ExprNode::Binary(op, a, b))
    }

    /// Push a ternary operation node.
    pub fn push_ternary(&mut self, op: OpKind, a: ExprId, b: ExprId, c: ExprId) -> (id: ExprId)
        requires
            old(self)@.has_room(),
        ensures
            id.0 == old(self)@.nodes.len(),
            final(self)@ == (ArenaModel {
                nodes: old(self)@.nodes.push(ExprNode::Ternary(op, a, b, c)),
                ..old(self)@
            }),
            old(self)@.wf() && old(self)@.has(a) && old(self)@.has(b) && old(self)@.has(c)
                ==> final(self)@.wf(),
            old(self)@.compact() ==> final(self)@.compact(),
    {
        self.push_node(ExprNode::Ternary(op, a, b, c))
    }

    /// Push an N-ary operation node. Operands are copied into the operand
    /// table.
    pub fn push_nary(&mut self, op: OpKind, children: &[ExprId]) -> (id: ExprId)
        requires
            old(self)@.has_room(),
            old(self)@.nary.len() <= u32::MAX,
            children@.len() <= u16::MAX,
        ensures
            id.0 == old(self)@.nodes.len(),
            final(self)@ == (ArenaModel {
                nodes: old(self)@.nodes.push(
                    ExprNode::Nary(op, old(self)@.nary.len() as u32, children@.len() as u16),
                ),
                nary: old(self)@.nary + children@,
                ..old(self)@
            }),
            old(self)@.wf() && (forall|j: int|
                0 <= j < children@.len() ==> old(self)@.has(#[trigger] children@[j]))
                ==> final(self)@.wf(),
            old(self)@.compact() ==> final(self)@.compact(),
    {
        let start: u32 = self.nary_children.len() as u32;
        let len: u16 = children.len() as u16;
        let mut i: usize = 0;
        while i < children.len()
            invariant
                i <= children@.len(),
                self.nodes@ == old(self).nodes@,
                self.buffers@ == old(self).buffers@,
                self.uniforms@ == old(self).uniforms@,
                self.nary_children@ =~= old(self).nary_children@ + children@.take(i as int),
            decreases children@.len() - i,
        {
            self.nary_children.push(children[i]);
            i += 1;
        }
        assert(children@.take(i as int) =~= children@);
        let ghost mid = self@;
        proof {
            if old(self)@.wf() && (forall|j: int|
                0 <= j < children@.len() ==> old(self)@.has(#[trigger] children@[j])) {
                lemma_more_operands(old(self)@, mid);
                let n = ExprNode::Nary(op, start, len);
                assert(mid.kids_of(n) =~= children@);
                assert(mid.node_ok(old(self)@.nodes.len() as int, n));
            }
        }
        self.push_node(ExprNode::Nary(op, start, len))
    }

    /// The nodes in construction order: children before parents.
    #[inline]
    pub fn nodes(&self) -> (s: &[ExprNode])
        ensures
            s@ == self@.nodes,
    {
        self.nodes.as_slice()
    }

    /// Reconstruct an arena from raw parts, with empty declaration tables.
    pub fn from_raw(nodes: Vec<ExprNode>, nary_children: Vec<ExprId>) -> (a: Self)
        ensures
            a@ == (ArenaModel {
                nodes: nodes@,
                nary: nary_children@,
                buffers: Seq::empty(),
                uniforms: Seq::empty(),
            }),
    {
        ExprArena { nodes, nary_children, buffers: Vec::new(), uniforms: Vec::new() }
    }

    /// The node at `id`.
    #[inline]
    pub fn node(&self, id: ExprId) -> (n: &ExprNode)
        requires
            self@.has(id),
        ensures
            *n == self@.nodes[id.0 as int],
    {
        &self.nodes[id.0 as usize]
    }

    /// The operand slice of a `Nary(_, start, len)` node.
    #[inline]
    pub fn nary_children_slice(&self, start: u32, len: u16) -> (s: &[ExprId])
        requires
            start + len <= self@.nary.len(),
        ensures
            s@ == self@.nary.subrange(start as int, start + len),
    {
        let s: usize = start as usize;
        let l: usize = len as usize;
        let all = self.nary_children.as_slice();
        assert(all@.len() == all.len());
        slice_subrange(all, s, s + l)
    }

    /// The [`OpKind`] of the node at `id`. A `Ref` is a name, not an
    /// operation, and has none.
    #[inline]
    pub fn kind(&self, id: ExprId) -> (k: OpKind)
        requires
            self@.has(id),
            self@.nodes[id.0 as int] !is Ref,
        ensures
            k == kind_of(self@.nodes[id.0 as int]),
    {
        match self.nodes[id.0 as usize] {
            ExprNode::Var(_) => OpKind::Var,
            ExprNode::Const(_) => OpKind::Const,
            ExprNode::Param(_) => OpKind::Const,
            ExprNode::Buffer(_) => OpKind::Buffer,
            ExprNode::Uniform(_) => OpKind::Uniform,
            ExprNode::Ref(_) => OpKind::Const,
            ExprNode::Unary(op, _) => op,
            ExprNode::Binary(op, _, _) => op,
            ExprNode::Ternary(op, _, _, _) => op,
            ExprNode::Nary(op, _, _) => op,
            ExprNode::Reduce { fold: _, body: _ } => OpKind::Reduce,
        }
    }

    /// The operands of the node at `id`.
    #[inline]
    pub fn children(&self, id: ExprId) -> (c: ExprChildren<'_>)
        requires
            self@.has(id),
            self@.range_ok(self@.nodes[id.0 as int]),
        ensures
            c@ == self@.kids(id.0 as int),
    {
        match self.nodes[id.0 as usize] {
            ExprNode::Unary(_, a) => ExprChildren::One(a),
            ExprNode::Binary(_, a, b) => ExprChildren::Two(a, b),
            ExprNode::Ternary(_, a, b, c) => ExprChildren::Three(a, b, c),
            ExprNode::Nary(_, start, len) => {
                ExprChildren::Nary(self.nary_children_slice(start, len))
            },
            ExprNode::Reduce { fold: _, body } => ExprChildren::One(body),
            _ => ExprChildren::Zero,
        }
    }
}

/// The operation a node is reported as: constants and parameters are both
/// `Const`, a fold is `Reduce`.
pub open spec fn kind_of(n: ExprNode) -> OpKind
    recommends
        n !is Ref,
{
    match n {
        ExprNode::Var(_) => OpKind::Var,
        ExprNode::Const(_) => OpKind::Const,
        ExprNode::Param(_) => OpKind::Const,
        ExprNode::Buffer(_) => OpKind::Buffer,
        ExprNode::Uniform(_) => OpKind::Uniform,
        ExprNode::Ref(_) => OpKind::Const,
        ExprNode::Unary(op, _) => op,
        ExprNode::Binary(op, _, _) => op,
        ExprNode::Ternary(op, _, _, _) => op,
        ExprNode::Nary(op, _, _) => op,
        ExprNode::Reduce { fold: _, body: _ } => OpKind::Reduce,
    }
}

/// Longer declaration tables keep an arena well-formed.
proof fn lemma_more_declarations(a: ArenaModel, b: ArenaModel)
    requires
        a.nodes == b.nodes,
        a.nary == b.nary,
        a.buffers.len() <= b.buffers.len(),
        a.uniforms.len() <= b.uniforms.len(),
    ensures
        a.wf() ==> b.wf(),
{
    if a.wf() {
        assert forall|i: int| 0 <= i < b.nodes.len() implies b.node_ok(
            i,
            #[trigger] b.nodes[i],
        ) by {
            assert(a.node_ok(i, a.nodes[i]));
            assert(a.kids_of(a.nodes[i]) == b.kids_of(b.nodes[i]));
        }
    }
}

/// A longer operand table keeps an arena well-formed.
proof fn lemma_more_operands(a: ArenaModel, b: ArenaModel)
    requires
        a.wf(),
        a.nodes == b.nodes,
        a.buffers == b.buffers,
        a.uniforms == b.uniforms,
        a.nary.is_prefix_of(b.nary),
    ensures
        b.wf(),
{
    assert forall|i: int| 0 <= i < b.nodes.len() implies b.node_ok(i, #[trigger] b.nodes[i]) by {
        assert(a.node_ok(i, a.nodes[i]));
        assert(a.kids_of(a.nodes[i]) =~= b.kids_of(b.nodes[i]));
    }
}

} // verus!
