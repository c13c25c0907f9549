//! Where values live, and what an operation on them needs.

use crate::backend::emit::regalloc::ValueId;
use crate::backend::emit::schedule::ScheduledOp;
use crate::backend::emit::Reg;
use crate::kind::OpKind;
use std::collections::BTreeMap;
use vstd::prelude::*;

pub mod meaning;

verus! {

broadcast use vstd::std_specs::btree::group_btree_axioms;

/// Location of a value: in a register or spilled to the stack.
#[derive(Copy, Clone, Debug, PartialEq, Eq, Structural)]
pub enum Loc {
    /// In a register.
    Reg(Reg),
    /// On the stack, at this offset.
    Spill(u32),
}

impl Loc {
    /// The register of a value that has one.
    pub fn reg(self) -> (r: Reg)
        requires
            self is Reg,
        ensures
            self == Loc::Reg(r),
    {
        match self {
            Loc::Reg(r) => r,
            Loc::Spill(_) => Reg(0),
        }
    }
}

/// Stack frame layout: where each spilled value goes, and the size of it all.
#[derive(Clone, Debug, PartialEq, Eq)]
pub struct FrameLayout {
    /// Stack offset of each spilled value, by value number.
    pub spill_slots: BTreeMap<u32, u32>,
    /// Total frame size, a multiple of 16.
    pub frame_size: u32,
}

/// The most 16-byte slots a frame of two megabytes holds.
pub const MAX_SLOTS: u32 = 0x2_0000;

/// Offsets of the first `k` spilled values, 16 bytes apart in order.
pub open spec fn slots_below(spilled: Seq<ValueId>, k: int) -> Map<u32, u32>
    decreases k,
{
    if k <= 0 {
        Map::empty()
    } else {
        slots_below(spilled, k - 1).insert(spilled[k - 1].0, (16 * (k - 1)) as u32)
    }
}

/// Offsets of the spilled values.
pub open spec fn slots_of(spilled: Seq<ValueId>) -> Map<u32, u32> {
    slots_below(spilled, spilled.len() as int)
}

proof fn lemma_slots(spilled: Seq<ValueId>, k: int)
    requires
        0 <= k <= spilled.len(),
    ensures
        forall|v: u32| #[trigger]
            slots_below(spilled, k).contains_key(v) <==> exists|i: int|
                0 <= i < k && #[trigger] spilled[i].0 == v,
        slots_below(spilled, k).dom().finite(),
        slots_below(spilled, k).len() <= k,
        spilled.no_duplicates() ==> slots_below(spilled, k).len() == k,
        spilled.no_duplicates() ==> forall|i: int|
            0 <= i < k ==> slots_below(spilled, k)[(#[trigger] spilled[i]).0] == (16 * i) as u32,
        forall|v: u32| #[trigger]
            slots_below(spilled, k).contains_key(v) ==> exists|i: int|
                0 <= i < k && slots_below(spilled, k)[v] == (16 * i) as u32 && #[trigger] spilled[i].0
                    == v,
    decreases k,
{
    if k > 0 {
        lemma_slots(spilled, k - 1);
        let was = slots_below(spilled, k - 1);
        let now = slots_below(spilled, k);
        assert(now == was.insert(spilled[k - 1].0, (16 * (k - 1)) as u32));
        assert forall|v: u32| #[trigger] now.contains_key(v) implies exists|i: int|
            0 <= i < k && now[v] == (16 * i) as u32 && #[trigger] spilled[i].0 == v by {
            if v == spilled[k - 1].0 {
                assert(spilled[k - 1].0 == v);
            } else {
                assert(was.contains_key(v));
                let i = choose|i: int|
                    0 <= i < k - 1 && was[v] == (16 * i) as u32 && #[trigger] spilled[i].0 == v;
                assert(spilled[i].0 == v);
            }
        }
        assert forall|v: u32|
            (exists|i: int| 0 <= i < k && #[trigger] spilled[i].0 == v) implies #[trigger] now.contains_key(
            v,
        ) by {
            let i = choose|i: int| 0 <= i < k && #[trigger] spilled[i].0 == v;
            if i < k - 1 {
                assert(spilled[i].0 == v);
                assert(was.contains_key(v));
            }
        }
        if spilled.no_duplicates() {
            assert(!was.contains_key(spilled[k - 1].0)) by {
                if was.contains_key(spilled[k - 1].0) {
                    let i = choose|i: int|
                        0 <= i < k - 1 && #[trigger] spilled[i].0 == spilled[k - 1].0;
                    assert(spilled[i] == spilled[k - 1]);
                }
            }
            assert forall|i: int| 0 <= i < k implies now[(#[trigger] spilled[i]).0] == (16
                * i) as u32 by {
                if i < k - 1 {
                    assert(spilled[i] != spilled[k - 1]);
                }
            }
        }
    }
}

/// The slots of distinct values lie in the frame, start at multiples of 16 and
/// do not overlap, and every spilled value has one.
pub proof fn frame_slots_are_apart(spilled: Seq<ValueId>)
    requires
        spilled.no_duplicates(),
        spilled.len() <= MAX_SLOTS,
    ensures
        slots_of(spilled).len() == spilled.len(),
        forall|i: int|
            0 <= i < spilled.len() ==> {
                let v = (#[trigger] spilled[i]).0;
                &&& slots_of(spilled).contains_key(v)
                &&& slots_of(spilled)[v] % 16 == 0
                &&& slots_of(spilled)[v] + 16 <= 16 * spilled.len()
            },
        forall|i: int, j: int|
            0 <= i < j < spilled.len() ==> slots_of(spilled)[(#[trigger] spilled[i]).0] + 16
                <= slots_of(spilled)[(#[trigger] spilled[j]).0],
{
    lemma_slots(spilled, spilled.len() as int);
}

/// Every offset of a frame is a slot of it.
pub proof fn lemma_slot_bound(spilled: Seq<ValueId>, v: u32)
    requires
        spilled.len() <= MAX_SLOTS,
        slots_of(spilled).contains_key(v),
    ensures
        slots_of(spilled)[v] % 16 == 0,
        slots_of(spilled)[v] <= 16 * (spilled.len() - 1),
        exists|i: int| 0 <= i < spilled.len() && #[trigger] spilled[i].0 == v,
{
    lemma_slots(spilled, spilled.len() as int);
}

/// A frame has no more slots than spilled values, and one for each.
pub proof fn lemma_slot_count(spilled: Seq<ValueId>)
    ensures
        slots_of(spilled).len() <= spilled.len(),
        slots_of(spilled).dom().finite(),
        forall|v: ValueId| #[trigger]
            spilled.contains(v) ==> slots_of(spilled).contains_key(v.0),
{
    lemma_slots(spilled, spilled.len() as int);
    assert forall|v: ValueId| #[trigger] spilled.contains(v) implies slots_of(spilled).contains_key(
        v.0,
    ) by {
        let i = choose|i: int| 0 <= i < spilled.len() && spilled[i] == v;
        assert(spilled[i].0 == v.0);
    }
}

impl FrameLayout {
    /// Lay out a frame for the spilled values, in order.
    pub fn from_allocation(spilled: &[ValueId]) -> (r: Result<FrameLayout, &'static str>)
        ensures
            r is Ok <==> spilled@.len() <= MAX_SLOTS,
            match r {
                Ok(layout) => layout.spill_slots@ == slots_of(spilled@) && layout.frame_size == 16
                    * spilled@.len(),
                Err(e) => e == "spill frame overflow: exceeds 2MB stack limit",
            },
    {
        let mut spill_slots: BTreeMap<u32, u32> = BTreeMap::new();
        let mut offset: u32 = 0;
        let mut i: usize = 0;
        assert(spill_slots@ =~= slots_below(spilled@, 0));
        while i < spilled.len()
            invariant
                i <= spilled@.len(),
                i <= MAX_SLOTS,
                offset == 16 * i,
                spill_slots@ == slots_below(spilled@, i as int),
            decreases spilled@.len() - i,
        {
            if offset > 0x20_0000 - 16 {
                return Err("spill frame overflow: exceeds 2MB stack limit");
            }
            spill_slots.insert(spilled[i].0, offset);
            offset += 16;
            i += 1;
        }
        Ok(FrameLayout { spill_slots, frame_size: (offset + 15) / 16 * 16 })
    }
}

/// A concrete instruction with all registers resolved.
#[derive(Copy, Clone, Debug, PartialEq, Eq)]
pub enum ResolvedOp {
    /// Nothing to do: the variable is in its input register.
    Nop,
    /// Load a constant.
    LoadConst { dst: Reg, val_bits: u32 },
    /// `dst = op(src)`.
    Unary { op: OpKind, dst: Reg, src: Reg },
    /// Shift of integer lanes by an immediate.
    ShiftImm { op: OpKind, dst: Reg, src: Reg, amount: u8 },
    /// `dst = op(left, right)`.
    Binary { op: OpKind, dst: Reg, left: Reg, right: Reg },
    /// `dst = dst + a * b`; the addend is in `dst` already.
    FusedMulAdd { dst: Reg, a: Reg, b: Reg },
    /// `dst = a * b`, then the addend is reloaded if need be, then `dst += c`.
    DecomposedMulAdd { dst: Reg, a: Reg, b: Reg, c: Reg, c_deferred: Option<DeferredReload> },
    /// `dst = dst ? if_true : if_false`; the mask is in `dst` already.
    Select { dst: Reg, if_true: Reg, if_false: Reg },
    /// `dst = min(val, hi)`, then `lo` is reloaded if need be, then
    /// `dst = max(dst, lo)`.
    Clamp { dst: Reg, val: Reg, lo: Reg, hi: Reg, lo_deferred: Option<DeferredReload> },
}

/// A value loaded in the middle of an instruction.
#[derive(Copy, Clone, Debug, PartialEq, Eq, Structural)]
pub enum DeferredReload {
    /// From the stack.
    FromStack(u32),
    /// A constant, built again.
    Const(u32),
}

/// A value loaded before an instruction.
#[derive(Copy, Clone, Debug, PartialEq, Eq, Structural)]
pub enum Reload {
    /// From the stack.
    FromStack { target: Reg, offset: u32 },
    /// A constant, built again.
    Const { target: Reg, val_bits: u32 },
}

/// A result stored to the stack.
#[derive(Copy, Clone, Debug, PartialEq, Eq, Structural)]
pub struct Store {
    /// Register to store.
    pub src: Reg,
    /// Stack offset to store it at.
    pub offset: u32,
}

/// An instruction with the loads before it and the store after it.
#[derive(Clone, Debug)]
pub struct InstructionPlan {
    /// Loads before the main operation.
    pub reloads: Vec<Reload>,
    /// The main operation.
    pub op: ResolvedOp,
    /// Copy that sets up an accumulator or mask, after the loads.
    pub setup_mov: Option<(Reg, Reg)>,
    /// Store after the main operation, if the destination is spilled.
    pub store: Option<Store>,
}

/// Model of [`InstructionPlan`].
#[verifier::ext_equal]
pub struct Plan {
    /// Loads before the main operation.
    pub reloads: Seq<Reload>,
    /// The main operation.
    pub op: ResolvedOp,
    /// Copy from the second register to the first.
    pub setup_mov: Option<(Reg, Reg)>,
    /// Store after the main operation.
    pub store: Option<Store>,
}

impl View for InstructionPlan {
    type V = Plan;

    open spec fn view(&self) -> Plan {
        Plan {
            reloads: self.reloads@,
            op: self.op,
            setup_mov: self.setup_mov,
            store: self.store,
        }
    }
}

/// Emission context: register budget and spill bookkeeping.
#[derive(Clone, Debug)]
pub struct EmitCtx {
    /// Most scratch registers used before spilling.
    pub max_regs: u8,
    /// Current spill offset.
    pub spill_offset: u32,
    /// Number of spills so far.
    pub spill_count: u32,
}

impl Default for EmitCtx {
    fn default() -> (ctx: EmitCtx)
        ensures
            ctx.max_regs == 22,
            ctx.spill_offset == 0,
            ctx.spill_count == 0,
    {
        EmitCtx { max_regs: 22, spill_offset: 0, spill_count: 0 }
    }
}

impl EmitCtx {
    /// A context with a register budget of its own.
    pub fn with_max_regs(max_regs: u8) -> (ctx: EmitCtx)
        ensures
            ctx.max_regs == max_regs,
            ctx.spill_offset == 0,
            ctx.spill_count == 0,
    {
        EmitCtx { max_regs, spill_offset: 0, spill_count: 0 }
    }

    /// Allocate a spill slot of 16 bytes and return its offset.
    pub fn alloc_spill(&mut self) -> (offset: u32)
        requires
            old(self).spill_offset + 16 <= u32::MAX,
            old(self).spill_count < u32::MAX,
        ensures
            offset == old(self).spill_offset,
            final(self).spill_offset == old(self).spill_offset + 16,
            final(self).spill_count == old(self).spill_count + 1,
            final(self).max_regs == old(self).max_regs,
    {
        let offset: u32 = self.spill_offset;
        self.spill_offset += 16;
        self.spill_count += 1;
        offset
    }
}

/// Where values live: registers, stack slots and constants, by value number.
#[verifier::ext_equal]
pub struct Places {
    /// Values in registers.
    pub regs: Map<u32, Reg>,
    /// Values on the stack.
    pub slots: Map<u32, u32>,
    /// Values built again at each use.
    pub consts: Map<u32, u32>,
}

impl Places {
    /// Value `v` lives somewhere.
    pub open spec fn holds(self, v: ValueId) -> bool {
        self.regs.contains_key(v.0) || self.slots.contains_key(v.0) || self.consts.contains_key(v.0)
    }

    /// Every operand of an operation lives somewhere.
    pub open spec fn hold_operands(self, op: ScheduledOp) -> bool {
        forall|v: ValueId| #[trigger] op.reads(v) ==> self.holds(v)
    }

    /// The register a value is read from, loaded into `target` if it has none.
    pub open spec fn source(self, v: ValueId, target: Reg) -> Reg {
        if self.regs.contains_key(v.0) {
            self.regs[v.0]
        } else {
            target
        }
    }

    /// The load a value needs before it is read.
    pub open spec fn load(self, v: ValueId, target: Reg) -> Seq<Reload> {
        if self.regs.contains_key(v.0) {
            Seq::empty()
        } else if self.consts.contains_key(v.0) {
            seq![Reload::Const { target, val_bits: self.consts[v.0] }]
        } else {
            seq![Reload::FromStack { target, offset: self.slots[v.0] }]
        }
    }

    /// The load of a value that is read in the middle of an instruction.
    pub open spec fn late_load(self, v: ValueId) -> Option<DeferredReload> {
        if self.regs.contains_key(v.0) {
            None
        } else if self.consts.contains_key(v.0) {
            Some(DeferredReload::Const(self.consts[v.0]))
        } else {
            Some(DeferredReload::FromStack(self.slots[v.0]))
        }
    }

    /// Where a result goes. A constant that is built at each use goes to the
    /// first reload register.
    pub open spec fn destination(self, v: ValueId, spare: Reg) -> Loc {
        if self.regs.contains_key(v.0) {
            Loc::Reg(self.regs[v.0])
        } else if self.slots.contains_key(v.0) {
            Loc::Spill(self.slots[v.0])
        } else {
            Loc::Reg(spare)
        }
    }
}

/// The register a result is computed in.
pub open spec fn dst_reg(loc: Loc, spare: Reg) -> Reg {
    match loc {
        Loc::Reg(r) => r,
        Loc::Spill(_) => spare,
    }
}

/// The copy that brings `src` to `dst`, if they differ.
pub open spec fn copy_to(dst: Reg, src: Reg) -> Option<(Reg, Reg)> {
    if dst.0 != src.0 {
        Some((dst, src))
    } else {
        None
    }
}

/// The plan of a scheduled operation. A result that is spilled is computed in
/// `reload[0]`; operands are loaded into `reload[1]`, and into the destination
/// where two have to be loaded at once.
pub open spec fn plan_of(op: ScheduledOp, loc: Loc, at: Places, reload: [Reg; 2]) -> Result<
    Plan,
    &'static str,
> {
    let dst = dst_reg(loc, reload[0]);
    let tmp = reload[1];
    let none: Option<(Reg, Reg)> = None;
    let store = match loc {
        Loc::Reg(_) => None,
        Loc::Spill(offset) => Some(Store { src: dst, offset }),
    };
    match op {
        ScheduledOp::Var(_) => Ok(
            Plan { reloads: Seq::empty(), op: ResolvedOp::Nop, setup_mov: none, store },
        ),
        ScheduledOp::Const(bits) => Ok(
            Plan {
                reloads: Seq::empty(),
                op: ResolvedOp::LoadConst { dst, val_bits: bits },
                setup_mov: none,
                store,
            },
        ),
        ScheduledOp::Unary(kind, a) => Ok(
            Plan {
                reloads: at.load(a, tmp),
                op: ResolvedOp::Unary { op: kind, dst, src: at.source(a, tmp) },
                setup_mov: none,
                store,
            },
        ),
        ScheduledOp::ShiftImm(kind, a, amount) => Ok(
            Plan {
                reloads: at.load(a, tmp),
                op: ResolvedOp::ShiftImm { op: kind, dst, src: at.source(a, tmp), amount },
                setup_mov: none,
                store,
            },
        ),
        ScheduledOp::Binary(kind, a, b) => {
            let first = first_target(at, a, b, dst, tmp);
            Ok(
                Plan {
                    reloads: at.load(a, first) + at.load(b, tmp),
                    op: ResolvedOp::Binary {
                        op: kind,
                        dst,
                        left: at.source(a, first),
                        right: at.source(b, tmp),
                    },
                    setup_mov: none,
                    store,
                },
            )
        },
        ScheduledOp::Ternary(OpKind::MulAdd, a, b, c) => if !at.regs.contains_key(a.0)
            && !at.regs.contains_key(b.0) {
            Ok(
                Plan {
                    reloads: at.load(a, dst) + at.load(b, tmp),
                    op: ResolvedOp::DecomposedMulAdd {
                        dst,
                        a: dst,
                        b: tmp,
                        c: at.source(c, tmp),
                        c_deferred: at.late_load(c),
                    },
                    setup_mov: none,
                    store,
                },
            )
        } else {
            Ok(
                Plan {
                    reloads: at.load(c, dst) + at.load(a, tmp) + at.load(b, tmp),
                    op: ResolvedOp::FusedMulAdd { dst, a: at.source(a, tmp), b: at.source(b, tmp) },
                    setup_mov: copy_to(dst, at.source(c, dst)),
                    store,
                },
            )
        },
        ScheduledOp::Ternary(OpKind::Select, a, b, c) => if !at.regs.contains_key(b.0)
            && !at.regs.contains_key(c.0) {
            Err("Select with both if_true and if_false spilled not supported")
        } else {
            Ok(
                Plan {
                    reloads: at.load(a, dst) + at.load(b, tmp) + at.load(c, tmp),
                    op: ResolvedOp::Select {
                        dst,
                        if_true: at.source(b, tmp),
                        if_false: at.source(c, tmp),
                    },
                    setup_mov: copy_to(dst, at.source(a, dst)),
                    store,
                },
            )
        },
        ScheduledOp::Ternary(OpKind::Clamp, a, b, c) => {
            let first = first_target(at, a, c, dst, tmp);
            Ok(
                Plan {
                    reloads: at.load(a, first) + at.load(c, tmp),
                    op: ResolvedOp::Clamp {
                        dst,
                        val: at.source(a, first),
                        lo: at.source(b, tmp),
                        hi: at.source(c, tmp),
                        lo_deferred: at.late_load(b),
                    },
                    setup_mov: none,
                    store,
                },
            )
        },
        ScheduledOp::Ternary(_, _, _, _) => Err("unsupported ternary op in DAG compilation"),
    }
}

/// Where the first of two operands is loaded, if it is: the destination if
/// both are.
pub open spec fn first_target(at: Places, a: ValueId, b: ValueId, dst: Reg, tmp: Reg) -> Reg {
    if !at.regs.contains_key(a.0) && !at.regs.contains_key(b.0) {
        dst
    } else {
        tmp
    }
}

/// Find the register of a value, or plan its load into `target`.
fn resolve(
    v: ValueId,
    target: Reg,
    assignment: &BTreeMap<u32, Reg>,
    spill_slots: &BTreeMap<u32, u32>,
    rematerialize: &BTreeMap<u32, u32>,
    reloads: &mut Vec<Reload>,
) -> (r: Reg)
    requires
        ({
            let at = Places {
                regs: assignment@,
                slots: spill_slots@,
                consts: rematerialize@,
            };
            at.holds(v)
        }),
    ensures
        ({
            let at = Places {
                regs: assignment@,
                slots: spill_slots@,
                consts: rematerialize@,
            };
            &&& r == at.source(v, target)
            &&& final(reloads)@ == old(reloads)@ + at.load(v, target)
        }),
{
    if let Some(reg) = assignment.get(&v.0) {
        assert(reloads@ =~= old(reloads)@ + Seq::<Reload>::empty());
        *reg
    } else if let Some(bits) = rematerialize.get(&v.0) {
        let val_bits: u32 = *bits;
        reloads.push(Reload::Const { target, val_bits });
        assert(reloads@ =~= old(reloads)@ + seq![Reload::Const { target, val_bits }]);
        target
    } else if let Some(offset) = spill_slots.get(&v.0) {
        let offset: u32 = *offset;
        reloads.push(Reload::FromStack { target, offset });
        assert(reloads@ =~= old(reloads)@ + seq![Reload::FromStack { target, offset }]);
        target
    } else {
        target
    }
}

/// Find the register of a value that is read late, or its late load.
fn resolve_late(
    v: ValueId,
    target: Reg,
    assignment: &BTreeMap<u32, Reg>,
    spill_slots: &BTreeMap<u32, u32>,
    rematerialize: &BTreeMap<u32, u32>,
) -> (r: (Reg, Option<DeferredReload>))
    requires
        ({
            let at = Places {
                regs: assignment@,
                slots: spill_slots@,
                consts: rematerialize@,
            };
            at.holds(v)
        }),
    ensures
        ({
            let at = Places {
                regs: assignment@,
                slots: spill_slots@,
                consts: rematerialize@,
            };
            r == (at.source(v, target), at.late_load(v))
        }),
{
    if let Some(reg) = assignment.get(&v.0) {
        (*reg, None)
    } else if let Some(bits) = rematerialize.get(&v.0) {
        (target, Some(DeferredReload::Const(*bits)))
    } else if let Some(offset) = spill_slots.get(&v.0) {
        (target, Some(DeferredReload::FromStack(*offset)))
    } else {
        (target, None)
    }
}

/// Resolve a scheduled operation into a concrete plan: which registers it uses,
/// what is loaded before it and stored after it. The two reload registers hold
/// a spilled result and spilled operands.
pub fn resolve_operands(
    op: &ScheduledOp,
    dst_loc: Loc,
    assignment: &BTreeMap<u32, Reg>,
    spill_slots: &BTreeMap<u32, u32>,
    rematerialize: &BTreeMap<u32, u32>,
    reload: [Reg; 2],
) -> (r: Result<InstructionPlan, &'static str>)
    requires
        ({
            let at = Places {
                regs: assignment@,
                slots: spill_slots@,
                consts: rematerialize@,
            };
            at.hold_operands(*op)
        }),
    ensures
        ({
            let at = Places {
                regs: assignment@,
                slots: spill_slots@,
                consts: rematerialize@,
            };
            match plan_of(*op, dst_loc, at, reload) {
                Ok(plan) => r matches Ok(p) && p@ == plan,
                Err(e) => r matches Err(f) && f == e,
            }
        }),
{
    let ghost at = Places { regs: assignment@, slots: spill_slots@, consts: rematerialize@ };
    let tmp: Reg = reload[1];
    let dst: Reg = match dst_loc {
        Loc::Reg(r) => r,
        Loc::Spill(_) => reload[0],
    };
    let store: Option<Store> = match dst_loc {
        Loc::Reg(_) => None,
        Loc::Spill(offset) => Some(Store { src: dst, offset }),
    };
    let mut reloads: Vec<Reload> = Vec::new();
    let mut setup_mov: Option<(Reg, Reg)> = None;
    let resolved: ResolvedOp = match *op {
        ScheduledOp::Var(_) => ResolvedOp::Nop,
        ScheduledOp::Const(val_bits) => ResolvedOp::LoadConst { dst, val_bits },
        ScheduledOp::Unary(kind, a) => {
            assert(op.reads(a));
            let src = resolve(a, tmp, assignment, spill_slots, rematerialize, &mut reloads);
            ResolvedOp::Unary { op: kind, dst, src }
        },
        ScheduledOp::ShiftImm(kind, a, amount) => {
            assert(op.reads(a));
            let src = resolve(a, tmp, assignment, spill_slots, rematerialize, &mut reloads);
            ResolvedOp::ShiftImm { op: kind, dst, src, amount }
        },
        ScheduledOp::Binary(kind, a, b) => {
            assert(op.reads(a) && op.reads(b));
            let both: bool = !assignment.contains_key(&a.0) && !assignment.contains_key(&b.0);
            let first: Reg = if both {
                dst
            } else {
                tmp
            };
            let left = resolve(a, first, assignment, spill_slots, rematerialize, &mut reloads);
            let right = resolve(b, tmp, assignment, spill_slots, rematerialize, &mut reloads);
            ResolvedOp::Binary { op: kind, dst, left, right }
        },
        ScheduledOp::Ternary(kind, a, b, c) => {
            assert(op.reads(a) && op.reads(b) && op.reads(c));
            let a_spilled: bool = !assignment.contains_key(&a.0);
            let b_spilled: bool = !assignment.contains_key(&b.0);
            let c_spilled: bool = !assignment.contains_key(&c.0);
            match kind {
                OpKind::MulAdd => {
                    if a_spilled && b_spilled {
                        let a_reg = resolve(
                            a,
                            dst,
                            assignment,
                            spill_slots,
                            rematerialize,
                            &mut reloads,
                        );
                        let b_reg = resolve(
                            b,
                            tmp,
                            assignment,
                            spill_slots,
                            rematerialize,
                            &mut reloads,
                        );
                        let (c_reg, c_deferred) = resolve_late(
                            c,
                            tmp,
                            assignment,
                            spill_slots,
                            rematerialize,
                        );
                        ResolvedOp::DecomposedMulAdd { dst, a: a_reg, b: b_reg, c: c_reg, c_deferred }
                    } else {
                        let c_reg = resolve(
                            c,
                            dst,
                            assignment,
                            spill_slots,
                            rematerialize,
                            &mut reloads,
                        );
                        if dst.0 != c_reg.0 {
                            setup_mov = Some((dst, c_reg));
                        }
                        let a_reg = resolve(
                            a,
                            tmp,
                            assignment,
                            spill_slots,
                            rematerialize,
                            &mut reloads,
                        );
                        let b_reg = resolve(
                            b,
                            tmp,
                            assignment,
                            spill_slots,
                            rematerialize,
                            &mut reloads,
                        );
                        ResolvedOp::FusedMulAdd { dst, a: a_reg, b: b_reg }
                    }
                },
                OpKind::Select => {
                    if b_spilled && c_spilled {
                        return Err("Select with both if_true and if_false spilled not supported");
                    }
                    let a_reg = resolve(a, dst, assignment, spill_slots, rematerialize, &mut reloads);
                    if dst.0 != a_reg.0 {
                        setup_mov = Some((dst, a_reg));
                    }
                    let b_reg = resolve(b, tmp, assignment, spill_slots, rematerialize, &mut reloads);
                    let c_reg = resolve(c, tmp, assignment, spill_slots, rematerialize, &mut reloads);
                    ResolvedOp::Select { dst, if_true: b_reg, if_false: c_reg }
                },
                OpKind::Clamp => {
                    let first: Reg = if a_spilled && c_spilled {
                        dst
                    } else {
                        tmp
                    };
                    let val = resolve(a, first, assignment, spill_slots, rematerialize, &mut reloads);
                    let hi = resolve(c, tmp, assignment, spill_slots, rematerialize, &mut reloads);
                    let (lo, lo_deferred) = resolve_late(
                        b,
                        tmp,
                        assignment,
                        spill_slots,
                        rematerialize,
                    );
                    ResolvedOp::Clamp { dst, val, lo, hi, lo_deferred }
                },
                _ => return Err("unsupported ternary op in DAG compilation"),
            }
        },
    };
    proof {
        let want = plan_of(*op, dst_loc, at, reload);
        assert(want is Ok);
        assert(reloads@ =~= (want->Ok_0).reloads);
    }
    Ok(InstructionPlan { reloads, op: resolved, setup_mov, store })
}

/// Where the result of a value goes, by tables of registers and stack slots.
pub(crate) fn resolve_dst_loc_dense(
    v: ValueId,
    reg_for: &[Option<Reg>],
    spill_for: &[Option<u32>],
    spare: Reg,
) -> (loc: Loc)
    requires
        v.0 < reg_for@.len(),
        v.0 < spill_for@.len(),
    ensures
        loc == (match reg_for@[v.0 as int] {
            Some(r) => Loc::Reg(r),
            None => match spill_for@[v.0 as int] {
                Some(offset) => Loc::Spill(offset),
                None => Loc::Reg(spare),
            },
        }),
{
    if let Some(reg) = reg_for[v.0 as usize] {
        Loc::Reg(reg)
    } else if let Some(offset) = spill_for[v.0 as usize] {
        Loc::Spill(offset)
    } else {
        Loc::Reg(spare)
    }
}

} // verus!
