//! What a plan computes, on a machine of registers and stack slots.

use crate::backend::emit::plan::{
    dst_reg, plan_of, DeferredReload, Loc, Places, Plan, Reload, ResolvedOp,
};
use crate::backend::emit::regalloc::ValueId;
use crate::backend::emit::schedule::ScheduledOp;
use crate::backend::emit::Reg;
use crate::kind::OpKind;
use vstd::prelude::*;

verus! {

/// What the machine operations compute. Nothing is said of the operations
/// themselves: a plan is right whatever they are.
pub struct Algebra {
    /// A constant from its bits.
    pub constant: spec_fn(u32) -> int,
    /// Unary operations.
    pub unary: spec_fn(OpKind, int) -> int,
    /// Shifts by an immediate.
    pub shift: spec_fn(OpKind, int, u8) -> int,
    /// Binary operations.
    pub binary: spec_fn(OpKind, int, int) -> int,
    /// Multiply-add rounded once.
    pub fused: spec_fn(int, int, int) -> int,
    /// Choice by mask.
    pub select: spec_fn(int, int, int) -> int,
}

/// Contents of the registers and of the stack.
pub struct Machine {
    /// Register contents.
    pub regs: Map<Reg, int>,
    /// Stack contents, by offset.
    pub stack: Map<u32, int>,
}

impl Machine {
    /// The machine with a register replaced.
    pub open spec fn with_reg(self, r: Reg, x: int) -> Machine {
        Machine { regs: self.regs.insert(r, x), ..self }
    }
}

impl Algebra {
    /// After a load.
    pub open spec fn reload(self, m: Machine, r: Reload) -> Machine {
        match r {
            Reload::FromStack { target, offset } => m.with_reg(target, m.stack[offset]),
            Reload::Const { target, val_bits } => m.with_reg(target, (self.constant)(val_bits)),
        }
    }

    /// After the loads from the `i`-th on.
    pub open spec fn reloads(self, m: Machine, rs: Seq<Reload>, i: int) -> Machine
        decreases rs.len() - i,
    {
        if i < 0 || i >= rs.len() {
            m
        } else {
            self.reloads(self.reload(m, rs[i]), rs, i + 1)
        }
    }

    /// After a late load.
    pub open spec fn late(self, m: Machine, target: Reg, d: Option<DeferredReload>) -> Machine {
        match d {
            None => m,
            Some(DeferredReload::FromStack(offset)) => m.with_reg(target, m.stack[offset]),
            Some(DeferredReload::Const(bits)) => m.with_reg(target, (self.constant)(bits)),
        }
    }

    /// After an instruction.
    pub open spec fn op(self, m: Machine, op: ResolvedOp) -> Machine {
        match op {
            ResolvedOp::Nop => m,
            ResolvedOp::LoadConst { dst, val_bits } => m.with_reg(dst, (self.constant)(val_bits)),
            ResolvedOp::Unary { op, dst, src } => m.with_reg(dst, (self.unary)(op, m.regs[src])),
            ResolvedOp::ShiftImm { op, dst, src, amount } => m.with_reg(
                dst,
                (self.shift)(op, m.regs[src], amount),
            ),
            ResolvedOp::Binary { op, dst, left, right } => m.with_reg(
                dst,
                (self.binary)(op, m.regs[left], m.regs[right]),
            ),
            ResolvedOp::FusedMulAdd { dst, a, b } => m.with_reg(
                dst,
                (self.fused)(m.regs[a], m.regs[b], m.regs[dst]),
            ),
            ResolvedOp::DecomposedMulAdd { dst, a, b, c, c_deferred } => {
                let m = m.with_reg(dst, (self.binary)(OpKind::Mul, m.regs[a], m.regs[b]));
                let m = self.late(m, c, c_deferred);
                m.with_reg(dst, (self.binary)(OpKind::Add, m.regs[dst], m.regs[c]))
            },
            ResolvedOp::Select { dst, if_true, if_false } => m.with_reg(
                dst,
                (self.select)(m.regs[dst], m.regs[if_true], m.regs[if_false]),
            ),
            ResolvedOp::Clamp { dst, val, lo, hi, lo_deferred } => {
                let m = m.with_reg(dst, (self.binary)(OpKind::Min, m.regs[val], m.regs[hi]));
                let m = self.late(m, lo, lo_deferred);
                m.with_reg(dst, (self.binary)(OpKind::Max, m.regs[dst], m.regs[lo]))
            },
        }
    }

    /// After a whole plan.
    pub open spec fn plan(self, m: Machine, p: Plan) -> Machine {
        let m = self.reloads(m, p.reloads, 0);
        let m = match p.setup_mov {
            None => m,
            Some((dst, src)) => m.with_reg(dst, m.regs[src]),
        };
        let m = self.op(m, p.op);
        match p.store {
            None => m,
            Some(s) => Machine { stack: m.stack.insert(s.offset, m.regs[s.src]), ..m },
        }
    }

    /// `x` is what the operation computes from the values of its operands. A
    /// multiply-add may be rounded once or twice.
    pub open spec fn is_result(self, op: ScheduledOp, val: spec_fn(ValueId) -> int, x: int) -> bool {
        match op {
            ScheduledOp::Var(_) => true,
            ScheduledOp::Const(bits) => x == (self.constant)(bits),
            ScheduledOp::Unary(k, a) => x == (self.unary)(k, val(a)),
            ScheduledOp::ShiftImm(k, a, n) => x == (self.shift)(k, val(a), n),
            ScheduledOp::Binary(k, a, b) => x == (self.binary)(k, val(a), val(b)),
            ScheduledOp::Ternary(OpKind::MulAdd, a, b, c) => {
                ||| x == (self.fused)(val(a), val(b), val(c))
                ||| x == (self.binary)(
                    OpKind::Add,
                    (self.binary)(OpKind::Mul, val(a), val(b)),
                    val(c),
                )
            },
            ScheduledOp::Ternary(OpKind::Select, a, b, c) => x == (self.select)(
                val(a),
                val(b),
                val(c),
            ),
            ScheduledOp::Ternary(OpKind::Clamp, a, b, c) => x == (self.binary)(
                OpKind::Max,
                (self.binary)(OpKind::Min, val(a), val(c)),
                val(b),
            ),
            ScheduledOp::Ternary(_, _, _, _) => false,
        }
    }

    /// Value `v` is where it lives.
    pub open spec fn at_home(self, m: Machine, at: Places, v: ValueId, x: int) -> bool {
        if at.regs.contains_key(v.0) {
            m.regs[at.regs[v.0]] == x
        } else if at.consts.contains_key(v.0) {
            (self.constant)(at.consts[v.0]) == x
        } else {
            m.stack[at.slots[v.0]] == x
        }
    }
}

/// `v` lives in register `r`.
pub open spec fn lives_in(at: Places, v: ValueId, r: Reg) -> bool {
    at.regs.contains_key(v.0) && at.regs[v.0] == r
}

/// The destination of a three-operand instruction overwrites none of the
/// operands that are still to be read.
pub open spec fn untangled(op: ScheduledOp, dst: Reg, at: Places) -> bool {
    match op {
        ScheduledOp::Ternary(OpKind::MulAdd, a, b, c) => if !at.regs.contains_key(a.0)
            && !at.regs.contains_key(b.0) {
            !lives_in(at, c, dst)
        } else {
            lives_in(at, c, dst) || !lives_in(at, a, dst) && !lives_in(at, b, dst)
        },
        ScheduledOp::Ternary(OpKind::Select, a, b, c) => lives_in(at, a, dst) || !lives_in(
            at,
            b,
            dst,
        ) && !lives_in(at, c, dst),
        ScheduledOp::Ternary(OpKind::Clamp, _, b, _) => !lives_in(at, b, dst),
        _ => true,
    }
}

/// A plan computes its operation: if every operand is where it lives and no
/// value lives in a reload register, then the result ends up in the destination
/// register, and on the stack if it is spilled there. Nothing else changes but
/// the reload registers.
pub proof fn plans_compute_their_operation(
    alg: Algebra,
    m: Machine,
    op: ScheduledOp,
    loc: Loc,
    at: Places,
    reload: [Reg; 2],
    val: spec_fn(ValueId) -> int,
)
    requires
        plan_of(op, loc, at, reload) is Ok,
        !(op is Var),
        reload[0] != reload[1],
        dst_reg(loc, reload[0]) != reload[1],
        at.hold_operands(op),
        forall|v: ValueId| #[trigger]
            op.reads(v) ==> alg.at_home(m, at, v, val(v)) && !lives_in(at, v, reload[0])
                && !lives_in(at, v, reload[1]),
        untangled(op, dst_reg(loc, reload[0]), at),
    ensures
        ({
            let dst = dst_reg(loc, reload[0]);
            let after = alg.plan(m, plan_of(op, loc, at, reload)->Ok_0);
            &&& alg.is_result(op, val, after.regs[dst])
            &&& loc matches Loc::Spill(offset) ==> after.stack == m.stack.insert(
                offset,
                after.regs[dst],
            )
            &&& loc is Reg ==> after.stack == m.stack
            &&& forall|r: Reg|
                r != dst && r != reload[0] && r != reload[1] ==> #[trigger] after.regs[r]
                    == m.regs[r]
        }),
{
    reveal_with_fuel(Algebra::reloads, 4);
    let dst = dst_reg(loc, reload[0]);
    match op {
        ScheduledOp::Unary(_, a) => {
            assert(op.reads(a));
        },
        ScheduledOp::ShiftImm(_, a, _) => {
            assert(op.reads(a));
        },
        ScheduledOp::Binary(_, a, b) => {
            assert(op.reads(a) && op.reads(b));
        },
        ScheduledOp::Ternary(_, a, b, c) => {
            assert(op.reads(a) && op.reads(b) && op.reads(c));
        },
        _ => {},
    }
}

} // verus!
