use pixelflow_ir::arena::ExprArena;
use pixelflow_ir::backend::emit::kernels::neon::RELOAD_REGS;
use pixelflow_ir::backend::emit::kernels::tree::needs_arena;
use pixelflow_ir::backend::emit::regalloc::ValueId;
use pixelflow_ir::backend::emit::{
    arena_to_schedule, arena_to_uses, resolve_operands, DeferredReload, FrameLayout, Loc, Reg,
    Reload, ResolvedOp, ScheduledOp, Store,
};
use pixelflow_ir::kind::OpKind;
use std::collections::BTreeMap;

const RELOAD: [Reg; 2] = [Reg(RELOAD_REGS[0]), Reg(RELOAD_REGS[1])];

fn bits(v: f32) -> u32 {
    v.to_bits()
}

#[test]
fn test_needs_simple() {
    // X + Y: both leaves need 1, binary needs max(1,1)+1 = 2
    let mut arena = ExprArena::new();
    let x = arena.push_var(0);
    let y = arena.push_var(1);
    let root = arena.push_binary(OpKind::Add, x, y);
    assert_eq!(needs_arena(&arena, root), 2);
}

#[test]
fn test_needs_unbalanced() {
    // (X + Y) + Z: left needs 2, right needs 1, total = max(2,1) = 2
    let mut arena = ExprArena::new();
    let x = arena.push_var(0);
    let y = arena.push_var(1);
    let left = arena.push_binary(OpKind::Add, x, y);
    let z = arena.push_var(2);
    let root = arena.push_binary(OpKind::Add, left, z);
    assert_eq!(needs_arena(&arena, root), 2);
}

#[test]
fn test_needs_balanced_deep() {
    // (X + Y) + (Z + W): both sides need 2, total = 2+1 = 3
    let mut arena = ExprArena::new();
    let x = arena.push_var(0);
    let y = arena.push_var(1);
    let left = arena.push_binary(OpKind::Add, x, y);
    let z = arena.push_var(2);
    let w = arena.push_var(3);
    let right = arena.push_binary(OpKind::Add, z, w);
    let root = arena.push_binary(OpKind::Add, left, right);
    assert_eq!(needs_arena(&arena, root), 3);
}

// =========================================================================
// Frame layouts
// =========================================================================

#[test]
fn test_frame_layout_empty() {
    let layout = FrameLayout::from_allocation(&[]).unwrap();
    assert_eq!(layout.frame_size, 0);
    assert!(layout.spill_slots.is_empty());
}

#[test]
fn test_frame_layout_one_spill() {
    let layout = FrameLayout::from_allocation(&[ValueId(5)]).unwrap();
    assert_eq!(layout.frame_size, 16);
    assert_eq!(layout.spill_slots[&5], 0);
}

#[test]
fn test_frame_layout_alignment() {
    let spilled = [
        ValueId(1),
        ValueId(2),
        ValueId(3),
    ];
    let layout = FrameLayout::from_allocation(&spilled).unwrap();
    // 3 * 16 = 48, already aligned
    assert_eq!(layout.frame_size, 48);
    assert_eq!(layout.spill_slots[&1], 0);
    assert_eq!(layout.spill_slots[&2], 16);
    assert_eq!(layout.spill_slots[&3], 32);
}

// =========================================================================
// Operands and spilled values
// =========================================================================

/// Minimal assignment + spill maps for resolve_operands tests.
fn make_maps(
    assigned: &[(u32, u8)],
    spilled: &[(u32, u32)],
) -> (
    BTreeMap<u32, Reg>,
    BTreeMap<u32, u32>,
    BTreeMap<u32, u32>,
) {
    let mut assignment = BTreeMap::new();
    for &(v, r) in assigned {
        assignment.insert(v, Reg(r));
    }
    let mut slots = BTreeMap::new();
    for &(v, off) in spilled {
        slots.insert(v, off);
    }
    (assignment, slots, BTreeMap::new())
}

#[test]
fn test_resolve_binary_no_spills() {
    // left=v4, right=v5, dst=v6 — all in registers
    let (assign, spills, remat) = make_maps(&[(0, 4), (1, 5), (2, 6)], &[]);
    let op = ScheduledOp::Binary(OpKind::Add, ValueId(0), ValueId(1));
    let plan = resolve_operands(&op, Loc::Reg(Reg(6)), &assign, &spills, &remat, RELOAD).unwrap();

    assert!(plan.reloads.is_empty());
    assert!(plan.store.is_none());
    assert_eq!(
        plan.op,
        ResolvedOp::Binary {
            op: OpKind::Add,
            dst: Reg(6),
            left: Reg(4),
            right: Reg(5)
        }
    );
}

#[test]
fn test_resolve_binary_left_spilled() {
    // left spilled at offset 0, right in v5
    let (assign, spills, remat) = make_maps(&[(1, 5), (2, 6)], &[(0, 0)]);
    let op = ScheduledOp::Binary(OpKind::Add, ValueId(0), ValueId(1));
    let plan = resolve_operands(&op, Loc::Reg(Reg(6)), &assign, &spills, &remat, RELOAD).unwrap();

    assert_eq!(plan.reloads.len(), 1);
    assert_eq!(
        plan.reloads[0],
        Reload::FromStack {
            target: RELOAD[1],
            offset: 0
        }
    );
    assert_eq!(
        plan.op,
        ResolvedOp::Binary {
            op: OpKind::Add,
            dst: Reg(6),
            left: RELOAD[1],
            right: Reg(5)
        }
    );
}

#[test]
fn test_resolve_binary_both_spilled() {
    // Both spilled: left → dst (temp trick), right → tmp_op
    let (assign, spills, remat) = make_maps(&[(2, 6)], &[(0, 0), (1, 16)]);
    let op = ScheduledOp::Binary(OpKind::Mul, ValueId(0), ValueId(1));
    let plan = resolve_operands(&op, Loc::Reg(Reg(6)), &assign, &spills, &remat, RELOAD).unwrap();

    assert_eq!(plan.reloads.len(), 2);
    // left → dst (v6), right → tmp_op (v27)
    assert_eq!(
        plan.reloads[0],
        Reload::FromStack {
            target: Reg(6),
            offset: 0
        }
    );
    assert_eq!(
        plan.reloads[1],
        Reload::FromStack {
            target: RELOAD[1],
            offset: 16
        }
    );
    assert_eq!(
        plan.op,
        ResolvedOp::Binary {
            op: OpKind::Mul,
            dst: Reg(6),
            left: Reg(6),
            right: RELOAD[1]
        }
    );
}

#[test]
fn test_resolve_dst_spilled_generates_store() {
    // dst is spilled → compute into RELOAD[0], then store
    let (assign, spills, remat) = make_maps(&[(0, 4), (1, 5)], &[(2, 32)]);
    let op = ScheduledOp::Binary(OpKind::Add, ValueId(0), ValueId(1));
    let plan = resolve_operands(&op, Loc::Spill(32), &assign, &spills, &remat, RELOAD).unwrap();

    // dst should be RELOAD[0] since result is spilled
    assert_eq!(
        plan.op,
        ResolvedOp::Binary {
            op: OpKind::Add,
            dst: RELOAD[0],
            left: Reg(4),
            right: Reg(5)
        }
    );
    assert_eq!(
        plan.store,
        Some(Store {
            src: RELOAD[0],
            offset: 32
        })
    );
}

#[test]
fn test_resolve_muladd_fmla_path() {
    // a in reg, b in reg, c in reg → FMLA with setup_mov for c→dst
    let (assign, spills, remat) = make_maps(&[(0, 4), (1, 5), (2, 7), (3, 8)], &[]);
    let op = ScheduledOp::Ternary(
        OpKind::MulAdd,
        ValueId(0),
        ValueId(1),
        ValueId(2),
    );
    let plan = resolve_operands(&op, Loc::Reg(Reg(8)), &assign, &spills, &remat, RELOAD).unwrap();

    assert!(plan.reloads.is_empty());
    // c=v7 ≠ dst=v8, so setup_mov should copy c → dst
    assert_eq!(plan.setup_mov, Some((Reg(8), Reg(7))));
    assert_eq!(
        plan.op,
        ResolvedOp::FusedMulAdd {
            dst: Reg(8),
            a: Reg(4),
            b: Reg(5)
        }
    );
}

#[test]
fn test_resolve_muladd_decomposed_both_ab_spilled() {
    // a and b both spilled → decomposed FMUL+FADD path
    // c in register
    let (assign, spills, remat) = make_maps(&[(2, 7), (3, 8)], &[(0, 0), (1, 16)]);
    let op = ScheduledOp::Ternary(
        OpKind::MulAdd,
        ValueId(0),
        ValueId(1),
        ValueId(2),
    );
    let plan = resolve_operands(&op, Loc::Reg(Reg(8)), &assign, &spills, &remat, RELOAD).unwrap();

    // a → dst, b → tmp_op loaded upfront
    assert_eq!(plan.reloads.len(), 2);
    assert_eq!(
        plan.reloads[0],
        Reload::FromStack {
            target: Reg(8),
            offset: 0
        }
    );
    assert_eq!(
        plan.reloads[1],
        Reload::FromStack {
            target: RELOAD[1],
            offset: 16
        }
    );
    // c is in a register, no deferred reload needed
    match &plan.op {
        ResolvedOp::DecomposedMulAdd {
            dst,
            a,
            b,
            c,
            c_deferred,
        } => {
            assert_eq!(*dst, Reg(8));
            assert_eq!(*a, Reg(8));
            assert_eq!(*b, RELOAD[1]);
            assert_eq!(*c, Reg(7));
            assert_eq!(*c_deferred, None);
        }
        other => panic!("expected DecomposedMulAdd, got {:?}", other),
    }
}

#[test]
fn test_resolve_muladd_decomposed_all_three_spilled() {
    // a, b, c all spilled → decomposed with deferred c reload
    let (assign, spills, remat) = make_maps(&[(3, 8)], &[(0, 0), (1, 16), (2, 32)]);
    let op = ScheduledOp::Ternary(
        OpKind::MulAdd,
        ValueId(0),
        ValueId(1),
        ValueId(2),
    );
    let plan = resolve_operands(&op, Loc::Reg(Reg(8)), &assign, &spills, &remat, RELOAD).unwrap();

    // Only a and b reloads upfront — c is deferred
    assert_eq!(plan.reloads.len(), 2);
    match &plan.op {
        ResolvedOp::DecomposedMulAdd { c, c_deferred, .. } => {
            assert_eq!(*c, RELOAD[1]); // will be reloaded into tmp_op
            assert_eq!(*c_deferred, Some(DeferredReload::FromStack(32)));
        }
        other => panic!("expected DecomposedMulAdd, got {:?}", other),
    }
}

#[test]
fn test_resolve_var_is_nop() {
    let (assign, spills, remat) = make_maps(&[(0, 0)], &[]);
    let op = ScheduledOp::Var(0);
    let plan = resolve_operands(&op, Loc::Reg(Reg(0)), &assign, &spills, &remat, RELOAD).unwrap();
    assert_eq!(plan.op, ResolvedOp::Nop);
    assert!(plan.reloads.is_empty());
    assert!(plan.store.is_none());
}

#[test]
fn test_resolve_const() {
    let (assign, spills, remat) = make_maps(&[(0, 6)], &[]);
    let op = ScheduledOp::Const(bits(3.14));
    let plan = resolve_operands(&op, Loc::Reg(Reg(6)), &assign, &spills, &remat, RELOAD).unwrap();
    assert_eq!(
        plan.op,
        ResolvedOp::LoadConst {
            dst: Reg(6),
            val_bits: bits(3.14)
        }
    );
}

// =========================================================================
// Schedules of arenas
// =========================================================================

#[test]
fn test_arena_to_schedule_simple() {
    let mut arena = ExprArena::new();
    let x = arena.push_var(0);
    let y = arena.push_var(1);
    let sum = arena.push_binary(OpKind::Add, x, y);

    let schedule = arena_to_schedule(&arena, sum);

    // Should have 3 values: X, Y, X+Y
    assert_eq!(
        schedule.len(),
        3,
        "expected 3 schedule entries, got {}",
        schedule.len()
    );

    // Verify the operations
    assert!(matches!(schedule[0].1, ScheduledOp::Var(0)));
    assert!(matches!(schedule[1].1, ScheduledOp::Var(1)));
    assert!(matches!(
        schedule[2].1,
        ScheduledOp::Binary(OpKind::Add, _, _)
    ));
}

#[test]
fn test_arena_to_schedule_filters_unreachable() {
    let mut arena = ExprArena::new();
    let x = arena.push_var(0);
    let _garbage = arena.push_const(bits(999.0)); // unreachable
    let y = arena.push_var(1);
    let sum = arena.push_binary(OpKind::Add, x, y);

    let schedule = arena_to_schedule(&arena, sum);

    // Should have 3 values (garbage node filtered out)
    assert_eq!(
        schedule.len(),
        3,
        "unreachable garbage node should be filtered"
    );
}

#[test]
fn test_arena_to_uses() {
    let mut arena = ExprArena::new();
    let x = arena.push_var(0);
    let y = arena.push_var(1);
    let sum = arena.push_binary(OpKind::Add, x, y);

    let schedule = arena_to_schedule(&arena, sum);
    let uses = arena_to_uses(&schedule);

    assert_eq!(uses.len(), 3);
    assert!(uses[0].is_empty(), "Var should have no uses");
    assert!(uses[1].is_empty(), "Var should have no uses");
    assert_eq!(uses[2].len(), 2, "Binary should use 2 children");
}
