use pixelflow_ir::arena::{ExprArena, ExprId};
use pixelflow_ir::backend::emit::executable::{CodeBuffer, ExecutableCode};
use pixelflow_ir::backend::emit::kernels::neon::{
    dump_jit_asm, try_compile_arena_dag_scanline_hoisted, try_compile_arena_dag_with_ctx,
    CompileWorkspace,
};
use pixelflow_ir::backend::emit::kernels::tree::count_needs;
use pixelflow_ir::backend::emit::kernels::x86::{
    try_compile_arena_dag, try_compile_arena_dag_avx512, try_compile_arena_dag_scanline,
};
use pixelflow_ir::backend::emit::outcome::Outcome;
use pixelflow_ir::backend::emit::regalloc::{
    build_interference_graph, color_graph, linear_scan, ValueId,
};
use pixelflow_ir::backend::emit::schedule::guards::analyze_select_guards;
use pixelflow_ir::backend::emit::schedule::hoisting::{
    arena_to_hoisted_schedule, default_hoist_predicate,
};
use pixelflow_ir::backend::emit::schedule::try_schedule;
use pixelflow_ir::backend::emit::{
    arena_to_schedule, arena_to_uses, ConstPool, EmitCtx, FrameLayout, Reg, ScheduledOp,
};
use pixelflow_ir::kind::OpKind;
use pixelflow_ir::variance::compute_arena_variance;
use std::collections::BTreeMap;

fn bits(v: f32) -> u32 {
    v.to_bits()
}

/// `sqrt(y * y + 2) * x`
fn hoistable() -> (ExprArena, ExprId) {
    let mut a = ExprArena::new();
    let x = a.push_var(0);
    let y = a.push_var(1);
    let yy = a.push_binary(OpKind::Mul, y, y);
    let two = a.push_const(bits(2.0));
    let sum = a.push_binary(OpKind::Add, yy, two);
    let root_of = a.push_unary(OpKind::Sqrt, sum);
    let root = a.push_binary(OpKind::Mul, root_of, x);
    (a, root)
}

#[test]
fn variance_follows_the_variables() {
    let (a, root) = hoistable();
    let table = compute_arena_variance(&a);
    let at = table[root.0 as usize];
    assert!(at.x && at.y && !at.z && !at.w && !at.other);
    assert!(table[5].is_x_invariant());
    assert!(!table[5].is_y_invariant());
    assert!(table[3].is_const());
    assert!(default_hoist_predicate(table[5]));
    assert!(!default_hoist_predicate(at));
}

#[test]
fn invariant_work_is_hoisted() {
    let (a, root) = hoistable();
    let h = arena_to_hoisted_schedule(&a, root, default_hoist_predicate);
    assert_eq!(h.schedule.len(), 7);
    assert_eq!(h.split, 5, "y, y*y, 2, the sum and its root come first");
    assert_eq!(h.num_hoisted, 1);
    assert!(matches!(h.schedule[6].1, ScheduledOp::Binary(OpKind::Mul, _, _)));
    let none = arena_to_hoisted_schedule(&a, root, |_| false);
    assert_eq!(none.split, 0);
    assert_eq!(none.num_hoisted, 0);
}

#[test]
fn guards_cover_what_only_one_arm_needs() {
    let mut a = ExprArena::new();
    let x = a.push_var(0);
    let y = a.push_var(1);
    let cond = a.push_binary(OpKind::Lt, x, y);
    let yes = a.push_binary(OpKind::Mul, x, x);
    let no = a.push_binary(OpKind::Add, y, y);
    let root = a.push_ternary(OpKind::Select, cond, yes, no);
    let guards = analyze_select_guards(&arena_to_schedule(&a, root));
    assert_eq!(guards.len(), 1);
    assert_eq!(guards[0].select_idx, 5);
    assert_eq!(guards[0].mask_vid, ValueId(2));
    assert_eq!(guards[0].true_range, (3, 4));
    assert_eq!(guards[0].false_range, (4, 5));

    let mut a = ExprArena::new();
    let x = a.push_var(0);
    let y = a.push_var(1);
    let cond = a.push_binary(OpKind::Lt, x, y);
    let root = a.push_ternary(OpKind::Select, cond, x, y);
    assert!(analyze_select_guards(&arena_to_schedule(&a, root)).is_empty());
}

#[test]
fn values_interfere_while_they_are_live() {
    // x, y, y*y, 2, y*y + 2, its root, and the product with x
    let (a, root) = hoistable();
    let schedule = arena_to_schedule(&a, root);
    let uses = arena_to_uses(&schedule);
    let graph = build_interference_graph(&schedule, |v| uses[v.0 as usize].clone());
    assert_eq!(graph.len(), 7);
    let near = |v: u32| graph.neighbors(ValueId(v)).iter().map(|u| u.0).collect::<Vec<u32>>();
    assert_eq!(near(0), [1, 2, 3, 4, 5], "x is read last");
    assert_eq!(near(1), [0]);
    assert_eq!(near(2), [0, 3]);
    assert_eq!(near(3), [0, 2]);
    assert_eq!(near(4), [0]);
    assert_eq!(near(5), [0]);
    assert!(near(6).is_empty());
    let found = color_graph(&graph, 8, 4);
    assert_eq!(found.num_regs, 3);
    assert!(color_graph(&graph, 3, 4).spilled.is_empty());
    assert_eq!(color_graph(&graph, 2, 4).spilled.len(), 1);
}

#[test]
fn a_value_that_others_need_is_not_guarded() {
    // c = v * v is read by the true arm and by the sum, so that v = z + z is needed
    // by both too.
    let mut a = ExprArena::new();
    let x = a.push_var(0);
    let y = a.push_var(1);
    let z = a.push_var(2);
    let cond = a.push_binary(OpKind::Lt, x, y);
    let v = a.push_binary(OpKind::Add, z, z);
    let c = a.push_binary(OpKind::Mul, v, v);
    let yes = a.push_binary(OpKind::Sub, c, y);
    let no = a.push_binary(OpKind::Add, y, y);
    let chosen = a.push_ternary(OpKind::Select, cond, yes, no);
    let root = a.push_binary(OpKind::Add, chosen, c);
    let guards = analyze_select_guards(&arena_to_schedule(&a, root));
    assert_eq!(guards.len(), 1);
    assert_eq!(guards[0].true_range, (6, 7), "neither c nor what c is made of");
    assert_eq!(guards[0].false_range, (7, 8));
}

#[test]
fn arms_before_their_mask_are_not_guarded() {
    let mut a = ExprArena::new();
    let x = a.push_var(0);
    let y = a.push_var(1);
    let yes = a.push_binary(OpKind::Mul, x, x);
    let cond = a.push_binary(OpKind::Lt, x, y);
    let no = a.push_binary(OpKind::Add, y, y);
    let root = a.push_ternary(OpKind::Select, cond, yes, no);
    let guards = analyze_select_guards(&arena_to_schedule(&a, root));
    assert_eq!(guards.len(), 1);
    assert_eq!(guards[0].true_range.0, guards[0].true_range.1);
    assert_eq!(guards[0].false_range, (4, 5));
}

#[test]
fn the_value_used_next_farthest_gives_way() {
    // With two registers for a, b and c: a is read next, b later, c in between.
    let v = |i: u32| ValueId(i);
    let schedule = vec![
        (v(0), ScheduledOp::Var(0)),
        (v(1), ScheduledOp::Unary(OpKind::Sqrt, v(0))),
        (v(2), ScheduledOp::Unary(OpKind::Neg, v(0))),
        (v(3), ScheduledOp::Unary(OpKind::Abs, v(0))),
        (v(4), ScheduledOp::Binary(OpKind::Add, v(1), v(3))),
        (v(5), ScheduledOp::Binary(OpKind::Add, v(2), v(4))),
        (v(6), ScheduledOp::Binary(OpKind::Add, v(1), v(5))),
    ];
    let uses = arena_to_uses(&schedule);
    let mut precolored = BTreeMap::new();
    precolored.insert(0, Reg(0));
    let r = linear_scan(&schedule, &uses, &precolored, 2, 4);
    assert_eq!(r.spilled[0], v(2), "value 1 is used last, but value 2 next farthest");
}

#[test]
fn linear_scan_reuses_and_spills() {
    let (a, root) = hoistable();
    let schedule = arena_to_schedule(&a, root);
    let uses = arena_to_uses(&schedule);
    let mut precolored = BTreeMap::new();
    precolored.insert(0, Reg(0));
    precolored.insert(1, Reg(1));
    let r = linear_scan(&schedule, &uses, &precolored, 3, 4);
    assert_eq!(r.assignment[&0], Reg(0));
    assert_eq!(r.assignment[&1], Reg(1));
    assert!(r.spilled.is_empty());
    assert!(r.num_regs <= 3);
    for (v, reg) in &r.assignment {
        assert!(*v < 2 || (4..7).contains(&reg.0), "value {v} in {reg:?}");
    }
    let r = linear_scan(&schedule, &uses, &precolored, 1, 4);
    assert_eq!(r.rematerialize.get(&3).or(r.rematerialize.get(&2)).is_some(), true);
}

#[test]
fn frames_have_two_megabytes() {
    let most: Vec<ValueId> = (0..0x2_0000).map(ValueId).collect();
    assert_eq!(FrameLayout::from_allocation(&most).unwrap().frame_size, 0x20_0000);
    let more: Vec<ValueId> = (0..0x2_0001).map(ValueId).collect();
    assert_eq!(
        FrameLayout::from_allocation(&more).err(),
        Some("spill frame overflow: exceeds 2MB stack limit")
    );
}

#[test]
fn the_pool_holds_each_constant_once() {
    let mut pool = ConstPool::new();
    assert!(pool.is_empty());
    assert_eq!(pool.push_f32(bits(0.1)), Ok(0));
    assert_eq!(pool.push_f32(bits(0.2)), Ok(16));
    assert_eq!(pool.push_f32(bits(0.1)), Ok(0));
    assert_eq!(pool.len(), 2);
    assert_eq!(pool.entry(1), bits(0.2));
    assert_eq!(pool.offset_for(bits(0.2)), Some(16));
    assert_eq!(pool.offset_for(bits(0.3)), None);
    for i in 2..4096u32 {
        assert_eq!(pool.push_f32(0x1000_0000 + i), Ok(16 * i as u16));
    }
    assert_eq!(
        pool.push_f32(1),
        Err("constant pool overflow: exceeded 12-bit LDR offset limit (max 4095 entries)")
    );
    assert_eq!(pool.push_f32(bits(0.2)), Ok(16), "what is there is still found");
}

#[test]
fn code_takes_whole_pages() {
    let code = ExecutableCode::from_code(&[1, 2, 3], 4096).unwrap();
    assert_eq!(code.as_bytes(), &[1, 2, 3]);
    assert_eq!(code.len(), 3);
    assert_eq!(code.capacity(), 4096);
    assert_eq!(ExecutableCode::from_code(&[0; 4096], 4096).unwrap().capacity(), 4096);
    assert_eq!(ExecutableCode::from_code(&[0; 4097], 4096).unwrap().capacity(), 8192);
    assert_eq!(ExecutableCode::from_code(&[], 4096).err(), Some("empty code buffer"));
}

#[test]
fn a_code_buffer_is_rewritten() {
    let mut buffer = CodeBuffer::new(10, 16).unwrap();
    assert_eq!(buffer.capacity(), 16);
    assert!(buffer.is_empty());
    assert!(buffer.write_code(&[1; 16]).is_ok());
    assert!(buffer.write_code(&[2; 3]).is_ok());
    assert_eq!(buffer.as_bytes(), &[2; 3]);
    assert!(buffer.write_code(&[3; 17]).is_err());
    assert!(buffer.write_code(&[]).is_err());
    assert_eq!(buffer.as_bytes(), &[2; 3], "a refused write changes nothing");
    assert!(CodeBuffer::new(0, 16).is_err());
}

#[test]
fn a_workspace_compiles_again_and_again() {
    let (a, root) = hoistable();
    let mut w = CompileWorkspace::new(4096, 4096).unwrap();
    assert!(matches!(w.try_compile_arena(&a, root), Outcome::Done(())));
    let first = w.code().to_vec();
    let direct = match try_compile_arena_dag_with_ctx(&a, root, EmitCtx::default()) {
        Outcome::Done(r) => r,
        other => panic!("{:?}", other.is_accepted()),
    };
    assert_eq!(first, direct.code);
    w.set_max_regs(1);
    assert!(matches!(w.try_compile_arena(&a, root), Outcome::Done(())));
    assert_ne!(w.code(), &first[..]);
    let mut small = CompileWorkspace::new(1, 16).unwrap();
    assert!(matches!(small.try_compile_arena(&a, root), Outcome::Fail(_)));
}

#[test]
fn what_cannot_be_compiled_is_refused() {
    let mut a = ExprArena::new();
    let root = a.push_param(0);
    assert!(try_schedule(&a, root, true).is_none());
    assert!(matches!(try_compile_arena_dag(&a, root), Outcome::Refused));
    assert!(matches!(try_compile_arena_dag_avx512(&a, root), Outcome::Refused));
    assert!(matches!(try_compile_arena_dag_scanline_hoisted(&a, root), Outcome::Refused));
    let ctx = EmitCtx::default();
    assert!(matches!(try_compile_arena_dag_with_ctx(&a, root, ctx), Outcome::Refused));
}

#[test]
fn errors_are_told() {
    let mut a = ExprArena::new();
    let x = a.push_var(0);
    let root = a.push_unary(OpKind::Sin, x);
    match try_compile_arena_dag_avx512(&a, root) {
        Outcome::Fail(e) => assert_eq!(e, "avx512: unary op not in Stage-1 subset"),
        _ => panic!("a sine is not an instruction"),
    }

    let mut a = ExprArena::new();
    let mut deep = a.push_var(0);
    for _ in 0..64 {
        deep = a.push_unary(OpKind::Neg, deep);
    }
    match try_compile_arena_dag_scanline(&a, deep) {
        Outcome::Fail(e) => assert_eq!(e, "expression too deep"),
        _ => panic!("65 levels are too deep"),
    }
    assert_eq!(count_needs(&a, deep), Some(1));
}

#[test]
fn kernels_are_disassembled() {
    let (a, root) = hoistable();
    let text = dump_jit_asm(&a, root).unwrap();
    assert!(text.contains("fsqrt"), "{text}");
    assert!(text.contains("fmul"), "{text}");
    assert!(text.trim_end().ends_with("ret"), "{text}");
    assert!(!text.contains("unknown"), "{text}");
}
