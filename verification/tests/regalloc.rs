use pixelflow_ir::backend::emit::regalloc::{
    color_graph, linear_scan, InterferenceGraph, RegAllocation, ValueId,
};
use pixelflow_ir::backend::emit::schedule::{arena_to_uses, ScheduledOp};
use pixelflow_ir::backend::emit::Reg;
use pixelflow_ir::kind::OpKind;
use std::collections::{BTreeMap, BTreeSet};

#[test]
fn verify_empty_graph() {
    let graph = InterferenceGraph::new();
    let found = color_graph(&graph, 8, 4);
    assert!(found.assignment.is_empty());
    assert!(found.spilled.is_empty());
}

#[test]
fn verify_no_interference() {
    let mut graph = InterferenceGraph::new();
    graph.add_value(ValueId(0));
    graph.add_value(ValueId(1));
    graph.add_value(ValueId(2));
    // No edges - no interference

    let found = color_graph(&graph, 8, 4);
    assert_eq!(found.assignment.len(), 3);
    assert!(found.spilled.is_empty());
    // All can use the same register since they don't interfere
}

#[test]
fn verify_chain_interference() {
    let mut graph = InterferenceGraph::new();
    // Linear chain: 0 -- 1 -- 2
    graph.add_value(ValueId(0));
    graph.add_value(ValueId(1));
    graph.add_value(ValueId(2));
    graph.add_edge(ValueId(0), ValueId(1));
    graph.add_edge(ValueId(1), ValueId(2));

    let found = color_graph(&graph, 8, 4);
    assert_eq!(found.assignment.len(), 3);
    assert!(found.spilled.is_empty());

    // 0 and 2 can share a color, 1 needs different
    let c0 = found.assignment[&0];
    let c1 = found.assignment[&1];
    let c2 = found.assignment[&2];

    assert_ne!(c0, c1);
    assert_ne!(c1, c2);
    // c0 and c2 could be same or different
}

#[test]
fn verify_clique_needs_more_colors() {
    let mut graph = InterferenceGraph::new();
    // Triangle (3-clique): all interfere with all
    for i in 0..3 {
        graph.add_value(ValueId(i));
    }
    graph.add_edge(ValueId(0), ValueId(1));
    graph.add_edge(ValueId(1), ValueId(2));
    graph.add_edge(ValueId(0), ValueId(2));

    let found = color_graph(&graph, 8, 4);
    assert_eq!(found.assignment.len(), 3);
    assert!(found.spilled.is_empty());
    assert!(found.num_regs >= 3);

    // All must have different colors
    let colors: BTreeSet<_> = found.assignment.values().collect();
    assert_eq!(colors.len(), 3);
}

#[test]
fn verify_precolored() {
    let mut graph = InterferenceGraph::new();
    graph.precolor(ValueId(0), Reg(0)); // Input register
    graph.add_value(ValueId(1));
    graph.add_edge(ValueId(0), ValueId(1));

    let found = color_graph(&graph, 8, 4);
    assert_eq!(found.assignment[&0], Reg(0));
    assert_ne!(found.assignment[&1], Reg(0));
}

#[test]
fn verify_spilling() {
    let mut graph = InterferenceGraph::new();
    // 4-clique with only 2 registers available
    for i in 0..4 {
        graph.add_value(ValueId(i));
    }
    for i in 0..4 {
        for j in (i + 1)..4 {
            graph.add_edge(ValueId(i), ValueId(j));
        }
    }

    let found = color_graph(&graph, 2, 4); // Only 2 registers!
    assert_eq!(found.spilled.len(), 2); // 2 must spill
    assert_eq!(found.assignment.len(), 2); // 2 got colors
}

#[test]
fn a_path_takes_two_registers() {
    // 1 -- 3 -- 2 -- 0
    let mut graph = InterferenceGraph::new();
    graph.add_edge(ValueId(1), ValueId(3));
    graph.add_edge(ValueId(3), ValueId(2));
    graph.add_edge(ValueId(2), ValueId(0));
    let found = color_graph(&graph, 8, 4);
    assert_eq!(found.num_regs, 2);
    assert!(color_graph(&graph, 2, 4).spilled.is_empty());
}

/// Linear scan with registers from V4 on; values are numbered in order.
fn scan_with(ops: &[ScheduledOp], bound: &[(u32, u8)], num_regs: u8) -> RegAllocation {
    let schedule: Vec<(ValueId, ScheduledOp)> =
        ops.iter().enumerate().map(|(i, op)| (ValueId(i as u32), *op)).collect();
    let uses = arena_to_uses(&schedule);
    let precolored: BTreeMap<u32, Reg> = bound.iter().map(|(v, r)| (*v, Reg(*r))).collect();
    linear_scan(&schedule, &uses, &precolored, num_regs, 4)
}

#[test]
fn a_bound_register_is_occupied_while_its_value_is_live() {
    let ops = [
        ScheduledOp::Var(0),
        ScheduledOp::Const(2.0f32.to_bits()),
        ScheduledOp::Binary(OpKind::Add, ValueId(0), ValueId(1)),
    ];
    let r = scan_with(&ops, &[(0, 4)], 3);
    assert_eq!(r.assignment[&0], Reg(4));
    assert_eq!(r.assignment[&1], Reg(5));
    assert_eq!(r.assignment[&2], Reg(6));
    // With two registers the sum takes that of the constant, not the bound one.
    let r = scan_with(&ops, &[(0, 4)], 2);
    assert_eq!(r.assignment[&0], Reg(4));
    assert_ne!(r.assignment.get(&1), Some(&Reg(4)));
    assert_eq!(r.assignment[&2], Reg(5));
    assert_eq!(r.rematerialize[&1], 2.0f32.to_bits());
    assert!(r.spilled.is_empty());
}

#[test]
fn a_bound_register_is_free_behind_the_last_read() {
    let ops = [
        ScheduledOp::Var(0),
        ScheduledOp::Unary(OpKind::Sqrt, ValueId(0)),
        ScheduledOp::Unary(OpKind::Neg, ValueId(1)),
    ];
    let r = scan_with(&ops, &[(0, 4)], 2);
    assert_eq!(r.assignment[&1], Reg(5));
    assert_eq!(r.assignment[&2], Reg(4));
}

#[test]
fn a_value_leaves_room_for_one_that_is_bound_later() {
    let ops = [
        ScheduledOp::Var(0),
        ScheduledOp::Unary(OpKind::Sqrt, ValueId(0)),
        ScheduledOp::Unary(OpKind::Neg, ValueId(0)),
        ScheduledOp::Binary(OpKind::Add, ValueId(1), ValueId(2)),
    ];
    let r = scan_with(&ops, &[(0, 0), (2, 4)], 3);
    assert_eq!(r.assignment[&1], Reg(5), "V4 is taken while value 1 is still to be read");
    assert_eq!(r.assignment[&2], Reg(4));
    assert_eq!(r.assignment[&3], Reg(6));
}

#[test]
fn values_are_set_aside_if_all_registers_are_bound() {
    let ops = [
        ScheduledOp::Var(0),
        ScheduledOp::Const(2.0f32.to_bits()),
        ScheduledOp::Unary(OpKind::Sqrt, ValueId(0)),
        ScheduledOp::Ternary(OpKind::MulAdd, ValueId(0), ValueId(1), ValueId(2)),
    ];
    let r = scan_with(&ops, &[(0, 4)], 1);
    assert_eq!(r.assignment.len(), 1);
    assert_eq!(r.assignment[&0], Reg(4));
    assert_eq!(r.rematerialize[&1], 2.0f32.to_bits());
    assert_eq!(r.spilled, vec![ValueId(2), ValueId(3)]);
}
