use pixelflow_ir::arena::{
    BufferDecl, BufferIdentity, ExprArena, ExprId, ExprNode, REDUCE_BINDER_BASE,
};
use pixelflow_ir::backend::emit::lowering::{
    expand_gather_owned, expand_reduce, expand_reduce_owned, expand_transcendentals,
    expand_transcendentals_owned, try_expand_gather_owned, try_expand_reduce_owned,
};
use pixelflow_ir::fold::{Binder, Fold, Monoid};
use pixelflow_ir::kind::OpKind;

fn bits(v: f32) -> u32 {
    v.to_bits()
}

/// Evaluate an expression of plain operations at some variable values, with one
/// buffer.
fn eval(a: &ExprArena, id: ExprId, vars: &[f32], data: &[f32]) -> f32 {
    let f = f32::from_bits;
    let at = |k: usize| {
        let kids: Vec<ExprId> = a.children(id).collect();
        eval(a, kids[k], vars, data)
    };
    match *a.node(id) {
        ExprNode::Var(i) => vars[i as usize],
        ExprNode::Const(c) => f(c),
        ExprNode::Unary(op, _) => match op {
            OpKind::Neg => -at(0),
            OpKind::Abs => at(0).abs(),
            OpKind::Sqrt => at(0).sqrt(),
            OpKind::Recip => 1.0 / at(0),
            OpKind::Floor => at(0).floor(),
            OpKind::TruncToInt => f(at(0) as i32 as u32),
            OpKind::IntToFloat => bits(at(0)) as i32 as f32,
            other => panic!("unary {:?}", other),
        },
        ExprNode::Binary(op, _, _) => match op {
            OpKind::Add => at(0) + at(1),
            OpKind::Sub => at(0) - at(1),
            OpKind::Mul => at(0) * at(1),
            OpKind::Div => at(0) / at(1),
            OpKind::Min => at(0).min(at(1)),
            OpKind::Max => at(0).max(at(1)),
            OpKind::Lt => f(if at(0) < at(1) { u32::MAX } else { 0 }),
            OpKind::Le => f(if at(0) <= at(1) { u32::MAX } else { 0 }),
            OpKind::Gt => f(if at(0) > at(1) { u32::MAX } else { 0 }),
            OpKind::Ge => f(if at(0) >= at(1) { u32::MAX } else { 0 }),
            OpKind::IAdd => f(bits(at(0)).wrapping_add(bits(at(1)))),
            OpKind::BitAnd => f(bits(at(0)) & bits(at(1))),
            OpKind::BitOr => f(bits(at(0)) | bits(at(1))),
            OpKind::Shl => f(bits(at(0)) << at(1) as u32),
            OpKind::Shr => f(bits(at(0)) >> at(1) as u32),
            OpKind::RawGather => data[at(1) as usize],
            other => panic!("binary {:?}", other),
        },
        ExprNode::Ternary(op, _, _, _) => match op {
            OpKind::Select => {
                if bits(at(0)) != 0 {
                    at(1)
                } else {
                    at(2)
                }
            }
            OpKind::MulAdd => at(0) * at(1) + at(2),
            OpKind::Clamp => at(0).min(at(2)).max(at(1)),
            other => panic!("ternary {:?}", other),
        },
        ref other => panic!("node {:?}", other),
    }
}

#[test]
fn expansions_approximate_the_functions() {
    let cases: &[(OpKind, fn(f32) -> f32, &[f32], f32)] = &[
        (OpKind::Sin, f32::sin, &[-2.0, 0.3, 6.0], 3e-2),
        (OpKind::Cos, f32::cos, &[-2.0, 0.3, 6.0], 3e-2),
        (OpKind::Tan, f32::tan, &[-0.5, 0.3, 1.0], 5e-2),
        (OpKind::Exp, f32::exp, &[-2.0, 0.0, 1.5], 1e-2),
        (OpKind::Exp2, f32::exp2, &[-3.0, 0.5, 4.0], 1e-2),
        (OpKind::Ln, f32::ln, &[0.25, 1.0, 10.0], 1e-2),
        (OpKind::Log2, f32::log2, &[0.25, 1.0, 10.0], 1e-2),
        (OpKind::Log10, f32::log10, &[0.1, 1.0, 100.0], 1e-2),
        (OpKind::Atan, f32::atan, &[-4.0, 0.2, 1.0], 7e-2),
        (OpKind::Asin, f32::asin, &[-0.9, 0.0, 0.5], 7e-2),
        (OpKind::Acos, f32::acos, &[-0.9, 0.0, 0.5], 7e-2),
    ];
    for &(op, scalar, inputs, tol) in cases {
        let mut a = ExprArena::new();
        let x = a.push_var(0);
        let root = a.push_unary(op, x);
        let (b, expanded) = expand_transcendentals_owned(&a, root);
        for &v in inputs {
            let got = eval(&b, expanded, &[v], &[]);
            let want = scalar(v);
            assert!((got - want).abs() <= tol * (1.0 + want.abs()), "{op:?}({v}) = {got}");
        }
    }
}

#[test]
fn an_arena_without_transcendentals_is_copied() {
    let mut a = ExprArena::new();
    let x = a.push_var(0);
    let root = a.push_unary(OpKind::Sqrt, x);
    let (b, kept) = expand_transcendentals_owned(&a, root);
    assert_eq!(b.nodes(), a.nodes());
    assert_eq!(kept, root);
}

#[test]
fn expanding_in_place_keeps_the_old_nodes() {
    let mut a = ExprArena::new();
    let x = a.push_var(0);
    let root = a.push_unary(OpKind::Sin, x);
    let before = a.len();
    let expanded = expand_transcendentals(&mut a, root);
    assert_eq!(a.kind(root), OpKind::Sin);
    assert!(a.len() > before);
    let got = eval(&a, expanded, &[1.0], &[]);
    assert!((got - 1.0f32.sin()).abs() < 1e-2);
}

#[test]
fn buffer_reads_hold_their_coordinates_to_the_buffer() {
    let mut counter = 0;
    let mut a = ExprArena::new();
    let buf = a.declare_buffer(BufferDecl {
        id: BufferIdentity::mint(&mut counter),
        width: 3,
        height: 2,
    });
    let x = a.push_var(0);
    let y = a.push_var(1);
    let root = a.push_gather(buf, x, y);
    let (b, read) = expand_gather_owned(&a, root);
    let data = [1.0, 2.0, 3.0, 4.0, 5.0, 6.0];
    for (px, py, want) in [
        (0.0, 0.0, 1.0),
        (2.0, 0.0, 3.0),
        (1.0, 1.0, 5.0),
        (2.9, 1.2, 6.0),
        (-5.0, 0.0, 1.0),
        (9.0, 9.0, 6.0),
    ] {
        assert_eq!(eval(&b, read, &[px, py], &data), want, "at ({px}, {py})");
    }
}

#[test]
fn a_read_of_something_else_than_a_buffer_is_refused() {
    let mut a = ExprArena::new();
    let x = a.push_var(0);
    let root = a.push_ternary(OpKind::Gather, x, x, x);
    assert!(try_expand_gather_owned(&a, root).is_none());
}

fn fold_of(monoid: Monoid, count: u16) -> (ExprArena, ExprId) {
    // (k + x), folded over k
    let mut a = ExprArena::new();
    let k = a.push_var(REDUCE_BINDER_BASE);
    let x = a.push_var(0);
    let body = a.push_binary(OpKind::Add, k, x);
    let binder = Binder::from_var(REDUCE_BINDER_BASE).expect("the first binder");
    let root = a.push_reduce(Fold::new(monoid, binder, 1..1 + count), body);
    (a, root)
}

#[test]
fn folds_are_unrolled() {
    let cases: &[(Monoid, f32)] = &[
        (Monoid::SUM, 1.5 + 2.5 + 3.5),
        (Monoid::PRODUCT, 1.5 * 2.5 * 3.5),
        (Monoid::MIN, 1.5),
        (Monoid::MAX, 3.5),
    ];
    for &(monoid, want) in cases {
        let (a, root) = fold_of(monoid, 3);
        let (b, flat) = expand_reduce_owned(&a, root);
        assert_eq!(eval(&b, flat, &[0.5], &[]), want, "{monoid:?}");
        let mut c = a.clone();
        let flat = expand_reduce(&mut c, root);
        assert_eq!(eval(&c, flat, &[0.5], &[]), want, "{monoid:?} in place");
    }
}

#[test]
fn folds_nest_to_the_right() {
    let (a, root) = fold_of(Monoid::SUM, 3);
    let (b, flat) = expand_reduce_owned(&a, root);
    let kids: Vec<ExprId> = b.children(flat).collect();
    assert_eq!(eval(&b, kids[0], &[0.5], &[]), 1.5, "the body at the first index");
    assert_eq!(eval(&b, kids[1], &[0.5], &[]), 6.0, "the rest");
    // 1 + (2^24 + 1) against (1 + 2^24) + 1
    let big = 16_777_216.0f32;
    let inner: Vec<ExprId> = b.children(kids[1]).collect();
    assert_eq!(eval(&b, inner[0], &[big], &[]), 2.0 + big);
    assert_eq!(eval(&b, flat, &[big], &[]), (1.0 + big) + ((2.0 + big) + (3.0 + big)));
}

#[test]
fn an_empty_fold_is_the_identity() {
    for (monoid, want) in [
        (Monoid::SUM, 0.0),
        (Monoid::PRODUCT, 1.0),
        (Monoid::MIN, f32::INFINITY),
        (Monoid::MAX, f32::NEG_INFINITY),
    ] {
        let (a, root) = fold_of(monoid, 0);
        let (b, flat) = expand_reduce_owned(&a, root);
        assert_eq!(*b.node(flat), ExprNode::Const(bits(want)), "{monoid:?}");
        assert_eq!(monoid.identity(), bits(want));
    }
}

#[test]
fn a_fold_in_a_fold_is_unrolled_inside_out() {
    let mut a = ExprArena::new();
    let k = a.push_var(REDUCE_BINDER_BASE);
    let l = a.push_var(REDUCE_BINDER_BASE + 1);
    let inner_binder = Binder::from_var(REDUCE_BINDER_BASE + 1).expect("the second binder");
    let outer_binder = Binder::from_var(REDUCE_BINDER_BASE).expect("the first binder");
    let product = a.push_binary(OpKind::Mul, k, l);
    let inner = a.push_reduce(Fold::new(Monoid::SUM, inner_binder, 0..4), product);
    let root = a.push_reduce(Fold::new(Monoid::SUM, outer_binder, 1..3), inner);
    let (b, flat) = try_expand_reduce_owned(&a, root).expect("fits");
    // (1 + 2) * (0 + 1 + 2 + 3)
    assert_eq!(eval(&b, flat, &[], &[]), 18.0);
}

#[test]
fn binders_are_four_variables() {
    assert!(Binder::from_var(REDUCE_BINDER_BASE - 1).is_none());
    assert!(Binder::from_var(REDUCE_BINDER_BASE + 4).is_none());
    assert_eq!(Binder::from_var(REDUCE_BINDER_BASE + 3).unwrap().var(), REDUCE_BINDER_BASE + 3);
}
