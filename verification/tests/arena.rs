use pixelflow_ir::arena::{
    BufferDecl, BufferId, BufferIdentity, ExprArena, ExprId, ExprNode, UniformDecl, UniformId,
    UniformIdentity, REDUCE_BINDER_BASE,
};
use pixelflow_ir::fold::{Binder, Fold, Monoid};
use pixelflow_ir::kernel::{Scalar, Uniform};
use pixelflow_ir::kind::OpKind;

fn bits(v: f32) -> u32 {
    v.to_bits()
}

/// The decimal text of every constant of an arena.
fn const_texts(arena: &ExprArena) -> Vec<String> {
    arena
        .nodes()
        .iter()
        .map(|n| match n {
            ExprNode::Const(b) => format!("{}", f32::from_bits(*b)),
            _ => String::new(),
        })
        .collect()
}

fn shown(arena: &ExprArena, root: ExprId) -> String {
    arena.display(root).text(&const_texts(arena))
}

#[test]
fn push_and_access() {
    let mut arena = ExprArena::new();

    let v = arena.push_var(0);
    assert_eq!(arena.kind(v), OpKind::Var);
    assert_eq!(arena.children(v).count(), 0);

    let c = arena.push_const(bits(core::f32::consts::PI));
    assert_eq!(arena.kind(c), OpKind::Const);
    assert_eq!(arena.children(c).count(), 0);

    let p = arena.push_param(1);
    assert_eq!(arena.kind(p), OpKind::Const);
    assert_eq!(arena.children(p).count(), 0);

    let u = arena.push_unary(OpKind::Neg, v);
    assert_eq!(arena.kind(u), OpKind::Neg);
    let u_children: Vec<ExprId> = arena.children(u).collect();
    assert_eq!(u_children, vec![v]);

    let b = arena.push_binary(OpKind::Add, v, c);
    assert_eq!(arena.kind(b), OpKind::Add);
    let b_children: Vec<ExprId> = arena.children(b).collect();
    assert_eq!(b_children, vec![v, c]);

    let t = arena.push_ternary(OpKind::MulAdd, v, c, p);
    assert_eq!(arena.kind(t), OpKind::MulAdd);
    let t_children: Vec<ExprId> = arena.children(t).collect();
    assert_eq!(t_children, vec![v, c, p]);
}

#[test]
fn node_count() {
    let mut arena = ExprArena::new();
    let v0 = arena.push_var(0);
    let c1 = arena.push_const(bits(1.0));
    let root = arena.push_binary(OpKind::Add, v0, c1);
    assert_eq!(arena.len(), 3);
    assert_eq!(arena.node_count_subtree(root), 3);

    let mut arena2 = ExprArena::new();
    let a0 = arena2.push_var(0);
    let a1 = arena2.push_var(1);
    let add = arena2.push_binary(OpKind::Add, a0, a1);
    let c2 = arena2.push_const(bits(2.0));
    let root2 = arena2.push_binary(OpKind::Mul, add, c2);
    assert_eq!(arena2.len(), 5);
    assert_eq!(arena2.node_count_subtree(root2), 5);
}

#[test]
fn verify_depth() {
    let mut arena = ExprArena::new();
    let v0 = arena.push_var(0);
    let v1 = arena.push_var(1);
    let c3 = arena.push_const(bits(3.0));
    let mul = arena.push_binary(OpKind::Mul, v1, c3);
    let root = arena.push_binary(OpKind::Add, v0, mul);
    assert_eq!(arena.depth(root), 3);
}

#[test]
fn verify_has_var() {
    let mut arena1 = ExprArena::new();
    let v0 = arena1.push_var(0);
    let c1 = arena1.push_const(bits(1.0));
    let root1 = arena1.push_binary(OpKind::Add, v0, c1);
    assert!(arena1.has_var(root1));

    let mut arena2 = ExprArena::new();
    let c1 = arena2.push_const(bits(1.0));
    let c2 = arena2.push_const(bits(2.0));
    let root2 = arena2.push_binary(OpKind::Add, c1, c2);
    assert!(!arena2.has_var(root2));
}

#[test]
fn verify_has_degenerate() {
    let mut arena1 = ExprArena::new();
    let root1 = arena1.push_const(bits(f32::NAN));
    assert!(arena1.has_degenerate(root1));

    let mut arena2 = ExprArena::new();
    let root2 = arena2.push_const(bits(f32::INFINITY));
    assert!(arena2.has_degenerate(root2));

    let mut arena3 = ExprArena::new();
    let v0 = arena3.push_var(0);
    let c0 = arena3.push_const(bits(0.0));
    let root3 = arena3.push_binary(OpKind::Div, v0, c0);
    assert!(arena3.has_degenerate(root3));

    let mut arena4 = ExprArena::new();
    let c0 = arena4.push_const(bits(0.0));
    let root4 = arena4.push_unary(OpKind::Recip, c0);
    assert!(arena4.has_degenerate(root4));

    let mut arena5 = ExprArena::new();
    let v0 = arena5.push_var(0);
    let c1 = arena5.push_const(bits(1.0));
    let root5 = arena5.push_binary(OpKind::Add, v0, c1);
    assert!(!arena5.has_degenerate(root5));
}

#[test]
fn clear_preserves_capacity() {
    let mut arena = ExprArena::with_capacity(64);
    let _v = arena.push_var(0);
    let _c = arena.push_const(bits(1.0));
    assert_eq!(arena.len(), 2);

    arena.clear();
    assert_eq!(arena.len(), 0);
    assert!(arena.is_empty());

    let v2 = arena.push_var(1);
    assert_eq!(v2, ExprId(0));
    assert_eq!(arena.len(), 1);
}

#[test]
fn verify_substitute_params() {
    let mut arena = ExprArena::new();
    let p0 = arena.push_param(0);
    let p1 = arena.push_param(1);
    let root = arena.push_binary(OpKind::Add, p0, p1);

    let new_root =
        arena.substitute_params(root, &[Scalar::Const(bits(10.0)), Scalar::Const(bits(20.0))]);

    match arena.node(new_root) {
        ExprNode::Binary(OpKind::Add, a, b) => {
            assert!(
                matches!(arena.node(*a), ExprNode::Const(v) if (f32::from_bits(*v) - 10.0).abs() < 1e-6)
            );
            assert!(
                matches!(arena.node(*b), ExprNode::Const(v) if (f32::from_bits(*v) - 20.0).abs() < 1e-6)
            );
        }
        other => panic!("expected Binary(Add, ...), got {:?}", other),
    }
}

#[test]
fn push_gather_should_create_node_when_valid() {
    let mut counter: u32 = 0;
    let mut arena = ExprArena::new();
    let buf = arena.declare_buffer(BufferDecl {
        id: BufferIdentity::mint(&mut counter),
        width: 16,
        height: 8,
    });
    assert_eq!(arena.buffers().len(), 1);
    assert_eq!(arena.buffer_decl(buf).width, 16);

    let x = arena.push_var(0);
    let y = arena.push_var(1);
    let gather = arena.push_gather(buf, x, y);

    assert_eq!(arena.kind(gather), OpKind::Gather);
    let children: Vec<ExprId> = arena.children(gather).collect();
    assert_eq!(children.len(), 3);
    assert!(matches!(arena.node(children[0]), ExprNode::Buffer(b) if *b == buf));
    assert_eq!(arena.kind(children[0]), OpKind::Buffer);
    assert_eq!(arena.children(children[0]).count(), 0);

    assert_eq!(shown(&arena, children[0]), "Buffer(0)");
}

#[test]
fn a_fold_carries_its_own_metadata() {
    let mut arena = ExprArena::new();
    let body = arena.push_var(REDUCE_BINDER_BASE);
    let binder = Binder::from_var(REDUCE_BINDER_BASE).expect("the first binder");
    let fold = Fold::new(Monoid::SUM, binder, 0..4);
    let red = arena.push_reduce(fold, body);

    assert_eq!(arena.kind(red), OpKind::Reduce);
    let children: Vec<ExprId> = arena.children(red).collect();
    assert_eq!(children, vec![body]);
    assert!(matches!(arena.node(red), ExprNode::Reduce { fold: f, .. } if *f == fold));
}

#[test]
fn nary() {
    let mut arena = ExprArena::new();
    let v0 = arena.push_var(0);
    let v1 = arena.push_var(1);
    let c = arena.push_const(bits(42.0));

    let tup = arena.push_nary(OpKind::Tuple, &[v0, v1, c]);
    assert_eq!(arena.kind(tup), OpKind::Tuple);

    let children: Vec<ExprId> = arena.children(tup).collect();
    assert_eq!(children, vec![v0, v1, c]);
    assert_eq!(arena.children(tup).len(), 3);
}

/// Two tuples that share their operands, and their sum.
fn shared_operands() -> ExprArena {
    ExprArena::from_raw(
        vec![
            ExprNode::Var(0),
            ExprNode::Var(1),
            ExprNode::Nary(OpKind::Tuple, 0, 2),
            ExprNode::Nary(OpKind::Tuple, 0, 2),
            ExprNode::Binary(OpKind::Add, ExprId(2), ExprId(3)),
        ],
        vec![ExprId(0), ExprId(1)],
    )
}

#[test]
fn operand_ranges_may_be_shared() {
    let arena = shared_operands();
    assert!(arena.is_well_formed());
    let mut other = ExprArena::new();
    let root = other.splice(&arena, ExprId(4));
    assert!(other.subtree_eq(root, &arena, ExprId(4)));
    let (linked, top) = arena.relink(ExprId(4), &[], &[]);
    assert!(linked.subtree_eq(top, &arena, ExprId(4)));
    let mut arena = arena;
    let two = arena.push_const(bits(2.0));
    let root = arena.substitute_vars_with(ExprId(4), &[(0, two)]);
    assert_eq!(shown(&arena, root).matches("Const(2)").count(), 2);
}

#[test]
fn raw_parts_may_be_malformed() {
    let of = |nodes: Vec<ExprNode>| ExprArena::from_raw(nodes, vec![ExprId(0)]).is_well_formed();
    assert!(of(vec![]));
    assert!(of(vec![ExprNode::Var(0), ExprNode::Unary(OpKind::Neg, ExprId(0))]));
    assert!(of(vec![ExprNode::Var(0), ExprNode::Nary(OpKind::Tuple, 0, 1)]));
    assert!(!of(vec![ExprNode::Unary(OpKind::Neg, ExprId(0))]), "an operand of itself");
    assert!(!of(vec![ExprNode::Unary(OpKind::Neg, ExprId(1)), ExprNode::Var(0)]));
    assert!(!of(vec![ExprNode::Nary(OpKind::Tuple, 0, 1)]), "an operand of itself");
    assert!(!of(vec![ExprNode::Var(0), ExprNode::Nary(OpKind::Tuple, 1, 1)]), "out of range");
    assert!(!of(vec![ExprNode::Buffer(BufferId(0))]), "nothing is declared");
    assert!(!of(vec![ExprNode::Uniform(UniformId(0))]), "nothing is declared");
}

#[test]
fn verify_display() {
    let mut arena = ExprArena::new();
    let v0 = arena.push_var(0);
    let v1 = arena.push_var(1);
    let c2 = arena.push_const(bits(2.0));
    let root = arena.push_ternary(OpKind::MulAdd, v0, v1, c2);
    assert_eq!(shown(&arena, root), "mul_add(Var(0), Var(1), Const(2))");
}

#[test]
fn size_of_expr_node() {
    assert!(
        core::mem::size_of::<ExprNode>() <= 16,
        "ExprNode is {} bytes, expected <= 16",
        core::mem::size_of::<ExprNode>()
    );
}

#[test]
fn expr_children_exact_size() {
    let mut arena = ExprArena::new();
    let v = arena.push_var(0);
    let c = arena.push_const(bits(1.0));
    let bin = arena.push_binary(OpKind::Add, v, c);

    assert_eq!(arena.children(v).len(), 0);
    assert_eq!(arena.children(bin).len(), 2);
}

/// A fragment reading one uniform.
fn uniform_fragment(decl: UniformDecl) -> (ExprArena, ExprId) {
    let mut a = ExprArena::new();
    let slot = a.declare_uniform(decl);
    let root = a.push_uniform(slot);
    (a, root)
}

fn uniform_decl(counter: &mut u32, default: f32) -> UniformDecl {
    UniformDecl { id: UniformIdentity::mint(counter), default: bits(default) }
}

#[test]
fn f32_arguments_substitute_to_the_same_arena_as_before() {
    let build = || {
        let mut a = ExprArena::new();
        let x = a.push_var(0);
        let p = a.push_param(0);
        let root = a.push_binary(OpKind::Mul, x, p);
        (a, root)
    };
    let (mut folded, root) = build();
    let folded_root = folded.substitute_params(root, &[Scalar::Const(bits(2.5))]);
    let (mut by_hand, root) = build();
    let x = by_hand.push_var(0);
    let c = by_hand.push_const(bits(2.5));
    let hand_root = by_hand.push_binary(OpKind::Mul, x, c);
    let _ = root;
    assert_eq!(folded.nodes(), by_hand.nodes());
    assert_eq!(folded_root, hand_root);
    assert!(folded.uniforms().is_empty());
}

#[test]
fn subtree_eq_distinguishes_uniform_declarations() {
    let mut counter: u32 = 0;
    let (a, ra) = uniform_fragment(uniform_decl(&mut counter, 1.0));
    let (b, rb) = uniform_fragment(uniform_decl(&mut counter, 1.0));
    assert!(a.subtree_eq(ra, &a, ra));
    assert!(!a.subtree_eq(ra, &b, rb), "same slot, different instance");
}

#[test]
fn minted_identities_differ() {
    let mut counter: u32 = 7;
    let a = BufferIdentity::mint(&mut counter);
    let b = BufferIdentity::mint(&mut counter);
    assert_ne!(a, b);
    assert_eq!(counter, 9);
    let u = UniformIdentity::mint(&mut counter);
    let v = UniformIdentity::mint(&mut counter);
    assert_ne!(u, v);
}

#[test]
fn splicing_merges_buffers_by_identity() {
    let mut counter: u32 = 0;
    let id = BufferIdentity::mint(&mut counter);
    let decl = BufferDecl { id, width: 4, height: 2 };

    let mut donor = ExprArena::new();
    let buf = donor.declare_buffer(decl);
    let x = donor.push_var(0);
    let y = donor.push_var(1);
    let read = donor.push_gather(buf, x, y);

    let mut host = ExprArena::new();
    let _ = host.declare_buffer(decl);
    let first = host.splice(&donor, read);
    let second = host.splice(&donor, read);
    assert_eq!(host.buffers().len(), 1);
    assert!(host.subtree_eq(first, &donor, read));
    assert!(host.subtree_eq(first, &host, second));
}

#[test]
fn substituting_a_uniform_declares_it_once() {
    let mut counter: u32 = 0;
    let decl = uniform_decl(&mut counter, 0.5);
    let mut arena = ExprArena::new();
    let p0 = arena.push_param(0);
    let p1 = arena.push_param(1);
    let root = arena.push_binary(OpKind::Mul, p0, p1);
    let u = Scalar::Uniform(Uniform(decl));
    let new_root = arena.substitute_params(root, &[u, u]);
    assert_eq!(arena.uniforms().len(), 1);
    assert_eq!(shown(&arena, new_root), "mul(Uniform(0), Uniform(0))");
}

#[test]
fn substituting_a_variable_keeps_the_others() {
    let mut arena = ExprArena::new();
    let x = arena.push_var(0);
    let y = arena.push_var(1);
    let sum = arena.push_binary(OpKind::Add, x, y);
    let half = arena.push_const(bits(0.5));
    let new_root = arena.substitute_vars_with(sum, &[(0, half)]);
    assert_eq!(shown(&arena, new_root), "add(Const(0.5), Var(1))");
    assert_eq!(shown(&arena, sum), "add(Var(0), Var(1))");
}

#[test]
fn the_variable_search_looks_at_the_last_operand_first() {
    let mut arena = ExprArena::new();
    let x = arena.push_var(0);
    let k = arena.push_var(REDUCE_BINDER_BASE);
    let l = arena.push_var(REDUCE_BINDER_BASE + 1);
    let inner = arena.push_binary(OpKind::Mul, k, l);
    let root = arena.push_binary(OpKind::Add, inner, x);
    let floor = REDUCE_BINDER_BASE;
    assert_eq!(arena.free_var_at_or_above(root, floor), Some(REDUCE_BINDER_BASE + 1));
    assert_eq!(arena.free_var_at_or_above(root, floor + 2), None);
    assert_eq!(arena.free_var_at_or_above(x, floor), None);
}

#[test]
fn postorder_visits_operands_first_and_once() {
    let mut arena = ExprArena::new();
    let x = arena.push_var(0);
    let sq = arena.push_binary(OpKind::Mul, x, x);
    let root = arena.push_binary(OpKind::Add, sq, sq);
    assert_eq!(arena.postorder(root), vec![x, sq, root]);
}

#[test]
fn relinking_drops_what_is_not_reached() {
    let mut arena = ExprArena::new();
    let x = arena.push_var(0);
    let _garbage = arena.push_const(bits(9.0));
    let root = arena.push_unary(OpKind::Neg, x);
    let (linked, new_root) = arena.relink(root, &[], &[]);
    assert_eq!(linked.len(), 2);
    assert!(linked.subtree_eq(new_root, &arena, root));
}

#[test]
fn constants_are_equal_as_numbers() {
    let c = |v: f32| ExprNode::Const(bits(v));
    assert_eq!(c(1.5), c(1.5));
    assert_ne!(c(1.5), c(-1.5));
    assert_eq!(c(0.0), c(-0.0));
    assert_eq!(c(f32::INFINITY), c(f32::INFINITY));
    assert_ne!(c(f32::INFINITY), c(f32::NEG_INFINITY));
    assert_ne!(c(f32::NAN), c(f32::NAN));
    assert_ne!(c(f32::NAN), c(0.0));
    assert_ne!(ExprNode::Const(0), ExprNode::Var(0));
    assert_eq!(ExprNode::Var(3), ExprNode::Var(3));
    assert_ne!(ExprNode::Var(3), ExprNode::Var(2));
}
