use pixelflow_ir::arena::{
    BufferDecl, BufferId, BufferIdentity, UniformDecl, UniformId, UniformIdentity,
};
use pixelflow_ir::binding::{BindError, BindingTable};
use pixelflow_ir::expr::Environment;

fn bits(v: f32) -> u32 {
    v.to_bits()
}

/// Two buffers, of six and two samples, and two uniforms.
fn environment(counter: &mut u32) -> Environment {
    Environment {
        buffers: vec![
            BufferDecl { id: BufferIdentity::mint(counter), width: 3, height: 2 },
            BufferDecl { id: BufferIdentity::mint(counter), width: 1, height: 2 },
        ],
        uniforms: vec![
            UniformDecl { id: UniformIdentity::mint(counter), default: bits(0.25) },
            UniformDecl { id: UniformIdentity::mint(counter), default: bits(4.0) },
        ],
    }
}

#[test]
fn matching_slices_are_bound_in_order() {
    let mut counter = 0;
    let env = environment(&mut counter);
    let (a, b) = ([1, 2, 3, 4, 5, 6], [7, 8]);
    let table = BindingTable::bind(&env, &[&a, &b]).expect("lengths match");
    assert_eq!(table.slot(BufferId(0)), &a);
    assert_eq!(table.slot(BufferId(1)), &b);
    assert_eq!(table.uniform(UniformId(0)), None);
}

#[test]
fn a_wrong_number_of_slices_is_refused() {
    let mut counter = 0;
    let env = environment(&mut counter);
    let a = [0; 6];
    let e = BindingTable::bind(&env, &[&a]).err().expect("one slice is missing");
    assert_eq!(e, BindError::Count { declared: 2, supplied: 1 });
    assert_eq!(
        e.message(),
        "binding count mismatch: graph declares 2 buffer(s), 1 supplied"
    );
}

#[test]
fn the_first_slice_of_a_wrong_length_is_named() {
    let mut counter = 0;
    let env = environment(&mut counter);
    let (a, b) = ([0; 6], [0; 5]);
    let e = BindingTable::bind(&env, &[&a, &b]).err().expect("the second is too long");
    assert_eq!(e, BindError::Length { slot: 1, expected: 2, actual: 5 });
    assert_eq!(e.message(), "buffer slot 1: declared length 2, bound slice has 5");
    let e = BindingTable::bind(&env, &[&b, &b]).err().expect("both are wrong");
    assert_eq!(e, BindError::Length { slot: 0, expected: 6, actual: 5 });
}

#[test]
fn uniforms_are_bound_by_identity() {
    let mut counter = 0;
    let env = environment(&mut counter);
    let second = env.uniforms[1].id;
    let table =
        BindingTable::empty().bind_uniforms(&env, &[(second, bits(9.0))]).expect("declared");
    assert_eq!(table.uniform(UniformId(0)), Some(bits(0.25)), "the default");
    assert_eq!(table.uniform(UniformId(1)), Some(bits(9.0)));
    assert_eq!(table.uniform(UniformId(2)), None);

    // Binding again keeps what was bound; the last of two values holds.
    let first = env.uniforms[0].id;
    let table = table
        .bind_uniforms(&env, &[(first, bits(1.0)), (first, bits(2.0))])
        .expect("declared");
    assert_eq!(table.uniform(UniformId(0)), Some(bits(2.0)));
    assert_eq!(table.uniform(UniformId(1)), Some(bits(9.0)));
}

#[test]
fn an_undeclared_uniform_is_refused() {
    let mut counter = 0;
    let env = environment(&mut counter);
    let stranger = UniformIdentity::mint(&mut counter);
    let e = BindingTable::empty()
        .bind_uniforms(&env, &[(stranger, bits(1.0))])
        .err()
        .expect("not declared");
    assert_eq!(e, BindError::Uniform(stranger));
    assert!(e.message().ends_with(") is not a uniform this arena declares"));
}
