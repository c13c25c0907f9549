use pixelflow_ir::backend::arm::Neon;
use pixelflow_ir::backend::lanes::{F32x4, Mask4, MaskPrimitives, U32x4};
use pixelflow_ir::backend::wasm::Wasm;

fn lanes(v: [f32; 4]) -> F32x4 {
    F32x4(v.map(f32::to_bits))
}

fn floats(v: F32x4) -> [f32; 4] {
    v.to_array().map(f32::from_bits)
}

const SAMPLES: [f32; 12] = [
    0.0,
    -0.0,
    1.0,
    -1.0,
    0.5,
    1.0e-40,
    -1.0e-40,
    3.4e38,
    -3.4e38,
    f32::INFINITY,
    f32::NEG_INFINITY,
    f32::NAN,
];

#[test]
fn comparisons_agree_with_floats() {
    for a in SAMPLES {
        for b in SAMPLES {
            let (x, y) = (lanes([a; 4]), lanes([b; 4]));
            let all = |m: Mask4| m.all();
            assert_eq!(all(x.cmp_lt(y)), a < b, "{a} < {b}");
            assert_eq!(all(x.cmp_le(y)), a <= b, "{a} <= {b}");
            assert_eq!(all(x.cmp_gt(y)), a > b, "{a} > {b}");
            assert_eq!(all(x.cmp_ge(y)), a >= b, "{a} >= {b}");
            assert_eq!(all(x.cmp_eq(y)), a == b, "{a} == {b}");
            assert_eq!(all(x.cmp_ne(y)), a != b, "{a} != {b}");
        }
    }
}

#[test]
fn masks_choose_lanes() {
    let a = lanes([1.0, 2.0, 3.0, 4.0]);
    let b = lanes([4.0, 3.0, 2.0, 1.0]);
    let m = a.cmp_lt(b);
    assert!(m.any());
    assert!(!m.all());
    assert_eq!(floats(F32x4::simd_select(m, a, b)), [1.0, 2.0, 2.0, 1.0]);
    assert_eq!(floats(F32x4::simd_select(!m, a, b)), [4.0, 3.0, 3.0, 4.0]);
    assert!((m | !m).all());
    assert!(!(m & !m).any());
    assert_eq!(F32x4::mask_to_float(m).float_to_mask().0, m.0);
}

#[test]
fn signs_are_flipped_and_dropped() {
    let v = lanes([1.5, -2.0, 0.0, -0.0]);
    assert_eq!(floats(-v), [-1.5, 2.0, -0.0, 0.0]);
    assert_eq!((-v).0[2], 0x8000_0000);
    assert_eq!(floats(v.simd_abs()), [1.5, 2.0, 0.0, 0.0]);
    assert_eq!(v.simd_abs().0[3], 0);
}

#[test]
fn gathers_hold_the_index_to_the_slice() {
    let table = [10, 20, 30];
    let v = F32x4::gather(&table, lanes([0.0, 1.9, 2.0, 7.5]));
    assert_eq!(v.0, [10, 20, 30, 30]);
    let v = F32x4::gather(&table, lanes([-1.0, f32::NAN, f32::INFINITY, 1.0e30]));
    assert_eq!(v.0, [10, 10, 30, 30]);
    let v = F32x4::gather(&table, lanes([0.99, 1.0, f32::NEG_INFINITY, 1.0e10]));
    assert_eq!(v.0, [10, 20, 10, 30]);
}

#[test]
fn slices_are_read_and_written() {
    let v = F32x4::from_slice(&[1, 2, 3, 4, 5]);
    assert_eq!(v.to_array(), [1, 2, 3, 4]);
    let mut out = [9; 5];
    U32x4([5, 6, 7, 8]).store(&mut out);
    assert_eq!(out, [5, 6, 7, 8, 9]);
    assert_eq!(U32x4::splat(3).to_array(), [3; 4]);
    assert_eq!(F32x4::from_u32_bits(7).to_array(), [7; 4]);
}

/// A channel as float arithmetic computes it.
fn channel(v: f32) -> u32 {
    (v.max(0.0).min(1.0) * 255.0) as u32
}

#[test]
fn pixels_are_packed_red_lowest() {
    let p = U32x4::pack_rgba(
        lanes([1.0, 0.0, 0.5, 2.0]),
        lanes([0.0, 1.0, 0.25, -1.0]),
        lanes([0.0, 0.0, 0.1, f32::INFINITY]),
        lanes([1.0, 1.0, 0.999, 1.0e-40]),
    );
    assert_eq!(p.0[0], 0xFF00_00FF);
    assert_eq!(p.0[1], 0xFF00_FF00);
    assert_eq!(p.0[2], 127 | 63 << 8 | 25 << 16 | 254 << 24);
    assert_eq!(p.0[3], 0x00FF_00FF);
    let mut bits: u32 = 1;
    for _ in 0..20_000 {
        bits = bits.wrapping_mul(1_664_525).wrapping_add(1_013_904_223);
        let v = f32::from_bits(bits & 0x3FFF_FFFF);
        let x = lanes([v; 4]);
        let zero = lanes([0.0; 4]);
        assert_eq!(U32x4::pack_rgba(x, zero, zero, zero).0[0], channel(v), "{v}");
    }
}

#[test]
fn shifts_follow_their_machine() {
    let v = U32x4([1, 2, 0x8000_0000, 0xFFFF_FFFF]);
    assert_eq!(Neon::shl(v, 4).0, [16, 32, 0, 0xFFFF_FFF0]);
    assert_eq!(Neon::shr(v, 4).0, [0, 0, 0x0800_0000, 0x0FFF_FFFF]);
    assert_eq!(Neon::shl(v, 32).0, [0; 4]);
    assert_eq!(Neon::shr(v, 0).0, v.0);
    assert_eq!(Neon::shr_u32(F32x4(v.0), 31).0, [0, 0, 1, 1]);
    assert_eq!(Wasm::shl(v, 4).0, [16, 32, 0, 0xFFFF_FFF0]);
    assert_eq!(Wasm::shr(v, 4).0, [0, 0, 0x0800_0000, 0x0FFF_FFFF]);
    assert_eq!(Wasm::shl(v, 33).0, [2, 4, 0, 0xFFFF_FFFE], "the count is taken modulo 32");
    assert_eq!(Wasm::shr_u32(F32x4(v.0), 31).0, [0, 0, 1, 1]);
}
