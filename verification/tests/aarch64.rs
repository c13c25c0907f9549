use pixelflow_ir::backend::emit::aarch64::{
    disassemble_code, emit_epilogue, emit_fadd, emit_fmla, emit_fmov_imm, emit_fmul, emit_fsqrt,
    emit_shl, emit_ushr, try_encode_fmov_imm8, Aarch64Asm,
};
use pixelflow_ir::backend::emit::Reg;

fn bits(v: f32) -> u32 {
    v.to_bits()
}

#[test]
fn fmov_imm8_common_values() {
    // Encodable values — imm8 derived from ARM ARM bit layout:
    //   f32 = [a][NOT(b)][bbbbb][cdefgh][19 zeros]
    //   imm8 = a:b:c:d:e:f:g:h
    assert_eq!(try_encode_fmov_imm8(bits(2.0)), Some(0x00)); // 0x40000000
    assert_eq!(try_encode_fmov_imm8(bits(0.5)), Some(0x60)); // 0x3F000000
    assert_eq!(try_encode_fmov_imm8(bits(1.0)), Some(0x70)); // 0x3F800000
    assert_eq!(try_encode_fmov_imm8(bits(1.5)), Some(0x78)); // 0x3FC00000
    assert_eq!(try_encode_fmov_imm8(bits(-1.0)), Some(0xF0)); // 0xBF800000
    assert_eq!(try_encode_fmov_imm8(bits(-0.5)), Some(0xE0)); // 0xBF000000
    assert_eq!(try_encode_fmov_imm8(bits(-2.0)), Some(0x80)); // 0xC0000000
    assert_eq!(try_encode_fmov_imm8(bits(4.0)), Some(0x10)); // 0x40800000

    // More encodable values
    assert_eq!(try_encode_fmov_imm8(bits(3.0)), Some(0x08)); // 0x40400000
    assert_eq!(try_encode_fmov_imm8(bits(0.25)), Some(0x50)); // 0x3E800000
    assert_eq!(try_encode_fmov_imm8(bits(0.125)), Some(0x40)); // 0x3E000000

    // Non-encodable values
    assert_eq!(try_encode_fmov_imm8(bits(0.0)), None);
    assert_eq!(try_encode_fmov_imm8(bits(-0.0)), None);
    assert_eq!(try_encode_fmov_imm8(bits(0.1)), None);
    assert_eq!(try_encode_fmov_imm8(bits(f32::NAN)), None);
    assert_eq!(try_encode_fmov_imm8(bits(f32::INFINITY)), None);
    assert_eq!(try_encode_fmov_imm8(bits(100.0)), None);
}

#[test]
fn fmov_imm8_roundtrip() {
    // Every valid imm8 should encode a value that round-trips
    for imm8 in 0..=255u8 {
        let a = (imm8 >> 7) & 1;
        let b = (imm8 >> 6) & 1;
        let not_b = b ^ 1;
        let cdefgh = imm8 & 0x3F;

        let mut bits: u32 = 0;
        bits |= (a as u32) << 31;
        bits |= (not_b as u32) << 30;
        // bits[29:25] = bbbbb
        let rep5 = if b == 1 { 0x1F_u32 } else { 0x00 };
        bits |= rep5 << 25;
        bits |= (cdefgh as u32) << 19;
        // bits[18:0] = 0

        let val = f32::from_bits(bits);
        let result = try_encode_fmov_imm8(val.to_bits());
        assert_eq!(
            result,
            Some(imm8),
            "imm8={imm8:#04x} -> f32={val} ({bits:#010x}) did not roundtrip"
        );
    }
}

#[test]
fn emit_fmov_imm_uses_single_instruction_for_encodable() {
    let mut code = Vec::new();
    let dst = Reg(0);
    let scratch = [Reg(16), Reg(17), Reg(18), Reg(19)];

    // 1.0 is FMOV-encodable → should emit exactly 1 instruction (4 bytes)
    emit_fmov_imm(&mut code, dst, bits(1.0), scratch);
    assert_eq!(
        code.len(),
        4,
        "FMOV-encodable value should emit 1 instruction"
    );

    // Verify the encoding: 0x4F00F400 | (abc<<16) | (defgh<<5) | Rd
    // imm8=0x70=0b01110000, abc=011=3, defgh=10000=16
    let inst = u32::from_le_bytes(code[..4].try_into().unwrap());
    assert_eq!(inst, 0x4F03_F600, "FMOV V0.4S, #1.0 encoding");
}

#[test]
fn emit_fmov_imm_zero_is_movi() {
    let mut code = Vec::new();
    emit_fmov_imm(&mut code, Reg(0), bits(0.0), [Reg(16), Reg(17), Reg(18), Reg(19)]);
    assert_eq!(code.len(), 4, "zero should emit 1 instruction (MOVI)");
}

#[test]
fn emit_fmov_imm_fallback_for_non_encodable() {
    let mut code = Vec::new();
    emit_fmov_imm(
        &mut code,
        Reg(0),
        bits(core::f32::consts::PI),
        [Reg(16), Reg(17), Reg(18), Reg(19)],
    );
    assert_eq!(
        code.len(),
        12,
        "non-encodable should emit 3 instructions (MOVZ+MOVK+DUP)"
    );
}

// =====================================================================
// Aarch64Asm tests
// =====================================================================

#[test]
fn asm_new_is_empty() {
    let a64 = Aarch64Asm::new();
    assert_eq!(a64.offset(), 0);
    assert!(a64.code().is_empty());
}

#[test]
fn asm_with_capacity() {
    let a64 = Aarch64Asm::with_capacity(256);
    assert_eq!(a64.offset(), 0);
}

#[test]
fn asm_fadd_matches_free_function() {
    let mut a64 = Aarch64Asm::new();
    a64.fadd(Reg(0), Reg(1), Reg(2));

    let mut raw = Vec::new();
    emit_fadd(&mut raw, Reg(0), Reg(1), Reg(2));

    assert_eq!(
        a64.code(),
        raw.as_slice(),
        "Aarch64Asm::fadd must match emit_fadd"
    );
}

#[test]
fn asm_sequence_matches_free_functions() {
    let mut a64 = Aarch64Asm::new();
    a64.fmul(Reg(4), Reg(0), Reg(0));
    a64.fmla(Reg(4), Reg(1), Reg(1));
    a64.fsqrt(Reg(4), Reg(4));
    a64.epilogue(Reg(4));

    let mut raw = Vec::new();
    emit_fmul(&mut raw, Reg(4), Reg(0), Reg(0));
    emit_fmla(&mut raw, Reg(4), Reg(1), Reg(1));
    emit_fsqrt(&mut raw, Reg(4), Reg(4));
    emit_epilogue(&mut raw, Reg(4));

    assert_eq!(
        a64.code(),
        raw.as_slice(),
        "Aarch64Asm sequence must be byte-identical to free function sequence"
    );
}

#[test]
fn asm_into_code_returns_buffer() {
    let mut a64 = Aarch64Asm::new();
    a64.ret();
    let code = a64.into_code();
    assert_eq!(code.len(), 4);
    let word = u32::from_le_bytes(code[..4].try_into().unwrap());
    assert_eq!(word, 0xD65F03C0, "RET encoding");
}

#[test]
fn asm_load_const_zero() {
    let mut a64 = Aarch64Asm::new();
    a64.load_const(Reg(5), bits(0.0));
    assert_eq!(
        a64.offset(),
        4,
        "zero constant should be 1 instruction (MOVI)"
    );
}

#[test]
fn asm_load_const_one() {
    let mut a64 = Aarch64Asm::new();
    a64.load_const(Reg(5), bits(1.0));
    assert_eq!(a64.offset(), 4, "1.0 should be 1 instruction (FMOV imm)");
}

#[test]
fn asm_load_const_general() {
    let mut a64 = Aarch64Asm::new();
    a64.load_const(Reg(5), bits(core::f32::consts::PI));
    assert_eq!(
        a64.offset(),
        12,
        "PI should be 3 instructions (MOVZ+MOVK+DUP)"
    );
}

#[test]
fn asm_all_arithmetic_ops() {
    let mut a64 = Aarch64Asm::new();
    let d = Reg(4);
    let a = Reg(0);
    let b = Reg(1);
    a64.fadd(d, a, b);
    a64.fsub(d, a, b);
    a64.fmul(d, a, b);
    a64.fdiv(d, a, b);
    a64.fmin(d, a, b);
    a64.fmax(d, a, b);
    // 6 instructions = 24 bytes
    assert_eq!(a64.offset(), 24);
}

#[test]
fn asm_all_unary_ops() {
    let mut a64 = Aarch64Asm::new();
    let d = Reg(4);
    let s = Reg(0);
    a64.fsqrt(d, s);
    a64.fabs(d, s);
    a64.fneg(d, s);
    a64.not(d, s);
    a64.frintm(d, s);
    a64.frintp(d, s);
    a64.frinta(d, s);
    // 7 instructions = 28 bytes
    assert_eq!(a64.offset(), 28);
}

#[test]
fn asm_comparison_and_select() {
    let mut a64 = Aarch64Asm::new();
    let d = Reg(4);
    let a = Reg(0);
    let b = Reg(1);
    let c = Reg(2);
    a64.fcmgt(d, a, b);
    a64.fcmge(d, a, b);
    a64.fcmeq(d, a, b);
    a64.bsl(d, b, c);
    assert_eq!(a64.offset(), 16);
}

#[test]
fn asm_branch_patching() {
    let mut a64 = Aarch64Asm::new();
    a64.fadd(Reg(0), Reg(1), Reg(2)); // offset 0
    let patch = a64.cbz_w16(); // offset 4
    a64.fadd(Reg(0), Reg(1), Reg(2)); // offset 8
    let target = a64.offset(); // offset 12
    a64.patch_cbz_cbnz(patch, target);

    // Verify the CBZ was patched (offset from 4 to 12 = 8 bytes = 2 instructions)
    let word = u32::from_le_bytes(a64.code()[4..8].try_into().unwrap());
    let imm19 = (word >> 5) & 0x7FFFF;
    assert_eq!(imm19, 2, "CBZ should encode +2 instructions forward");
}

// =====================================================================
// Disassembler tests
// =====================================================================

#[test]
fn disassemble_ret() {
    let mut a64 = Aarch64Asm::new();
    a64.ret();
    let dis = a64.disassemble();
    assert!(
        dis.contains("ret"),
        "disassembly should contain 'ret', got: {dis}"
    );
}

#[test]
fn disassemble_fadd() {
    let mut a64 = Aarch64Asm::new();
    a64.fadd(Reg(0), Reg(1), Reg(2));
    let dis = a64.disassemble();
    assert!(
        dis.contains("fadd v0.4s, v1.4s, v2.4s"),
        "expected fadd decode, got: {dis}"
    );
}

// Round-trip the NEON shift-by-immediate encoders through the disassembler.
// These guard the `immh` arrangement bits in the decoder masks: the `.4S`
// form sets immh = 01xx, so emitted words have bits[23:21] = 001. A mask
// that ignores those bits either never matches or takes the 64-bit `.2D` form
// for `.4s`.
#[test]
fn disassemble_ushr() {
    let mut code = Vec::new();
    emit_ushr(&mut code, Reg(0), Reg(0), 23); // used by the log2 lowering
    let dis = disassemble_code(&code);
    assert!(
        dis.contains("ushr v0.4s, v0.4s, #23"),
        "expected ushr decode, got: {dis}"
    );
}

#[test]
fn disassemble_shl() {
    let mut code = Vec::new();
    emit_shl(&mut code, Reg(1), Reg(2), 8);
    let dis = disassemble_code(&code);
    assert!(
        dis.contains("shl v1.4s, v2.4s, #8"),
        "expected shl decode, got: {dis}"
    );
}

#[test]
fn disassemble_mov_vec() {
    let mut a64 = Aarch64Asm::new();
    a64.mov_vec(Reg(5), Reg(3));
    let dis = a64.disassemble();
    assert!(
        dis.contains("mov v5.16b, v3.16b"),
        "expected mov decode, got: {dis}"
    );
}

#[test]
fn disassemble_sequence() {
    let mut a64 = Aarch64Asm::new();
    a64.fmul(Reg(4), Reg(0), Reg(0));
    a64.fsqrt(Reg(4), Reg(4));
    a64.ret();
    let dis = a64.disassemble();
    assert!(dis.contains("fmul"), "missing fmul in: {dis}");
    assert!(dis.contains("fsqrt"), "missing fsqrt in: {dis}");
    assert!(dis.contains("ret"), "missing ret in: {dis}");
}

#[test]
fn disassemble_zero_const() {
    let mut a64 = Aarch64Asm::new();
    a64.load_const(Reg(0), bits(0.0));
    let dis = a64.disassemble();
    assert!(
        dis.contains("movi"),
        "zero should decode as movi, got: {dis}"
    );
}

#[test]
fn disassemble_ldr_str() {
    let mut a64 = Aarch64Asm::new();
    a64.ldr_voff(Reg(0), 32);
    a64.str_voff(Reg(1), 48);
    let dis = a64.disassemble();
    assert!(dis.contains("ldr"), "missing ldr in: {dis}");
    assert!(dis.contains("str"), "missing str in: {dis}");
}

#[test]
fn disassemble_code_empty() {
    let dis = disassemble_code(&[]);
    assert!(
        dis.is_empty(),
        "empty code should produce empty disassembly"
    );
}

#[test]
fn disassemble_code_short_chunk() {
    // Less than 4 bytes should produce nothing
    let dis = disassemble_code(&[0x00, 0x01]);
    assert!(
        dis.is_empty(),
        "short chunk should produce empty disassembly"
    );
}

#[test]
fn disassemble_offsets_are_sequential() {
    let mut a64 = Aarch64Asm::new();
    a64.fadd(Reg(0), Reg(1), Reg(2));
    a64.fsub(Reg(0), Reg(1), Reg(2));
    a64.ret();
    let dis = a64.disassemble();
    // Lines should start with offsets 0, 4, 8
    assert!(
        dis.starts_with("   0:"),
        "first line should start at offset 0, got: {dis}"
    );
    let lines: Vec<&str> = dis.lines().collect();
    assert_eq!(lines.len(), 3);
    assert!(
        lines[1].starts_with("   4:"),
        "second line should start at offset 4"
    );
    assert!(
        lines[2].starts_with("   8:"),
        "third line should start at offset 8"
    );
}
