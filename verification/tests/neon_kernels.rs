//! Emitted AArch64 kernels, run by a small interpreter of the instructions that
//! the encoders produce.

use pixelflow_ir::arena::{ExprArena, ExprId};
use pixelflow_ir::backend::emit::aarch64::emit32;
use pixelflow_ir::backend::emit::aarch64::scanline::{
    emit_scanline_epilogue_hoisted, emit_scanline_loop_hoisted, emit_scanline_prologue_hoisted,
};
use pixelflow_ir::backend::emit::driver::compile_dag_via_backend;
use pixelflow_ir::backend::emit::isa::Aarch64Backend;
use pixelflow_ir::backend::emit::kernels::neon::{
    compile_arena_dag, compile_arena_dag_scanline, compile_arena_dag_scanline_with_ctx,
    compile_arena_dag_with_ctx,
};
use pixelflow_ir::backend::emit::regalloc::ValueId;
use pixelflow_ir::backend::emit::{arena_to_uses, EmitCtx, Reg, ScheduledOp};
use pixelflow_ir::kind::OpKind;

fn bits(v: f32) -> u32 {
    v.to_bits()
}

fn f(v: u32) -> f32 {
    f32::from_bits(v)
}

/// Where the code lies.
const CODE: u64 = 0x10_0000;

/// Where the stack pointer starts.
const STACK: u64 = 0x8000;

/// Registers and memory of the interpreter. Register 31 is the stack pointer.
struct Machine {
    v: [[u32; 4]; 32],
    x: [u64; 32],
    zero: bool,
    mem: Vec<u8>,
    ran: Vec<u32>,
}

fn word(bytes: &[u8], at: usize) -> u32 {
    u32::from_le_bytes([bytes[at], bytes[at + 1], bytes[at + 2], bytes[at + 3]])
}

/// The low `n` bits of a field at `at`, sign-extended.
fn signed(w: u32, at: u32, n: u32) -> i64 {
    let field = (w >> at) as i64 & ((1 << n) - 1);
    if field >> (n - 1) == 1 {
        field - (1 << n)
    } else {
        field
    }
}

fn ones(b: bool) -> u32 {
    if b {
        u32::MAX
    } else {
        0
    }
}

/// A lane of a three-register instruction; `d` is the old destination.
fn lane3(key: u32, d: u32, a: u32, b: u32) -> Option<u32> {
    Some(match key {
        0x4E20D400 => bits(f(a) + f(b)),
        0x4EA0D400 => bits(f(a) - f(b)),
        0x6E20DC00 => bits(f(a) * f(b)),
        0x6E20FC00 => bits(f(a) / f(b)),
        0x4E20CC00 => bits(f(a).mul_add(f(b), f(d))),
        0x4EA0F400 => bits(f(a).min(f(b))),
        0x4E20F400 => bits(f(a).max(f(b))),
        0x6EA0E400 => ones(f(a) > f(b)),
        0x6E20E400 => ones(f(a) >= f(b)),
        0x4E20E400 => ones(f(a) == f(b)),
        0x6E601C00 => (d & a) | (!d & b),
        0x4E201C00 => a & b,
        0x4EA01C00 => a | b,
        0x4EA08400 => a.wrapping_add(b),
        0x6EA08400 => a.wrapping_sub(b),
        0x4EA0FC00 => bits((3.0 - f(a) * f(b)) / 2.0),
        0x4E20FC00 => bits(2.0 - f(a) * f(b)),
        _ => return None,
    })
}

/// A lane of a two-register instruction.
fn lane2(key: u32, a: u32) -> Option<u32> {
    Some(match key {
        0x6EA1F800 => bits(f(a).sqrt()),
        0x4EA0F800 => bits(f(a).abs()),
        0x6EA0F800 => bits(-f(a)),
        0x6E205800 => !a,
        0x4E219800 => bits(f(a).floor()),
        0x4EA18800 => bits(f(a).ceil()),
        0x6E218800 => bits(f(a).round()),
        0x6EA1D800 => bits(1.0 / f(a).sqrt()),
        0x4EA1D800 => bits(1.0 / f(a)),
        0x4EA1B800 => f(a) as i32 as u32,
        0x4E21D800 => bits(a as i32 as f32),
        _ => return None,
    })
}

impl Machine {
    fn new() -> Machine {
        let mut x = [0; 32];
        x[31] = STACK;
        let mem = vec![0; 2 * STACK as usize];
        Machine { v: [[0x7FC0_1234; 4]; 32], x, zero: false, mem, ran: Vec::new() }
    }

    fn load(&self, code: &[u8], at: u64) -> [u32; 4] {
        let (bytes, at) = if at >= CODE {
            (code, (at - CODE) as usize)
        } else {
            (&self.mem[..], at as usize)
        };
        [word(bytes, at), word(bytes, at + 4), word(bytes, at + 8), word(bytes, at + 12)]
    }

    fn store(&mut self, at: u64, value: [u32; 4]) {
        for i in 0..4 {
            let p = at as usize + 4 * i;
            self.mem[p..p + 4].copy_from_slice(&value[i].to_le_bytes());
        }
    }

    fn load_x(&self, at: u64) -> u64 {
        word(&self.mem, at as usize) as u64 | (word(&self.mem, at as usize + 4) as u64) << 32
    }

    fn store_x(&mut self, at: u64, value: u64) {
        self.mem[at as usize..at as usize + 8].copy_from_slice(&value.to_le_bytes());
    }

    fn run(&mut self, code: &[u8]) {
        let mut pc: usize = 0;
        let mut steps = 0;
        while word(code, pc) != 0xD65F03C0 {
            self.ran.push(word(code, pc));
            pc = self.step(code, pc);
            steps += 1;
            assert!(steps < 1_000_000, "kernel does not end");
        }
        assert_eq!(self.x[31], STACK, "stack pointer restored");
    }

    fn step(&mut self, code: &[u8], pc: usize) -> usize {
        let w = word(code, pc);
        let d = (w & 31) as usize;
        let n = (w >> 5 & 31) as usize;
        let m = (w >> 16 & 31) as usize;
        let next = pc + 4;
        let target = |taken: bool, at: u32, len: u32| {
            if taken {
                (pc as i64 + 4 * signed(w, at, len)) as usize
            } else {
                next
            }
        };
        let imm12 = (w >> 10 & 0xFFF) as u64;
        let imm12 = if w >> 22 & 1 == 1 { imm12 << 12 } else { imm12 };
        let pair = signed(w, 15, 7);
        let t2 = (w >> 10 & 31) as usize;

        if lane3(w & 0xFFE0FC00, 0, 0, 0).is_some() {
            for i in 0..4 {
                let out = lane3(w & 0xFFE0FC00, self.v[d][i], self.v[n][i], self.v[m][i]);
                self.v[d][i] = out.unwrap();
            }
            return next;
        }
        if lane2(w & 0xFFFFFC00, 0).is_some() {
            for i in 0..4 {
                self.v[d][i] = lane2(w & 0xFFFFFC00, self.v[n][i]).unwrap();
            }
            return next;
        }
        match w & 0xFFFFFC00 {
            0x6EB1A800 => {
                let least = *self.v[n].iter().min().unwrap();
                self.v[d] = [least, 0, 0, 0];
                return next;
            }
            0x6EB0A800 => {
                let most = *self.v[n].iter().max().unwrap();
                self.v[d] = [most, 0, 0, 0];
                return next;
            }
            0x1E260000 => {
                self.x[d] = self.v[n][0] as u64;
                return next;
            }
            0x4E040400 => {
                self.v[d] = [self.v[n][0]; 4];
                return next;
            }
            0x4E040C00 => {
                self.v[d] = [self.x[n] as u32; 4];
                return next;
            }
            0x3CC10400 => {
                self.v[d] = self.load(code, self.x[n]);
                self.x[n] += 16;
                return next;
            }
            0x3C810400 => {
                self.store(self.x[n], self.v[d]);
                self.x[n] += 16;
                return next;
            }
            _ => {}
        }
        match w & 0xFFC00000 {
            0x3DC00000 => {
                self.v[d] = self.load(code, self.x[n] + 16 * (w >> 10 & 0xFFF) as u64);
                return next;
            }
            0x3D800000 => {
                self.store(self.x[n] + 16 * (w >> 10 & 0xFFF) as u64, self.v[d]);
                return next;
            }
            0xA9800000 => {
                self.x[n] = (self.x[n] as i64 + 8 * pair) as u64;
                self.store_x(self.x[n], self.x[d]);
                self.store_x(self.x[n] + 8, self.x[t2]);
                return next;
            }
            0xA9000000 => {
                let at = (self.x[n] as i64 + 8 * pair) as u64;
                self.store_x(at, self.x[d]);
                self.store_x(at + 8, self.x[t2]);
                return next;
            }
            0xA9400000 => {
                let at = (self.x[n] as i64 + 8 * pair) as u64;
                self.x[d] = self.load_x(at);
                self.x[t2] = self.load_x(at + 8);
                return next;
            }
            0xA8C00000 => {
                self.x[d] = self.load_x(self.x[n]);
                self.x[t2] = self.load_x(self.x[n] + 8);
                self.x[n] = (self.x[n] as i64 + 8 * pair) as u64;
                return next;
            }
            0xAD000000 => {
                let at = (self.x[n] as i64 + 16 * pair) as u64;
                self.store(at, self.v[d]);
                self.store(at + 16, self.v[t2]);
                return next;
            }
            0xAD400000 => {
                let at = (self.x[n] as i64 + 16 * pair) as u64;
                self.v[d] = self.load(code, at);
                self.v[t2] = self.load(code, at + 16);
                return next;
            }
            _ => {}
        }
        if w & 0xFF800000 == 0x91000000 {
            self.x[d] = self.x[n] + imm12;
        } else if w & 0xFF800000 == 0xD1000000 {
            self.x[d] = self.x[n] - imm12;
        } else if w & 0xFF800000 == 0xF1000000 {
            self.x[d] = self.x[n] - imm12;
            self.zero = self.x[d] == 0;
        } else if w & 0xFFE0FFE0 == 0xAA0003E0 {
            self.x[d] = self.x[m];
        } else if w == 0x2A3003F0 {
            self.x[16] = !(self.x[16] as u32) as u64;
        } else if w & 0xFFE0001F == 0x52800010 {
            self.x[16] = (w >> 5 & 0xFFFF) as u64;
        } else if w & 0xFFE0001F == 0x72A00010 {
            self.x[16] = self.x[16] & 0xFFFF | ((w >> 5 & 0xFFFF) as u64) << 16;
        } else if w & 0xFFFFFFE0 == 0x4F000400 {
            self.v[d] = [0; 4];
        } else if w & 0xFFF8FC00 == 0x4F00F400 {
            let imm8 = (w >> 16 & 7) << 5 | (w >> 5 & 31);
            let b = imm8 >> 6 & 1;
            let exponent = (b ^ 1) << 7 | (if b == 1 { 0x1F } else { 0 }) << 2 | (imm8 >> 4 & 3);
            self.v[d] = [imm8 >> 7 << 31 | exponent << 23 | (imm8 & 15) << 19; 4];
        } else if w & 0xFFE0FC00 == 0x6F200400 {
            let shift = 64 - (w >> 16 & 63);
            self.v[d] = self.v[n].map(|a| a >> shift);
        } else if w & 0xFFE0FC00 == 0x4F205400 {
            let shift = (w >> 16 & 63) - 32;
            self.v[d] = self.v[n].map(|a| a << shift);
        } else if w & 0x9F000000 == 0x10000000 {
            let imm = signed(w, 5, 19) << 2 | (w >> 29 & 3) as i64;
            self.x[d] = (CODE as i64 + pc as i64 + imm) as u64;
        } else if w & 0x9F000000 == 0x90000000 {
            let imm = signed(w, 5, 19) << 2 | (w >> 29 & 3) as i64;
            self.x[d] = ((CODE as i64 + pc as i64) / 4096 * 4096 + 4096 * imm) as u64;
        } else if w & 0xFF000000 == 0x34000000 {
            return target(self.x[d] as u32 == 0, 5, 19);
        } else if w & 0xFF000000 == 0x35000000 {
            return target(self.x[d] as u32 != 0, 5, 19);
        } else if w & 0xFF000000 == 0xB4000000 {
            return target(self.x[d] == 0, 5, 19);
        } else if w & 0xFF00001F == 0x54000001 {
            return target(!self.zero, 5, 19);
        } else if w & 0xFC000000 == 0x14000000 {
            return target(true, 0, 26);
        } else {
            panic!("instruction {:#010x} at {}", w, pc);
        }
        next
    }
}

/// Run a kernel on inputs that are the same in every lane.
fn call(code: &[u8], x: f32, y: f32, z: f32, w: f32) -> f32 {
    let mut m = Machine::new();
    for (i, v) in [x, y, z, w].into_iter().enumerate() {
        m.v[i] = [bits(v); 4];
    }
    m.run(code);
    f(m.v[0][0])
}

/// Run a scanline kernel: one batch for each of `xs`.
fn scan(code: &[u8], xs: &[f32], y: f32, z: f32, w: f32) -> Vec<f32> {
    scan_on(&mut Machine::new(), code, xs, y, z, w)
}

fn scan_on(m: &mut Machine, code: &[u8], xs: &[f32], y: f32, z: f32, w: f32) -> Vec<f32> {
    let (from, to) = (0x100, 0x1000);
    for i in 19..31 {
        m.x[i] = 0x1111 * i as u64;
    }
    let saved = m.x;
    for (i, x) in xs.iter().enumerate() {
        m.store(from + 16 * i as u64, [bits(*x); 4]);
    }
    for (i, v) in [y, z, w].into_iter().enumerate() {
        m.v[i] = [bits(v); 4];
    }
    m.x[0] = from;
    m.x[1] = to;
    m.x[2] = xs.len() as u64;
    m.run(code);
    assert_eq!(m.x[19..31], saved[19..31], "callee-saved registers restored");
    assert_eq!(m.load(code, to + 16 * xs.len() as u64), [0; 4], "nothing written behind");
    (0..xs.len()).map(|i| f(m.load(code, to + 16 * i as u64)[0])).collect()
}

fn run1(arena: &ExprArena, root: ExprId, x: f32) -> f32 {
    let r = compile_arena_dag(arena, root).expect("compile failed");
    call(&r.code, x, 0.0, 0.0, 0.0)
}

fn words(list: &[u32]) -> Vec<u8> {
    let mut code = Vec::new();
    for w in list {
        emit32(&mut code, *w);
    }
    code
}

#[test]
fn jit_return_x() {
    assert_eq!(call(&words(&[0xD65F03C0]), 42.0, 0.0, 0.0, 0.0), 42.0);
}

#[test]
fn jit_add_xy() {
    let fadd = 0x4E20D400u32 | (1 << 16);
    assert_eq!(call(&words(&[fadd, 0xD65F03C0]), 10.0, 32.0, 0.0, 0.0), 42.0);
}

#[test]
fn jit_complex_expr() {
    let fadd = 0x4E20D400u32 | (1 << 16);
    let fmul = 0x6E20DC00u32 | (2 << 16);
    assert_eq!(call(&words(&[fadd, fmul, 0xD65F03C0]), 2.0, 5.0, 6.0, 0.0), 42.0);
}

#[test]
fn jit_const_05_raw() {
    let code =
        words(&[0x52800010, 0x72A00010 | (0x3F00 << 5), 0x4E040C00 | (16 << 5), 0xD65F03C0]);
    assert_eq!(call(&code, 0.0, 0.0, 0.0, 0.0), 0.5);
}

#[test]
fn test_arena_compile_simple() {
    let mut arena = ExprArena::new();
    let x = arena.push_var(0);
    let y = arena.push_var(1);
    let sum = arena.push_binary(OpKind::Add, x, y);

    let result = compile_arena_dag(&arena, sum).expect("arena DAG compile failed");
    assert_eq!(result.spill_count, 0);
    assert_eq!(call(&result.code, 3.0, 4.0, 0.0, 0.0), 7.0);
}

#[test]
fn test_arena_compile_with_constant() {
    let mut arena = ExprArena::new();
    let x = arena.push_var(0);
    let two = arena.push_const(bits(2.0));
    let y = arena.push_var(1);
    let prod = arena.push_binary(OpKind::Mul, x, two);
    let sum = arena.push_binary(OpKind::Add, prod, y);

    let result = compile_arena_dag(&arena, sum).expect("arena DAG compile failed");
    // 3*2 + 4 = 10
    assert_eq!(call(&result.code, 3.0, 4.0, 0.0, 0.0), 10.0);
}

#[test]
fn test_arena_compile_with_spills() {
    let mut arena = ExprArena::new();
    let x = arena.push_var(0);
    let y = arena.push_var(1);
    let z = arena.push_var(2);
    let w = arena.push_var(3);
    let left = arena.push_binary(OpKind::Add, x, y);
    let right = arena.push_binary(OpKind::Add, z, w);
    let root = arena.push_binary(OpKind::Add, left, right);

    let ctx = EmitCtx::with_max_regs(2);
    let result = compile_arena_dag_with_ctx(&arena, root, ctx)
        .expect("arena DAG compile with spills failed");

    assert!(result.spill_count > 0, "expected spills with max_regs=2");
    // (1+2) + (3+4) = 10
    assert_eq!(call(&result.code, 1.0, 2.0, 3.0, 4.0), 10.0);
}

#[test]
fn test_scanline_handcoded_add() {
    // output[i] = X[i] + Y, with X0 the input, X1 the output and X2 the count.
    let mut code = Vec::new();

    // CBZ X2, done (patched below)
    let cbz_pos = code.len();
    emit32(&mut code, 0xB4000002);

    let loop_pos = code.len();
    emit32(&mut code, 0x3CC10401); // LDR Q1, [X0], #16
    emit32(&mut code, 0x4E20D421); // FADD V1.4S, V1.4S, V0.4S
    emit32(&mut code, 0x3C810421); // STR Q1, [X1], #16
    emit32(&mut code, 0xF1000442); // SUBS X2, X2, #1

    // B.NE loop
    let bne_pos = code.len();
    let offset = (loop_pos as i64 - bne_pos as i64) / 4;
    let imm19 = (offset as u32) & 0x7FFFF;
    emit32(&mut code, 0x54000000 | (imm19 << 5) | 0x01);

    let done_pos = code.len();
    let patch_off = ((done_pos as i64 - cbz_pos as i64) / 4) as u32 & 0x7FFFF;
    let patched = (word(&code, cbz_pos) & 0xFF00001F) | (patch_off << 5);
    code[cbz_pos..cbz_pos + 4].copy_from_slice(&patched.to_le_bytes());

    emit32(&mut code, 0xD65F03C0);

    let out = scan(&code, &[1.0, 2.0], 100.0, 0.0, 0.0);
    assert_eq!(out[0], 101.0, "handcoded scanline out[0]");
    assert_eq!(out[1], 102.0, "handcoded scanline out[1]");
}

#[test]
fn test_scanline_reg_offset_encoding() {
    let code = words(&[0x3CC10401, 0x4E20D421, 0x3C810421, 0xD65F03C0]);
    let out = scan(&code, &[1.0], 100.0, 0.0, 0.0);
    assert_eq!(out[0], 101.0, "post-index single out[0]");
}

#[test]
fn test_scanline_add_xy() {
    let mut arena = ExprArena::new();
    let x = arena.push_var(0);
    let y = arena.push_var(1);
    let root = arena.push_binary(OpKind::Add, x, y);

    let result = compile_arena_dag_scanline(&arena, root).expect("scanline compilation failed");
    let output = scan(&result.code, &[1.0, 2.0, 3.0, 10.0], 100.0, 0.0, 0.0);

    assert_eq!(output[0], 101.0, "1 + 100");
    assert_eq!(output[1], 102.0, "2 + 100");
    assert_eq!(output[2], 103.0, "3 + 100");
    assert_eq!(output[3], 110.0, "10 + 100");
}

#[test]
fn test_scanline_return_x() {
    let mut arena = ExprArena::new();
    let root = arena.push_var(0);

    let result = compile_arena_dag_scanline(&arena, root).expect("scanline compilation failed");
    let output = scan(&result.code, &[42.0, 7.0], 0.0, 0.0, 0.0);

    assert_eq!(output[0], 42.0);
    assert_eq!(output[1], 7.0);
}

#[test]
fn test_scanline_with_constants() {
    let mut arena = ExprArena::new();
    let x = arena.push_var(0);
    let two = arena.push_const(bits(2.0));
    let three = arena.push_const(bits(3.0));
    let x_times_2 = arena.push_binary(OpKind::Mul, x, two);
    let root = arena.push_binary(OpKind::Add, x_times_2, three);

    let result = compile_arena_dag_scanline(&arena, root).expect("scanline compilation failed");
    let output = scan(&result.code, &[0.0, 1.0, 5.0], 0.0, 0.0, 0.0);

    assert_eq!(output[0], 3.0, "0*2+3");
    assert_eq!(output[1], 5.0, "1*2+3");
    assert_eq!(output[2], 13.0, "5*2+3");
}

#[test]
fn test_scanline_matches_per_batch() {
    // (X + Y) * (Z - W)
    let mut arena = ExprArena::new();
    let x = arena.push_var(0);
    let y = arena.push_var(1);
    let z = arena.push_var(2);
    let w = arena.push_var(3);
    let sum = arena.push_binary(OpKind::Add, x, y);
    let diff = arena.push_binary(OpKind::Sub, z, w);
    let root = arena.push_binary(OpKind::Mul, sum, diff);

    let single = compile_arena_dag(&arena, root).expect("per-batch compile failed");
    let line = compile_arena_dag_scanline(&arena, root).expect("scanline compile failed");

    let xs = [1.0, 5.0, -3.0];
    let out = scan(&line.code, &xs, 2.0, 7.0, 3.0);
    for (i, &x_val) in xs.iter().enumerate() {
        let s = call(&single.code, x_val, 2.0, 7.0, 3.0);
        let sl = out[i];
        assert_eq!(s, sl, "scanline[{i}] mismatch: single={s}, scanline={sl}");
        assert_eq!(s, (x_val + 2.0) * 4.0);
    }
}

#[test]
fn test_scanline_empty() {
    let mut arena = ExprArena::new();
    let root = arena.push_var(0);
    let result = compile_arena_dag_scanline(&arena, root).expect("scanline compilation failed");
    assert!(scan(&result.code, &[], 0.0, 0.0, 0.0).is_empty());
}

#[test]
fn neon_primitives_match_scalar() {
    let unary: &[(OpKind, fn(f32) -> f32, &[f32], f32)] = &[
        (OpKind::Sqrt, |x| x.sqrt(), &[0.25, 1.0, 2.0, 9.0, 100.0], 1e-6),
        (OpKind::Abs, |x| x.abs(), &[-3.0, -0.5, 0.0, 2.5], 1e-6),
        (OpKind::Neg, |x| -x, &[-3.0, 0.5, 2.5], 1e-6),
        (OpKind::Floor, |x| x.floor(), &[-2.3, -0.1, 0.9, 1.5, 3.99], 1e-6),
        (OpKind::Ceil, |x| x.ceil(), &[-2.3, -0.1, 0.9, 1.5, 3.01], 1e-6),
        (OpKind::Round, |x| x.round(), &[-2.4, -0.4, 0.4, 1.5, 2.5], 1e-6),
        (OpKind::Fract, |x| x - x.floor(), &[-2.3, 0.1, 0.9, 3.75], 1e-6),
        (OpKind::Rsqrt, |x| 1.0 / x.sqrt(), &[0.25, 4.0], 1e-5),
        (OpKind::Recip, |x| 1.0 / x, &[0.25, 4.0, -2.0], 1e-5),
        (OpKind::Sin, |x| x.sin(), &[-2.0, -1.0, 0.0, 0.5, 1.5, 2.0], 6e-3),
        (OpKind::Cos, |x| x.cos(), &[-1.0, -0.3, 0.0, 0.5, 1.0], 1.5e-2),
        (OpKind::Exp, |x| x.exp(), &[-2.0, -0.5, 0.0, 1.0, 2.0, 3.0], 5e-3),
        (OpKind::Exp2, |x| x.exp2(), &[-3.0, -0.5, 0.0, 1.0, 4.0], 5e-3),
        (OpKind::Ln, |x| x.ln(), &[0.25, 0.5, 1.0, 2.0, 10.0], 5e-3),
        (OpKind::Atan, |x| x.atan(), &[-5.0, -0.5, 0.0, 0.2, 5.0], 8e-3),
        (OpKind::Asin, |x| x.asin(), &[-0.8, -0.5, 0.0, 0.5, 0.8], 1e-2),
    ];
    for &(op, scalar, inputs, tol) in unary {
        let mut arena = ExprArena::new();
        let x = arena.push_var(0);
        let root = arena.push_unary(op, x);
        for &xv in inputs {
            let got = run1(&arena, root, xv);
            let want = scalar(xv);
            let err = (got - want).abs() / (1.0 + want.abs());
            assert!(err <= tol, "{op:?}({xv}): got={got} want={want} err={err}");
        }
    }
    let binary: &[(OpKind, fn(f32, f32) -> f32, f32)] = &[
        (OpKind::Add, |a, b| a + b, 0.0),
        (OpKind::Sub, |a, b| a - b, 0.0),
        (OpKind::Mul, |a, b| a * b, 0.0),
        (OpKind::Div, |a, b| a / b, 0.0),
        (OpKind::Min, |a, b| a.min(b), 0.0),
        (OpKind::Max, |a, b| a.max(b), 0.0),
        (OpKind::Hypot, |a, b| a.hypot(b), 1e-5),
        (OpKind::Pow, |a, b| a.powf(b), 5e-3),
    ];
    for &(op, scalar, tol) in binary {
        let mut arena = ExprArena::new();
        let x = arena.push_var(0);
        let y = arena.push_var(1);
        let root = arena.push_binary(op, x, y);
        let code = compile_arena_dag(&arena, root).expect("compile failed").code;
        for (a, b) in [(2.0f32, 3.0f32), (9.0, 0.5), (4.0, -1.0), (1.5, 2.0)] {
            let got = call(&code, a, b, 0.0, 0.0);
            let want = scalar(a, b);
            let err = (got - want).abs() / (1.0 + want.abs());
            assert!(err <= tol, "{op:?}({a}, {b}): got={got} want={want}");
        }
    }
}

#[test]
fn neon_comparisons_choose_an_arm() {
    let cases: &[(OpKind, fn(f32, f32) -> bool)] = &[
        (OpKind::Lt, |a, b| a < b),
        (OpKind::Le, |a, b| a <= b),
        (OpKind::Gt, |a, b| a > b),
        (OpKind::Ge, |a, b| a >= b),
        (OpKind::Eq, |a, b| a == b),
        (OpKind::Ne, |a, b| a != b),
    ];
    for &(op, holds) in cases {
        let mut a = ExprArena::new();
        let x = a.push_var(0);
        let y = a.push_var(1);
        let z = a.push_var(2);
        let w = a.push_var(3);
        let cond = a.push_binary(op, x, y);
        let root = a.push_ternary(OpKind::Select, cond, z, w);
        let code = compile_arena_dag(&a, root).expect("compile failed").code;
        for (p, q) in [(1.0f32, 2.0f32), (2.0, 2.0), (3.0, 2.0)] {
            let want = if holds(p, q) { 10.0 } else { 20.0 };
            assert_eq!(call(&code, p, q, 10.0, 20.0), want, "{op:?}({p}, {q})");
        }
    }
}

#[test]
fn neon_guarded_arms_give_the_chosen_value() {
    // X > 0 ? Y*Y*Y : Z+Z+Z
    let mut a = ExprArena::new();
    let x = a.push_var(0);
    let y = a.push_var(1);
    let z = a.push_var(2);
    let zero = a.push_const(0);
    let cond = a.push_binary(OpKind::Gt, x, zero);
    let yy = a.push_binary(OpKind::Mul, y, y);
    let yyy = a.push_binary(OpKind::Mul, yy, y);
    let zz = a.push_binary(OpKind::Add, z, z);
    let zzz = a.push_binary(OpKind::Add, zz, z);
    let root = a.push_ternary(OpKind::Select, cond, yyy, zzz);
    let code = compile_arena_dag(&a, root).expect("compile failed").code;
    for (px, py, pz) in [(3.0f32, 4.0f32, 0.5f32), (-2.0, 0.5, 1.5), (0.7, -1.3, 2.1)] {
        let want = if px > 0.0 { py * py * py } else { 3.0 * pz };
        let got = call(&code, px, py, pz, 0.0);
        assert!((got - want).abs() <= 1e-4, "({px},{py},{pz}): got {got} want {want}");
    }
}

#[test]
fn neon_spills_under_every_budget() {
    let mut a = ExprArena::new();
    let x = a.push_var(0);
    let y = a.push_var(1);
    let mut terms = Vec::new();
    for i in 1..=10u32 {
        let c = a.push_const(bits(i as f32));
        let ax = a.push_binary(OpKind::Add, x, c);
        let by = a.push_binary(OpKind::Add, y, c);
        terms.push(a.push_binary(OpKind::Mul, ax, by));
    }
    while terms.len() > 1 {
        let mut next = Vec::new();
        for pair in terms.chunks(2) {
            if pair.len() == 2 {
                next.push(a.push_binary(OpKind::Add, pair[0], pair[1]));
            } else {
                next.push(pair[0]);
            }
        }
        terms = next;
    }
    let root = terms[0];
    for regs in 1..=22u8 {
        let r = compile_arena_dag_with_ctx(&a, root, EmitCtx::with_max_regs(regs))
            .expect("compile failed");
        let line = compile_arena_dag_scanline_with_ctx(&a, root, EmitCtx::with_max_regs(regs))
            .expect("scanline compile failed");
        for (px, py) in [(3.0f32, 4.0f32), (-2.0, 0.5)] {
            let mut want = 0.0f32;
            for i in 1..=10u32 {
                want += (px + i as f32) * (py + i as f32);
            }
            let got = call(&r.code, px, py, 0.0, 0.0);
            assert!((got - want).abs() <= 1e-3 * want, "{regs} registers: {got} want {want}");
            let out = scan(&line.code, &[0.0, px], py, 0.0, 0.0);
            assert!((out[1] - want).abs() <= 1e-3 * want, "{regs} registers, scanline");
        }
    }
}

#[test]
fn the_constant_pool_serves_what_no_immediate_holds() {
    let mut a = ExprArena::new();
    let mut sum = a.push_var(0);
    let mut want = 0.25f32;
    for i in 0..40 {
        let v = 1.0 + i as f32 * 0.0625;
        let c = a.push_const(bits(v));
        sum = a.push_binary(OpKind::Add, sum, c);
        want += v;
    }
    assert_eq!(run1(&a, sum, 0.25), want);
}

/// The scanline kernel of an expression agrees with `want` at every pixel.
fn scanline_gives(
    a: &ExprArena,
    root: ExprId,
    want: impl Fn(f32, f32, f32, f32) -> f32,
) {
    let code = compile_arena_dag_scanline(a, root).expect("scanline compile failed").code;
    let xs = [1.5f32, -2.0, 0.0, 4.25, 3.0];
    for (y, z, w) in [(2.0f32, 0.5f32, -1.0f32), (-3.0, 7.0, 2.5), (0.25, -0.75, 6.0)] {
        let out = scan(&code, &xs, y, z, w);
        for (x, got) in xs.into_iter().zip(out) {
            let right = want(x, y, z, w);
            let near = (got - right).abs() <= 1e-4 * (1.0 + right.abs());
            assert!(near, "({x},{y},{z},{w}): got {got} want {right}");
        }
        assert!(scan(&code, &[], y, z, w).is_empty());
    }
}

#[test]
fn the_setup_block_runs_once() {
    // sqrt(y * y + 2) * x
    let mut a = ExprArena::new();
    let x = a.push_var(0);
    let y = a.push_var(1);
    let yy = a.push_binary(OpKind::Mul, y, y);
    let two = a.push_const(bits(2.0));
    let sum = a.push_binary(OpKind::Add, yy, two);
    let root_of = a.push_unary(OpKind::Sqrt, sum);
    let root = a.push_binary(OpKind::Mul, root_of, x);
    scanline_gives(&a, root, |x, y, _, _| (y * y + 2.0).sqrt() * x);
    let code = compile_arena_dag_scanline(&a, root).expect("scanline compile failed").code;
    for count in [0usize, 1, 6] {
        let mut m = Machine::new();
        m.v[8] = [8, 9, 10, 11];
        scan_on(&mut m, &code, &vec![1.0; count], 3.0, 0.0, 0.0);
        let roots = m.ran.iter().filter(|&&w| w & 0xFFFF_FC00 == 0x6EA1_F800).count();
        assert_eq!(roots, 1, "{count} pixels");
        assert_eq!(m.v[8], [8, 9, 10, 11], "callee-saved vector register restored");
    }
}

#[test]
fn the_loop_reads_variables_and_constants_of_the_setup_block() {
    // (y * 3 + z) * (x + y) + (x - 3)
    let mut a = ExprArena::new();
    let x = a.push_var(0);
    let y = a.push_var(1);
    let z = a.push_var(2);
    let three = a.push_const(bits(3.0));
    let y3 = a.push_binary(OpKind::Mul, y, three);
    let y3z = a.push_binary(OpKind::Add, y3, z);
    let xy = a.push_binary(OpKind::Add, x, y);
    let prod = a.push_binary(OpKind::Mul, y3z, xy);
    let x3 = a.push_binary(OpKind::Sub, x, three);
    let root = a.push_binary(OpKind::Add, prod, x3);
    scanline_gives(&a, root, |x, y, z, _| (y * 3.0 + z) * (x + y) + (x - 3.0));
}

#[test]
fn hoisted_values_survive_a_crowded_loop() {
    // Each of n sums of Y, Z and W is read by the loop, which keeps many values
    // of its own alive at once.
    for n in 1..=9u32 {
        let mut a = ExprArena::new();
        let x = a.push_var(0);
        let y = a.push_var(1);
        let z = a.push_var(2);
        let w = a.push_var(3);
        let mut kept = Vec::new();
        for i in 0..n {
            let c = a.push_const(bits(0.5 + i as f32));
            let cz = a.push_binary(OpKind::Mul, c, z);
            let ycz = a.push_binary(OpKind::Add, y, cz);
            kept.push(a.push_binary(OpKind::Sub, ycz, w));
        }
        let mut terms = Vec::new();
        for i in 0..30u32 {
            let c = a.push_const(bits(0.125 * i as f32));
            let xc = a.push_binary(OpKind::Add, x, c);
            terms.push(a.push_binary(OpKind::Mul, xc, kept[(i % n) as usize]));
        }
        while terms.len() > 1 {
            let half = terms.len() / 2;
            let mut next = Vec::new();
            for i in 0..half {
                next.push(a.push_binary(OpKind::Add, terms[i], terms[i + half]));
            }
            if terms.len() % 2 == 1 {
                next.push(terms[terms.len() - 1]);
            }
            terms = next;
        }
        scanline_gives(&a, terms[0], |x, y, z, w| {
            (0..30u32).map(|i| (x + 0.125 * i as f32) * (y + (0.5 + (i % n) as f32) * z - w)).sum()
        });
    }
}

#[test]
fn arms_in_the_setup_block_are_computed_whatever_the_mask() {
    // x > z ? sqrt(y * y + 1) * 2 : (w - y) * x
    let mut a = ExprArena::new();
    let x = a.push_var(0);
    let y = a.push_var(1);
    let z = a.push_var(2);
    let w = a.push_var(3);
    let mask = a.push_binary(OpKind::Gt, x, z);
    let yy = a.push_binary(OpKind::Mul, y, y);
    let one = a.push_const(bits(1.0));
    let sum = a.push_binary(OpKind::Add, yy, one);
    let len = a.push_unary(OpKind::Sqrt, sum);
    let two = a.push_const(bits(2.0));
    let yes = a.push_binary(OpKind::Mul, len, two);
    let wy = a.push_binary(OpKind::Sub, w, y);
    let no = a.push_binary(OpKind::Mul, wy, x);
    let root = a.push_ternary(OpKind::Select, mask, yes, no);
    scanline_gives(&a, root, |x, y, z, w| {
        if x > z {
            (y * y + 1.0).sqrt() * 2.0
        } else {
            (w - y) * x
        }
    });
}

#[test]
fn a_mask_from_the_setup_block_guards_the_loop() {
    // y > z ? x * x * w : (x + w) * 3, and a select wholly before the loop
    let mut a = ExprArena::new();
    let x = a.push_var(0);
    let y = a.push_var(1);
    let z = a.push_var(2);
    let w = a.push_var(3);
    let mask = a.push_binary(OpKind::Gt, y, z);
    let yw = a.push_binary(OpKind::Mul, y, w);
    let yww = a.push_binary(OpKind::Mul, yw, w);
    let zw = a.push_binary(OpKind::Add, z, w);
    let zww = a.push_binary(OpKind::Add, zw, w);
    let chosen = a.push_ternary(OpKind::Select, mask, yww, zww);
    let xx = a.push_binary(OpKind::Mul, x, x);
    let yes = a.push_binary(OpKind::Mul, xx, w);
    let three = a.push_const(bits(3.0));
    let xw = a.push_binary(OpKind::Add, x, w);
    let no = a.push_binary(OpKind::Mul, xw, three);
    let picked = a.push_ternary(OpKind::Select, mask, yes, no);
    let root = a.push_binary(OpKind::Add, picked, chosen);
    scanline_gives(&a, root, |x, y, z, w| {
        if y > z {
            x * x * w + y * w * w
        } else {
            (x + w) * 3.0 + (z + w + w)
        }
    });
}

#[test]
fn arms_next_to_each_other_are_both_skipped() {
    // x > y ? x * x * y : x / y / x
    let mut a = ExprArena::new();
    let x = a.push_var(0);
    let y = a.push_var(1);
    let mask = a.push_binary(OpKind::Gt, x, y);
    let xx = a.push_binary(OpKind::Mul, x, x);
    let yes = a.push_binary(OpKind::Mul, xx, y);
    let xy = a.push_binary(OpKind::Div, x, y);
    let no = a.push_binary(OpKind::Div, xy, x);
    let root = a.push_ternary(OpKind::Select, mask, yes, no);
    let code = compile_arena_dag(&a, root).expect("compile failed").code;
    let count = |m: &Machine, key: u32| m.ran.iter().filter(|w| **w & 0xFFE0FC00 == key).count();
    for (xs, ys, products, quotients) in [
        ([5.0, 6.0, 7.0, 8.0], [1.0; 4], 2, 0),
        ([-5.0, -6.0, -7.0, -8.0], [1.0; 4], 0, 2),
        ([5.0, -6.0, 7.0, -8.0], [1.0f32; 4], 2, 2),
    ] {
        let mut m = Machine::new();
        m.v[0] = xs.map(bits);
        m.v[1] = ys.map(bits);
        m.run(&code);
        assert_eq!(count(&m, 0x6E20DC00), products);
        assert_eq!(count(&m, 0x6E20FC00), quotients);
        for i in 0..4 {
            let want: f32 = if xs[i] > ys[i] {
                xs[i] * xs[i] * ys[i]
            } else {
                xs[i] / ys[i] / xs[i]
            };
            assert_eq!(f(m.v[0][i]), want);
        }
    }
}

#[test]
fn a_variable_out_of_range_leaves_the_backend_alone() {
    let v = |i: u32| ValueId(i);
    let ops = |x: u8| {
        vec![
            (v(0), ScheduledOp::Var(x)),
            (v(1), ScheduledOp::Const(bits(1.7))),
            (v(2), ScheduledOp::Binary(OpKind::Add, v(0), v(1))),
        ]
    };
    let compile = |x: u8, backend: &mut Aarch64Backend| {
        compile_dag_via_backend(ops(x), arena_to_uses(&ops(x)), backend).map(|c| c.code)
    };
    let mut backend = Aarch64Backend::new(22);
    assert_eq!(compile(4, &mut backend), Err("variable index out of range"));
    let again = compile(3, &mut backend);
    assert_eq!(again, compile(3, &mut Aarch64Backend::new(22)));
    assert_eq!(call(&again.unwrap(), 0.0, 0.0, 0.0, 2.0), 2.0 + 1.7);
}

#[test]
fn a_spilled_mask_still_chooses() {
    // Many values are alive across a select, so that under small budgets its mask
    // and one of its arms are on the stack.
    let mut a = ExprArena::new();
    let x = a.push_var(0);
    let y = a.push_var(1);
    let mask = a.push_binary(OpKind::Gt, x, y);
    let mut kept = Vec::new();
    for i in 1..=6u32 {
        let c = a.push_const(bits(i as f32));
        kept.push(a.push_binary(OpKind::Mul, x, c));
    }
    let yes = a.push_binary(OpKind::Add, kept[0], y);
    let picked = a.push_ternary(OpKind::Select, mask, yes, y);
    let mut root = a.push_ternary(OpKind::Select, mask, picked, kept[1]);
    for k in kept {
        root = a.push_binary(OpKind::Add, root, k);
    }
    let mut compiled = 0;
    for regs in 1..=22u8 {
        if let Ok(r) = compile_arena_dag_with_ctx(&a, root, EmitCtx::with_max_regs(regs)) {
            compiled += 1;
            for (p, q) in [(3.0f32, 1.0f32), (1.0, 3.0)] {
                let chosen = if p > q { p + q } else { 2.0 * p };
                let want = chosen + 21.0 * p;
                assert_eq!(call(&r.code, p, q, 0.0, 0.0), want, "{regs} registers, ({p}, {q})");
            }
        }
    }
    assert!(compiled >= 15);
}

#[test]
fn scanlines_expand_transcendentals_neon() {
    // sin(x) * y + cos(z): the cosine belongs to the setup block.
    let mut a = ExprArena::new();
    let x = a.push_var(0);
    let y = a.push_var(1);
    let z = a.push_var(2);
    let s = a.push_unary(OpKind::Sin, x);
    let p = a.push_binary(OpKind::Mul, s, y);
    let c = a.push_unary(OpKind::Cos, z);
    let root = a.push_binary(OpKind::Add, p, c);
    let hoisted = compile_arena_dag_scanline(&a, root).expect("scanline compile failed");
    let line = compile_arena_dag_scanline_with_ctx(&a, root, EmitCtx::default())
        .expect("scanline compile failed");
    let xs = [0.0f32, 0.3, 1.0, 2.0, 3.5, -1.7];
    for code in [hoisted.code, line.code] {
        for (xv, got) in xs.into_iter().zip(scan(&code, &xs, 2.0, 0.5, 0.0)) {
            let right = xv.sin() * 2.0 + 0.5f32.cos();
            assert!((got - right).abs() <= 9e-2, "({xv}): got {got} want {right}");
            let batch = compile_arena_dag(&a, root).expect("compile failed");
            let same = call(&batch.code, xv, 2.0, 0.5, 0.0);
            assert!((got - same).abs() <= 1e-5, "({xv}): got {got}, batch {same}");
        }
    }
}

#[test]
fn ends_undo_prologues_for_every_count() {
    for n in 0..=8u8 {
        for pixels in [0u64, 1, 3] {
            let mut code = Vec::new();
            let p = emit_scanline_prologue_hoisted(&mut code, n);
            assert_eq!(p.callee_frame_size, 48 + 16 * n as u32);
            // The setup block overwrites what was saved.
            for r in 8..8 + n as u32 {
                emit32(&mut code, 0x4F000400 | r);
            }
            let p = emit_scanline_loop_hoisted(&mut code, p);
            let before = code.clone();
            emit_scanline_epilogue_hoisted(&mut code, &p, Reg(0));
            assert_eq!(code.len(), before.len() + 4 * (7 + (n as usize + 1) / 2));
            for i in 0..before.len() {
                let patched = p.early_exit_patch <= i && i < p.early_exit_patch + 4;
                assert!(patched || code[i] == before[i], "byte {i}");
            }
            let exit = word(&code, p.early_exit_patch);
            assert_eq!(exit & 0xFF00001F, 0xB4000015);
            let past = before.len() as i64 + 12;
            assert_eq!(p.early_exit_patch as i64 + 4 * signed(exit, 5, 19), past);
            let back = word(&code, before.len() + 8);
            assert_eq!(back & 0xFF00001F, 0x54000001);
            assert_eq!(before.len() as i64 + 8 + 4 * signed(back, 5, 19), p.loop_header as i64);
            assert_eq!(word(&code, code.len() - 4), 0xD65F03C0);

            let mut m = Machine::new();
            for r in 0..32 {
                m.v[r] = [r as u32, 100 + r as u32, 200 + r as u32, 300 + r as u32];
            }
            let kept = m.v;
            let xs: Vec<f32> = (0..pixels).map(|i| i as f32 + 0.5).collect();
            assert_eq!(scan_on(&mut m, &code, &xs, 1.0, 2.0, 3.0), xs);
            assert_eq!(m.v[8..16], kept[8..16], "{n} vector registers");
        }
    }
}
