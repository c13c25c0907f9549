//! Emitted x86-64 kernels, run by a small interpreter of the instructions that
//! the encoders produce.

use pixelflow_ir::arena::{ExprArena, ExprId};
use pixelflow_ir::backend::emit::avx512::{
    emit_add_rsp, emit_binary, emit_const, emit_fmadd_c_in_dst, emit_load_rsp, emit_mov, emit_ret,
    emit_store_rsp, emit_sub_rsp, emit_unary,
};
use pixelflow_ir::backend::emit::driver::CompileResult;
use pixelflow_ir::backend::emit::kernels::jets::{compile_arena_dag_jet, JetOutput};
use pixelflow_ir::backend::emit::kernels::x86::{
    compile_arena_dag, compile_arena_dag_avx512, compile_arena_dag_scanline,
    try_compile_arena_dag_wide,
};
use pixelflow_ir::backend::emit::lowering::expand_transcendentals_owned;
use pixelflow_ir::backend::emit::outcome::Outcome;
use pixelflow_ir::backend::emit::Reg;
use pixelflow_ir::kind::OpKind;

fn bits(v: f32) -> u32 {
    v.to_bits()
}

fn f(v: u32) -> f32 {
    f32::from_bits(v)
}

/// Where the stack pointer starts in the interpreter's memory.
const STACK: usize = 0x8000;

/// Registers, flags and memory of the interpreter.
struct Machine {
    v: [[u32; 16]; 32],
    k: [u16; 8],
    rax: u64,
    rdx: u64,
    rdi: usize,
    rsi: usize,
    rsp: usize,
    zero: bool,
    carry: bool,
    mem: Vec<u8>,
}

fn word(bytes: &[u8], at: usize) -> u32 {
    u32::from_le_bytes([bytes[at], bytes[at + 1], bytes[at + 2], bytes[at + 3]])
}

fn compare(pred: u8, a: f32, b: f32) -> bool {
    match pred {
        0 => a == b,
        1 => a < b,
        2 => a <= b,
        4 => a != b,
        5 => !(a < b),
        6 => !(a <= b),
        _ => panic!("predicate {}", pred),
    }
}

fn rounded(mode: u8, a: f32) -> f32 {
    match mode {
        0 => a.round_ties_even(),
        1 => a.floor(),
        2 => a.ceil(),
        _ => panic!("rounding mode {}", mode),
    }
}

/// A lane operation of the 0F opcode map.
fn lane(opcode: u8, a: u32, b: u32) -> u32 {
    match opcode {
        0x51 => bits(f(b).sqrt()),
        0x52 => bits(1.0 / f(b).sqrt()),
        0x53 => bits(1.0 / f(b)),
        0x54 => a & b,
        0x55 => !a & b,
        0x56 => a | b,
        0x57 => a ^ b,
        0x58 => bits(f(a) + f(b)),
        0x59 => bits(f(a) * f(b)),
        0x5C => bits(f(a) - f(b)),
        0x5D => bits(if f(a) < f(b) { f(a) } else { f(b) }),
        0x5E => bits(f(a) / f(b)),
        0x5F => bits(if f(a) > f(b) { f(a) } else { f(b) }),
        _ => panic!("lane opcode {:#04x}", opcode),
    }
}

fn ones(b: bool) -> u32 {
    if b {
        u32::MAX
    } else {
        0
    }
}

impl Machine {
    fn new() -> Machine {
        Machine {
            v: [[0x7FC0_1234; 16]; 32],
            k: [0; 8],
            rax: 0,
            rdx: 0,
            rdi: 0,
            rsi: 0,
            rsp: STACK,
            zero: false,
            carry: false,
            mem: vec![0; 2 * STACK],
        }
    }

    fn load(&self, at: usize, lanes: usize) -> [u32; 16] {
        let mut r = [0; 16];
        for i in 0..lanes {
            r[i] = word(&self.mem, at + 4 * i);
        }
        r
    }

    fn store(&mut self, at: usize, value: [u32; 16], lanes: usize) {
        for i in 0..lanes {
            self.mem[at + 4 * i..at + 4 * i + 4].copy_from_slice(&value[i].to_le_bytes());
        }
    }

    fn run(&mut self, code: &[u8]) {
        let mut pc: usize = 0;
        let mut steps = 0;
        while code[pc] != 0xC3 {
            pc = self.step(code, pc);
            steps += 1;
            assert!(steps < 1_000_000, "kernel does not end");
        }
        assert_eq!(self.rsp, STACK, "stack pointer restored");
    }

    fn jump(&self, code: &[u8], at: usize, taken: bool) -> usize {
        if taken {
            (at as i64 + 4 + word(code, at) as i32 as i64) as usize
        } else {
            at + 4
        }
    }

    fn step(&mut self, code: &[u8], pc: usize) -> usize {
        match code[pc] {
            0xEB => pc + 2 + code[pc + 1] as usize,
            0xE9 => self.jump(code, pc + 1, true),
            0x62 => self.evex(code, pc),
            0xC4 => self.vex(code, pc),
            0xC5 => {
                assert_eq!(&code[pc..pc + 4], &[0xC5, 0xF8, 0x98, 0xC9]);
                self.zero = self.k[1] == 0;
                self.carry = self.k[1] == 0xFFFF;
                pc + 4
            }
            0xC7 => {
                assert_eq!(&code[pc..pc + 4], &[0xC7, 0x44, 0x24, 0xFC]);
                let at = self.rsp - 4;
                self.mem[at..at + 4].copy_from_slice(&code[pc + 4..pc + 8]);
                pc + 8
            }
            0x31 => {
                assert_eq!(code[pc + 1], 0xC0);
                self.rax = 0;
                pc + 2
            }
            0x85 => {
                assert_eq!(code[pc + 1], 0xC0);
                self.zero = self.rax as u32 == 0;
                pc + 2
            }
            0x83 => {
                assert_eq!(code[pc + 1], 0xF8);
                self.zero = self.rax as u32 == code[pc + 2] as u32;
                pc + 3
            }
            0x48 => self.wide(code, pc),
            0x0F => self.legacy(code, pc, 0, 0),
            rex if rex & 0xF8 == 0x40 => {
                self.legacy(code, pc + 1, (rex >> 2 & 1) as usize * 8, (rex & 1) as usize * 8)
            }
            other => panic!("opcode {:#04x} at {}", other, pc),
        }
    }

    /// Instructions on 64-bit registers.
    fn wide(&mut self, code: &[u8], pc: usize) -> usize {
        match (code[pc + 1], code[pc + 2]) {
            (0x39, 0xD0) => {
                self.carry = self.rax < self.rdx;
                self.zero = self.rax == self.rdx;
                pc + 3
            }
            (0x83, 0xC7) => {
                self.rdi += code[pc + 3] as usize;
                pc + 4
            }
            (0x83, 0xC6) => {
                self.rsi += code[pc + 3] as usize;
                pc + 4
            }
            (0xFF, 0xC0) => {
                self.rax += 1;
                pc + 3
            }
            (0x81, 0xEC) => {
                self.rsp -= word(code, pc + 3) as usize;
                pc + 7
            }
            (0x81, 0xC4) => {
                self.rsp += word(code, pc + 3) as usize;
                pc + 7
            }
            other => panic!("wide opcode {:?}", other),
        }
    }

    /// Instructions of the 0F map without a VEX prefix.
    fn legacy(&mut self, code: &[u8], pc: usize, r: usize, b: usize) -> usize {
        assert_eq!(code[pc], 0x0F);
        let opcode = code[pc + 1];
        match opcode {
            0x82 => return self.jump(code, pc + 2, self.carry),
            0x83 => return self.jump(code, pc + 2, !self.carry),
            0x84 => return self.jump(code, pc + 2, self.zero),
            _ => {}
        }
        let modrm = code[pc + 2];
        let reg = r + (modrm >> 3 & 7) as usize;
        let rm = (modrm & 7) as usize;
        let mut next = pc + 3;
        let (mode, rm) = (modrm >> 6, if modrm >> 6 == 3 { rm + b } else { rm });
        if mode == 3 {
            let src = self.v[rm];
            match opcode {
                0x28 => self.v[reg][..4].copy_from_slice(&src[..4]),
                0x50 => {
                    self.rax = (0..4).map(|i| ((src[i] >> 31) as u64) << i).sum();
                }
                0xC2 => {
                    let pred = code[next];
                    next += 1;
                    for i in 0..4 {
                        self.v[reg][i] = ones(compare(pred, f(self.v[reg][i]), f(src[i])));
                    }
                }
                _ => {
                    for i in 0..4 {
                        self.v[reg][i] = lane(opcode, self.v[reg][i], src[i]);
                    }
                }
            }
            return next;
        }
        if mode == 0 && rm == 5 {
            let disp = word(code, next) as i32 as i64;
            next += 4;
            assert_eq!(opcode, 0x10);
            let at = (next as i64 + disp) as usize;
            for i in 0..4 {
                self.v[reg][i] = word(code, at + 4 * i);
            }
            return next;
        }
        let base = match rm {
            4 => {
                assert_eq!(code[next], 0x24);
                next += 1;
                self.rsp
            }
            6 => self.rsi,
            7 => self.rdi,
            _ => panic!("base register {}", rm),
        };
        let disp = match mode {
            0 => 0,
            1 => {
                next += 1;
                code[next - 1] as i8 as i64
            }
            _ => {
                next += 4;
                word(code, next - 4) as i32 as i64
            }
        };
        let at = (base as i64 + disp) as usize;
        match opcode {
            0x10 | 0x28 => {
                let value = self.load(at, 4);
                self.v[reg][..4].copy_from_slice(&value[..4]);
            }
            0x11 | 0x29 => self.store(at, self.v[reg], 4),
            _ => panic!("memory opcode {:#04x}", opcode),
        }
        next
    }

    /// Three-operand instructions on 128 bits.
    fn vex(&mut self, code: &[u8], pc: usize) -> usize {
        let (p0, p1, opcode, modrm) = (code[pc + 1], code[pc + 2], code[pc + 3], code[pc + 4]);
        assert_eq!(modrm >> 6, 3);
        assert_eq!(p1 >> 7, 0, "W");
        assert_eq!(p1 >> 2 & 1, 0, "L");
        let reg = (modrm >> 3 & 7) as usize + if p0 & 0x80 == 0 { 8 } else { 0 };
        let rm = (modrm & 7) as usize + if p0 & 0x20 == 0 { 8 } else { 0 };
        let other = (!(p1 >> 3) & 0xF) as usize;
        let (a, b) = (self.v[other], self.v[rm]);
        let mut next = pc + 5;
        let mut out = [0u32; 16];
        let mut dst = reg;
        for i in 0..4 {
            out[i] = match (p0 & 0x1F, p1 & 3, opcode) {
                (1, 0, 0x5B) => bits(b[i] as i32 as f32),
                (1, 2, 0x5B) => f(b[i]) as i32 as u32,
                (1, 1, 0xFE) => a[i].wrapping_add(b[i]),
                (1, 1, 0xFA) => a[i].wrapping_sub(b[i]),
                (1, 0, 0xC2) => {
                    next = pc + 6;
                    ones(compare(code[pc + 5], f(a[i]), f(b[i])))
                }
                (1, 1, 0x72) => {
                    next = pc + 6;
                    dst = other;
                    if reg == 6 {
                        b[i] << code[pc + 5]
                    } else {
                        assert_eq!(reg, 2);
                        b[i] >> code[pc + 5]
                    }
                }
                (3, 1, 0x08) => {
                    next = pc + 6;
                    bits(rounded(code[pc + 5], f(b[i])))
                }
                (1, 0, _) => lane(opcode, a[i], b[i]),
                unknown => panic!("VEX {:?}", unknown),
            };
        }
        self.v[dst] = out;
        next
    }

    /// Instructions on 512 bits.
    fn evex(&mut self, code: &[u8], pc: usize) -> usize {
        let (p0, p1, p2, opcode, modrm) =
            (code[pc + 1], code[pc + 2], code[pc + 3], code[pc + 4], code[pc + 5]);
        assert_eq!(p0 & 0x0C, 0);
        assert_eq!(p1 & 0x84, 4);
        assert_eq!(p2 & 0xF7, 0x40, "512 bits, no mask");
        let high = |bit: u8, inverted: u8| if inverted == 0 { bit as usize } else { 0 };
        let reg = (modrm >> 3 & 7) as usize + high(8, p0 & 0x80) + high(16, p0 & 0x10);
        let other = (!(p1 >> 3) & 0xF) as usize + high(16, p2 & 8);
        let (map, pp) = (p0 & 3, p1 & 3);
        let mut next = pc + 6;
        if modrm >> 6 != 3 {
            assert_eq!(p0 & 0x60, 0x60, "RSP is the base");
            assert_eq!(other, 0);
            assert_eq!(modrm & 7, 4);
            assert_eq!(code[next], 0x24);
            next += 1;
            let element = if opcode == 0x18 { 4 } else { 64 };
            let disp = if modrm >> 6 == 1 {
                next += 1;
                code[next - 1] as i8 as i64 * element
            } else {
                next += 4;
                word(code, next - 4) as i32 as i64
            };
            let at = (self.rsp as i64 + disp) as usize;
            match (map, pp, opcode) {
                (1, 2, 0x10) => self.v[reg] = self.load(at, 16),
                (1, 2, 0x11) => self.store(at, self.v[reg], 16),
                (2, 1, 0x18) => self.v[reg] = [word(&self.mem, at); 16],
                unknown => panic!("EVEX memory {:?}", unknown),
            }
            return next;
        }
        let rm = (modrm & 7) as usize + high(8, p0 & 0x20) + high(16, p0 & 0x40);
        let (a, b, d) = (self.v[other], self.v[rm], self.v[reg]);
        let mut out = [0u32; 16];
        match (map, pp, opcode) {
            (1, 0, 0xC2) => {
                next = pc + 7;
                self.k[reg] =
                    (0..16).map(|i| (compare(code[pc + 6], f(a[i]), f(b[i])) as u16) << i).sum();
                return next;
            }
            (2, 1, 0x27) => {
                self.k[reg] = (0..16).map(|i| ((a[i] & b[i] != 0) as u16) << i).sum();
                return next;
            }
            _ => {}
        }
        for i in 0..16 {
            out[i] = match (map, pp, opcode) {
                (1, 0, 0x28) => {
                    assert_eq!(other, 0);
                    b[i]
                }
                (1, 0, 0x51) => {
                    assert_eq!(other, 0);
                    lane(opcode, a[i], b[i])
                }
                (1, 0, _) => lane(opcode, a[i], b[i]),
                (2, 1, 0xB8) => bits(f(a[i]).mul_add(f(b[i]), f(d[i]))),
                (2, 1, 0xA8) => bits(f(a[i]).mul_add(f(d[i]), f(b[i]))),
                (2, 1, 0x4C) => lane(0x53, a[i], b[i]),
                (2, 1, 0x4E) => lane(0x52, a[i], b[i]),
                (2, 2, 0x38) => ones(self.k[rm] >> i & 1 == 1),
                (3, 1, 0x25) => {
                    next = pc + 7;
                    let imm = code[pc + 6] as u32;
                    (0..32)
                        .map(|n| {
                            let at = (d[i] >> n & 1) << 2 | (a[i] >> n & 1) << 1 | (b[i] >> n & 1);
                            (imm >> at & 1) << n
                        })
                        .sum()
                }
                (3, 1, 0x08) => {
                    assert_eq!(other, 0);
                    next = pc + 7;
                    bits(rounded(code[pc + 6], f(b[i])))
                }
                unknown => panic!("EVEX {:?}", unknown),
            };
        }
        self.v[reg] = out;
        next
    }
}

/// Run a four-lane kernel on inputs that are the same in every lane.
fn call(code: &[u8], x: f32, y: f32, z: f32, w: f32) -> f32 {
    let mut m = Machine::new();
    for (i, v) in [x, y, z, w].into_iter().enumerate() {
        m.v[i] = [bits(v); 16];
    }
    m.run(code);
    f(m.v[0][0])
}

/// Run a sixteen-lane kernel.
fn call16(code: &[u8], xs: [f32; 16], ys: [f32; 16], zs: [f32; 16]) -> [f32; 16] {
    let mut m = Machine::new();
    for (i, v) in [xs, ys, zs, [0.0; 16]].into_iter().enumerate() {
        m.v[i] = v.map(bits);
    }
    m.run(code);
    m.v[0].map(f)
}

/// Run a scanline kernel: one batch for each of `xs`.
fn scan(code: &[u8], xs: &[f32], y: f32, z: f32, w: f32) -> Vec<f32> {
    let (from, to) = (0x100, 0x1000);
    let mut m = Machine::new();
    for (i, x) in xs.iter().enumerate() {
        m.store(from + 16 * i, [bits(*x); 16], 4);
    }
    for (i, v) in [y, z, w].into_iter().enumerate() {
        m.v[i] = [bits(v); 16];
    }
    m.rdi = from;
    m.rsi = to;
    m.rdx = xs.len() as u64;
    m.run(code);
    assert_eq!(m.load(to + 16 * xs.len(), 4)[..4], [0; 4], "nothing written behind the scanline");
    (0..xs.len()).map(|i| f(m.load(to + 16 * i, 4)[0])).collect()
}

/// Run a kernel at `x`, the other inputs zero.
fn run1(arena: &ExprArena, root: ExprId, x: f32) -> f32 {
    run_xy(arena, root, x, 0.0)
}

/// Run a kernel at `(x, y)`, the other inputs zero.
fn run_xy(arena: &ExprArena, root: ExprId, x: f32, y: f32) -> f32 {
    let r = compile_arena_dag(arena, root).expect("compile failed");
    call(&r.code, x, y, 0.0, 0.0)
}

/// Compile one component of a jet and evaluate it at `(x, y)`.
fn comp(arena: &ExprArena, root: ExprId, seed: &[u8], out: JetOutput, x: f32, y: f32) -> f32 {
    let r = compile_arena_dag_jet(arena, root, seed, out).expect("jet compile failed");
    call(&r.code, x, y, 0.0, 0.0)
}

/// Jets over X and Y.
const SEED_XY: &[u8] = &[0, 1];

const JET_PTS: &[(f32, f32)] = &[(3.0, 4.0), (1.0, 2.0), (-2.0, 0.5), (0.7, -1.3)];

fn close(a: f32, b: f32, tag: &str) {
    assert!((a - b).abs() <= 1e-4, "{tag}: got {a}, want {b}");
}

/// Tolerance of the degree-7 sine: best near zero, worst at the ends of the
/// reduced range.
const TRIG_TOL: f32 = 3e-2;

fn run(res: &CompileResult, x: f32, y: f32, z: f32, w: f32) -> f32 {
    call(&res.code, x, y, z, w)
}

const PTS: &[(f32, f32, f32, f32)] = &[
    (3.0, 4.0, 0.0, 1.0),
    (1.0, 2.0, 3.0, 4.0),
    (-2.0, 0.5, 1.5, -1.0),
    (0.7, -1.3, 2.1, 0.2),
];

fn run16(res: &CompileResult, xs: [f32; 16], ys: [f32; 16], zs: [f32; 16]) -> [f32; 16] {
    call16(&res.code, xs, ys, zs)
}

/// Run instructions without their return.
fn run_body(body: &[u8], xs: [f32; 16], ys: [f32; 16], zs: [f32; 16]) -> [f32; 16] {
    let mut code = body.to_vec();
    emit_ret(&mut code);
    call16(&code, xs, ys, zs)
}

fn lanes() -> ([f32; 16], [f32; 16], [f32; 16]) {
    let mut xs = [0.0; 16];
    let mut ys = [0.0; 16];
    let mut zs = [0.0; 16];
    for i in 0..16 {
        xs[i] = i as f32 - 7.0;
        ys[i] = (i as f32) * 0.5 + 1.0;
        zs[i] = 3.0 - (i as f32) * 0.25;
    }
    (xs, ys, zs)
}

fn check(got: [f32; 16], want: impl Fn(usize) -> f32, tag: &str) {
    for i in 0..16 {
        let w = want(i);
        assert!((got[i] - w).abs() <= 1e-3, "{tag} lane {i}: got {} want {}", got[i], w);
    }
}

const X: Reg = Reg(0);
const Y: Reg = Reg(1);
const Z: Reg = Reg(2);

#[test]
fn jit_return_x_x86() {
    let code = [0xC3];
    assert_eq!(call(&code, 42.0, 0.0, 0.0, 0.0), 42.0);
}

#[test]
fn jit_add_xy_x86() {
    let code = [0x0F, 0x58, 0xC1, 0xC3];
    assert_eq!(call(&code, 10.0, 32.0, 0.0, 0.0), 42.0);
}

#[test]
fn test_scanline_matches_per_batch_x86() {
    // (X*X + Y) * Z - W
    let mut arena = ExprArena::new();
    let x = arena.push_var(0);
    let y = arena.push_var(1);
    let z = arena.push_var(2);
    let w = arena.push_var(3);
    let xx = arena.push_binary(OpKind::Mul, x, x);
    let xxy = arena.push_binary(OpKind::Add, xx, y);
    let m = arena.push_binary(OpKind::Mul, xxy, z);
    let root = arena.push_binary(OpKind::Sub, m, w);

    let single = compile_arena_dag(&arena, root).expect("per-batch compile failed");
    let line = compile_arena_dag_scanline(&arena, root).expect("scanline compile failed");

    let xs: Vec<f32> = (0..7).map(|i| i as f32 * 0.7 - 1.5).collect();
    let out = scan(&line.code, &xs, 2.0, 3.0, 0.5);
    for (i, &xv) in xs.iter().enumerate() {
        let e = call(&single.code, xv, 2.0, 3.0, 0.5);
        let g = out[i];
        assert!((e - g).abs() < 1e-5, "scanline pixel {i} mismatch: single={e} scanline={g}");
        let want = (xv * xv + 2.0) * 3.0 - 0.5;
        assert!((e - want).abs() < 1e-4, "pixel {i}: got {e} want {want}");
    }
}

#[test]
fn test_scanline_empty_x86() {
    let mut arena = ExprArena::new();
    let root = arena.push_var(0);
    let line = compile_arena_dag_scanline(&arena, root).expect("scanline compile failed");
    assert!(scan(&line.code, &[], 0.0, 0.0, 0.0).is_empty());
}

#[test]
fn test_x86_unary_builtins_match_scalar() {
    // Tolerances reflect the shared (with aarch64) minimax-polynomial
    // accuracy over a sensible input range; exact ops use tight bounds.
    // `rel_err = |jit - scalar| / (1 + |scalar|)`.
    let unary: &[(OpKind, fn(f32) -> f32, &[f32], f32)] = &[
        (OpKind::Sqrt, |x| x.sqrt(), &[0.25, 1.0, 2.0, 9.0, 100.0], 1e-5),
        (OpKind::Abs, |x| x.abs(), &[-3.0, -0.5, 0.0, 2.5], 1e-6),
        (OpKind::Neg, |x| -x, &[-3.0, 0.5, 2.5], 1e-6),
        (OpKind::Floor, |x| x.floor(), &[-2.3, -0.1, 0.9, 1.5, 3.99], 1e-6),
        (OpKind::Ceil, |x| x.ceil(), &[-2.3, -0.1, 0.9, 1.5, 3.01], 1e-6),
        (OpKind::Round, |x| x.round_ties_even(), &[-2.4, -0.4, 0.4, 1.5, 2.6], 1e-6),
        (OpKind::Fract, |x| x - x.floor(), &[-2.3, 0.1, 0.9, 3.75], 1e-5),
        // sin/cos: 4-term Chebyshev — accurate well inside [-π, π].
        (OpKind::Sin, |x| x.sin(), &[-2.0, -1.0, -0.3, 0.0, 0.5, 1.5, 2.0], 6e-3),
        (OpKind::Cos, |x| x.cos(), &[-1.0, -0.3, 0.0, 0.5, 1.0], 1.5e-2),
        (OpKind::Tan, |x| x.tan(), &[-1.0, -0.3, 0.0, 0.3, 1.0], 2.5e-2),
        (OpKind::Exp, |x| x.exp(), &[-2.0, -0.5, 0.0, 1.0, 2.0, 3.0], 5e-3),
        (OpKind::Exp2, |x| x.exp2(), &[-3.0, -0.5, 0.0, 1.0, 4.0], 5e-3),
        (OpKind::Ln, |x| x.ln(), &[0.25, 0.5, 1.0, 2.0, 10.0], 5e-3),
        (OpKind::Log2, |x| x.log2(), &[0.25, 0.5, 1.0, 2.0, 8.0], 5e-3),
        (OpKind::Log10, |x| x.log10(), &[0.1, 0.5, 1.0, 10.0, 100.0], 5e-3),
        (OpKind::Atan, |x| x.atan(), &[-5.0, -0.5, -0.2, 0.0, 0.2, 0.5, 5.0], 8e-3),
        (OpKind::Asin, |x| x.asin(), &[-0.8, -0.5, 0.0, 0.5, 0.8], 1e-2),
        (OpKind::Acos, |x| x.acos(), &[-0.8, -0.5, 0.0, 0.5, 0.8], 1e-2),
    ];
    for &(op, scalar, inputs, tol) in unary {
        let mut arena = ExprArena::new();
        let x = arena.push_var(0);
        let root = arena.push_unary(op, x);
        for &xv in inputs {
            let got = run1(&arena, root, xv);
            let want = scalar(xv);
            let err = (got - want).abs() / (1.0 + want.abs());
            assert!(
                err <= tol,
                "{op:?}({xv}): jit={got} scalar={want} rel_err={err} > {tol}"
            );
        }
    }
}

#[test]
fn test_x86_binary_ternary_builtins_match_scalar() {
    // atan2(y, x): arena Binary(Atan2, Y, X)  (op order: src1=y, src2=x)
    let pts = [(0.5, 2.0), (2.0, 0.5), (-0.5, 2.0), (0.5, -2.0), (-2.0, -0.5), (3.0, -0.5)];
    {
        let mut a = ExprArena::new();
        let y = a.push_var(1);
        let x = a.push_var(0);
        let root = a.push_binary(OpKind::Atan2, y, x);
        for &(yv, xv) in &pts {
            let got = run_xy(&a, root, xv, yv);
            let want = yv.atan2(xv);
            assert!((got - want).abs() <= 1.5e-2, "atan2({yv},{xv}): {got} vs {want}");
        }
    }
    // pow(X, Y)
    {
        let mut a = ExprArena::new();
        let x = a.push_var(0);
        let y = a.push_var(1);
        let root = a.push_binary(OpKind::Pow, x, y);
        for &(xv, yv) in &[(2.0f32, 3.0f32), (9.0, 0.5), (4.0, -1.0), (1.5, 2.0)] {
            let got = run_xy(&a, root, xv, yv);
            let want = xv.powf(yv);
            let err = (got - want).abs() / (1.0 + want.abs());
            assert!(err <= 5e-3, "pow({xv},{yv}): {got} vs {want} err={err}");
        }
    }
    // hypot(X, Y)
    {
        let mut a = ExprArena::new();
        let x = a.push_var(0);
        let y = a.push_var(1);
        let root = a.push_binary(OpKind::Hypot, x, y);
        for &(xv, yv) in &[(3.0f32, 4.0f32), (1.0, 1.0), (0.0, 2.0)] {
            let got = run_xy(&a, root, xv, yv);
            let want = xv.hypot(yv);
            assert!((got - want).abs() <= 1e-4, "hypot({xv},{yv}): {got} vs {want}");
        }
    }
    // Min / Max
    for (op, f) in [
        (OpKind::Min, f32::min as fn(f32, f32) -> f32),
        (OpKind::Max, f32::max as fn(f32, f32) -> f32),
    ] {
        let mut a = ExprArena::new();
        let x = a.push_var(0);
        let y = a.push_var(1);
        let root = a.push_binary(op, x, y);
        for &(xv, yv) in &[(1.0f32, 2.0f32), (3.0, -1.0), (-2.0, -5.0)] {
            let got = run_xy(&a, root, xv, yv);
            assert!((got - f(xv, yv)).abs() <= 1e-6, "{op:?}({xv},{yv})");
        }
    }
    // Clamp(X, 0.0, 1.0)
    {
        let mut a = ExprArena::new();
        let x = a.push_var(0);
        let lo = a.push_const(bits(0.0));
        let hi = a.push_const(bits(1.0));
        let root = a.push_ternary(OpKind::Clamp, x, lo, hi);
        for &xv in &[-0.5f32, 0.25, 0.9, 1.7] {
            let got = run1(&a, root, xv);
            assert!((got - xv.clamp(0.0, 1.0)).abs() <= 1e-6, "clamp({xv})={got}");
        }
    }
    // Select(X >= 0, 1.0, -1.0) == signum-ish
    {
        let mut a = ExprArena::new();
        let x = a.push_var(0);
        let zero = a.push_const(bits(0.0));
        let cond = a.push_binary(OpKind::Ge, x, zero);
        let pos = a.push_const(bits(1.0));
        let neg = a.push_const(bits(-1.0));
        let root = a.push_ternary(OpKind::Select, cond, pos, neg);
        for &xv in &[-2.0f32, -0.1, 0.1, 3.0] {
            let got = run1(&a, root, xv);
            let want = if xv >= 0.0 { 1.0 } else { -1.0 };
            assert!((got - want).abs() <= 1e-6, "select({xv})={got} want={want}");
        }
    }
}

#[test]
fn jet_sum_of_squares() {
    // f = X*X + Y*Y ; ∂x = 2x, ∂y = 2y
    let mut a = ExprArena::new();
    let x = a.push_var(0);
    let y = a.push_var(1);
    let xx = a.push_binary(OpKind::Mul, x, x);
    let yy = a.push_binary(OpKind::Mul, y, y);
    let root = a.push_binary(OpKind::Add, xx, yy);
    for &(px, py) in JET_PTS {
        close(comp(&a, root, SEED_XY, JetOutput::Value, px, py), px * px + py * py, "val");
        close(comp(&a, root, SEED_XY, JetOutput::Partial(0), px, py), 2.0 * px, "dx");
        close(comp(&a, root, SEED_XY, JetOutput::Partial(1), px, py), 2.0 * py, "dy");
    }
}

#[test]
fn jet_product() {
    // f = X*Y ; ∂x = y, ∂y = x  (both partials nonzero -> cross term)
    let mut a = ExprArena::new();
    let x = a.push_var(0);
    let y = a.push_var(1);
    let root = a.push_binary(OpKind::Mul, x, y);
    for &(px, py) in JET_PTS {
        close(comp(&a, root, SEED_XY, JetOutput::Value, px, py), px * py, "val");
        close(comp(&a, root, SEED_XY, JetOutput::Partial(0), px, py), py, "dx");
        close(comp(&a, root, SEED_XY, JetOutput::Partial(1), px, py), px, "dy");
    }
}

#[test]
fn jet_circle_sdf() {
    // f = sqrt(X*X + Y*Y) - r ; ∂x = x/√(x²+y²), ∂y = y/√(x²+y²)
    let mut a = ExprArena::new();
    let x = a.push_var(0);
    let y = a.push_var(1);
    let xx = a.push_binary(OpKind::Mul, x, x);
    let yy = a.push_binary(OpKind::Mul, y, y);
    let sum = a.push_binary(OpKind::Add, xx, yy);
    let dist = a.push_unary(OpKind::Sqrt, sum);
    let r = a.push_const(bits(1.5));
    let root = a.push_binary(OpKind::Sub, dist, r);
    for &(px, py) in JET_PTS {
        let d = (px * px + py * py).sqrt();
        close(comp(&a, root, SEED_XY, JetOutput::Value, px, py), d - 1.5, "val");
        close(comp(&a, root, SEED_XY, JetOutput::Partial(0), px, py), px / d, "dx");
        close(comp(&a, root, SEED_XY, JetOutput::Partial(1), px, py), py / d, "dy");
    }
}

#[test]
fn jet_neg_and_zero_partial() {
    // f = -X ; ∂x = -1, ∂y = 0 (statically zero -> returns 0.0)
    let mut a = ExprArena::new();
    let x = a.push_var(0);
    let root = a.push_unary(OpKind::Neg, x);
    for &(px, py) in JET_PTS {
        close(comp(&a, root, SEED_XY, JetOutput::Value, px, py), -px, "val");
        close(comp(&a, root, SEED_XY, JetOutput::Partial(0), px, py), -1.0, "dx");
        close(comp(&a, root, SEED_XY, JetOutput::Partial(1), px, py), 0.0, "dy");
    }
}

#[test]
fn jet_truly_unsupported_op_errs() {
    // exp is not yet lowered (needs bit-manip primitives) and has no jet
    // rule -> loud error, never a miscompile.
    let mut a = ExprArena::new();
    let x = a.push_var(0);
    let root = a.push_unary(OpKind::Exp, x);
    assert!(compile_arena_dag_jet(&a, root, SEED_XY, JetOutput::Value).is_err());
}

#[test]
fn jet_chain_rule_through_floor_and_mul() {
    // f(x) = x - floor(x*0 + 0.5)*c  ; the floor branch is constant
    // (∂=0), so ∂f/∂x = 1 — exercises Floor's zero-partial + Sub/Mul.
    let mut a = ExprArena::new();
    let x = a.push_var(0);
    let zero = a.push_const(bits(0.0));
    let half = a.push_const(bits(0.5));
    let xr = a.push_binary(OpKind::Mul, x, zero);
    let xr = a.push_binary(OpKind::Add, xr, half);
    let k = a.push_unary(OpKind::Floor, xr); // floor(0.5)=0, ∂=0
    let c = a.push_const(bits(7.0));
    let kc = a.push_binary(OpKind::Mul, k, c);
    let root = a.push_binary(OpKind::Sub, x, kc); // = x - 0 = x
    for &xv in &[0.3f32, 1.0, -0.7] {
        let dx = comp(&a, root, SEED_XY, JetOutput::Partial(0), xv, 0.0);
        assert!((dx - 1.0).abs() <= 1e-5, "d/dx = {dx}, want 1");
    }
}

#[test]
fn jet_full_sin_hits_register_wall() {
    let mut a = ExprArena::new();
    let x = a.push_var(0);
    let root = a.push_unary(OpKind::Sin, x);
    assert!(
        compile_arena_dag_jet(&a, root, SEED_XY, JetOutput::Value).is_err(),
        "full sin jet unexpectedly fit — jet may have gained spilling; \
         if so, replace this with a d/dx sin = cos value check"
    );
}

#[test]
fn sin_cos_tan_match_scalar() {
    // Range beyond [-π,π] to exercise the floor-based range reduction.
    let pts = [0.0f32, 0.3, 1.0, 2.0, 3.5, -1.7, 6.0, -4.2];
    for &xv in &pts {
        let mut a = ExprArena::new();
        let x = a.push_var(0);
        let s = a.push_unary(OpKind::Sin, x);
        assert!((run1(&a, s, xv) - xv.sin()).abs() <= TRIG_TOL, "sin({xv})");

        let mut a = ExprArena::new();
        let x = a.push_var(0);
        let c = a.push_unary(OpKind::Cos, x);
        assert!((run1(&a, c, xv) - xv.cos()).abs() <= TRIG_TOL, "cos({xv})");
    }
    // tan away from its poles (ratio of two ~3e-3 approximations).
    for &xv in &[0.0f32, 0.3, 0.7, -0.5, 1.0] {
        let mut a = ExprArena::new();
        let x = a.push_var(0);
        let t = a.push_unary(OpKind::Tan, x);
        // tan = sin/cos amplifies cos's ~2e-2 edge error as |x| grows
        // (measured ~3.8e-2 at x=1). Honest bound for this polynomial.
        assert!((run1(&a, t, xv) - xv.tan()).abs() <= 5e-2, "tan({xv})");
    }
}

#[test]
fn exp_log_match_scalar() {
    // exp / exp2 over a moderate range.
    for &xv in &[-2.0f32, -0.5, 0.0, 0.7, 1.5, 3.0] {
        let mut a = ExprArena::new();
        let x = a.push_var(0);
        let e = a.push_unary(OpKind::Exp, x);
        let rel = (run1(&a, e, xv) - xv.exp()).abs() / xv.exp().max(1.0);
        assert!(rel <= 1e-2, "exp({xv})");

        let mut a = ExprArena::new();
        let x = a.push_var(0);
        let e2 = a.push_unary(OpKind::Exp2, x);
        let rel = (run1(&a, e2, xv) - xv.exp2()).abs() / xv.exp2().max(1.0);
        assert!(rel <= 1e-2, "exp2({xv})");
    }
    // ln / log2 / log10 over positive inputs.
    for &xv in &[0.25f32, 0.5, 1.0, 2.0, 5.0, 100.0] {
        let mut a = ExprArena::new();
        let x = a.push_var(0);
        let l = a.push_unary(OpKind::Ln, x);
        assert!((run1(&a, l, xv) - xv.ln()).abs() <= 3e-2, "ln({xv})");

        let mut a = ExprArena::new();
        let x = a.push_var(0);
        let l2 = a.push_unary(OpKind::Log2, x);
        assert!((run1(&a, l2, xv) - xv.log2()).abs() <= 3e-2, "log2({xv})");
    }
}

#[test]
fn inverse_trig_match_scalar() {
    // The degree-7 atan polynomial is worst (~6e-2) at |ratio|=1; that
    // dominates the tolerance. It catches quadrant errors, which are off by
    // whole radians, not approximation error.
    const ATAN_TOL: f32 = 7e-2;

    // atan over a wide range (exercises the |ratio|>1 swap branch).
    for &xv in &[0.0f32, 0.3, 1.0, 2.5, -0.7, -4.0] {
        let mut a = ExprArena::new();
        let x = a.push_var(0);
        let at = a.push_unary(OpKind::Atan, x);
        assert!((run1(&a, at, xv) - xv.atan()).abs() <= ATAN_TOL, "atan({xv})");
    }
    // asin/acos on [-1, 1].
    for &xv in &[-0.9f32, -0.4, 0.0, 0.4, 0.9] {
        let mut a = ExprArena::new();
        let x = a.push_var(0);
        let s = a.push_unary(OpKind::Asin, x);
        assert!((run1(&a, s, xv) - xv.asin()).abs() <= ATAN_TOL, "asin({xv})");

        let mut a = ExprArena::new();
        let x = a.push_var(0);
        let c = a.push_unary(OpKind::Acos, x);
        assert!((run1(&a, c, xv) - xv.acos()).abs() <= ATAN_TOL, "acos({xv})");
    }
    // atan2 across quadrants (y in var0, x in var1). The (1,1)/(-1,-1)…
    // cases sit at |ratio|=1, the polynomial's worst point.
    let pts = [(1.0f32, 1.0f32), (1.0, -1.0), (-1.0, -1.0), (-1.0, 1.0), (0.5, -2.0)];
    for &(yv, xv) in &pts {
        let mut a = ExprArena::new();
        let y = a.push_var(0);
        let x = a.push_var(1);
        let r = a.push_binary(OpKind::Atan2, y, x);
        let got = run_xy(&a, r, yv, xv);
        assert!((got - yv.atan2(xv)).abs() <= ATAN_TOL, "atan2({yv},{xv}) = {got}");
    }
}

#[test]
fn transcendental_in_expression() {
    let mut a = ExprArena::new();
    let x = a.push_var(0);
    let s = a.push_unary(OpKind::Sin, x);
    let sx = a.push_binary(OpKind::Mul, s, x);
    let one = a.push_const(bits(1.0));
    let root = a.push_binary(OpKind::Add, sx, one);
    for &xv in &[0.2f32, 0.9, 2.1, -1.3] {
        let want = xv.sin() * xv + 1.0;
        // sin's ~3e-3 error is scaled by |x|, so allow for that.
        let tol = 3e-3 * (1.0 + xv.abs());
        assert!((run1(&a, root, xv) - want).abs() <= tol, "sin(x)*x+1 @ {xv}");
    }
}

#[test]
fn sched_parity_no_spill() {
    // f = sqrt(X*X + Y*Y) - Z, plus a non-commutative `X - Y*Z` shape.
    let mut a = ExprArena::new();
    let x = a.push_var(0);
    let y = a.push_var(1);
    let z = a.push_var(2);
    let xx = a.push_binary(OpKind::Mul, x, x);
    let yy = a.push_binary(OpKind::Mul, y, y);
    let sum = a.push_binary(OpKind::Add, xx, yy);
    let dist = a.push_unary(OpKind::Sqrt, sum);
    let yz = a.push_binary(OpKind::Mul, y, z);
    let sub = a.push_binary(OpKind::Sub, dist, yz); // dist - Y*Z
    let root = sub;

    let sethi = compile_arena_dag(&a, root).expect("sethi compile");
    let sched = compile_arena_dag(&a, root).expect("scheduled compile");
    assert_eq!(sched.spill_count, 0, "should fit without spilling");

    for &(px, py, pz, pw) in PTS {
        let want = (px * px + py * py).sqrt() - py * pz;
        let g_sethi = run(&sethi, px, py, pz, pw);
        let g_sched = run(&sched, px, py, pz, pw);
        assert!((g_sethi - want).abs() <= 1e-4, "sethi {g_sethi} want {want}");
        assert!((g_sched - want).abs() <= 1e-4, "sched {g_sched} want {want}");
    }
}

#[test]
fn sched_spills_and_is_correct() {
    // sum_{i=1..=10} (X + i) * (Y + i), as a balanced tree so the 10
    // products are live together — forcing spills with only 7 regs.
    let mut a = ExprArena::new();
    let x = a.push_var(0);
    let y = a.push_var(1);
    let mut terms = Vec::new();
    for i in 1..=10u32 {
        let c = a.push_const(bits(i as f32));
        let ax = a.push_binary(OpKind::Add, x, c);
        let by = a.push_binary(OpKind::Add, y, c);
        terms.push(a.push_binary(OpKind::Mul, ax, by));
    }
    while terms.len() > 1 {
        let mut next = Vec::new();
        let mut it = terms.chunks(2);
        while let Some(pair) = it.next() {
            if pair.len() == 2 {
                next.push(a.push_binary(OpKind::Add, pair[0], pair[1]));
            } else {
                next.push(pair[0]);
            }
        }
        terms = next;
    }
    let root = terms[0];

    let sched = compile_arena_dag(&a, root).expect("scheduled compile");
    assert!(
        sched.spill_count > 0,
        "expected spilling; widen the expression if this regresses"
    );

    for &(px, py, _pz, _pw) in PTS {
        let mut want = 0.0f32;
        for i in 1..=10u32 {
            want += (px + i as f32) * (py + i as f32);
        }
        let got = run(&sched, px, py, 0.0, 0.0);
        let tol = 1e-3 * want.abs().max(1.0);
        assert!((got - want).abs() <= tol, "spill: got {got} want {want}");
    }
}

#[test]
fn sched_select_guards() {
    let mut a = ExprArena::new();
    let x = a.push_var(0);
    let y = a.push_var(1);
    let z = a.push_var(2);
    let zero = a.push_const(bits(0.0));
    let cond = a.push_binary(OpKind::Gt, x, zero); // X > 0 -> mask
    let yy = a.push_binary(OpKind::Mul, y, y);
    let yyy = a.push_binary(OpKind::Mul, yy, y); // true arm: Y^3
    let zz = a.push_binary(OpKind::Add, z, z);
    let zzz = a.push_binary(OpKind::Add, zz, z); // false arm: 3Z
    let root = a.push_ternary(OpKind::Select, cond, yyy, zzz);

    let sched = compile_arena_dag(&a, root).expect("scheduled compile");

    // x>0 -> all-true -> Y^3 ; x<=0 -> all-false -> 3Z.
    for &(px, py, pz, _pw) in PTS {
        let want = if px > 0.0 { py * py * py } else { 3.0 * pz };
        let got = run(&sched, px, py, pz, 0.0);
        assert!((got - want).abs() <= 1e-3, "select: ({px},{py},{pz}) got {got} want {want}");
    }
}

#[test]
fn avx512_arith_no_spill() {
    let mut a = ExprArena::new();
    let x = a.push_var(0);
    let y = a.push_var(1);
    let z = a.push_var(2);
    let xx = a.push_binary(OpKind::Mul, x, x);
    let yy = a.push_binary(OpKind::Mul, y, y);
    let sum = a.push_binary(OpKind::Add, xx, yy);
    let dist = a.push_unary(OpKind::Sqrt, sum);
    let root = a.push_binary(OpKind::Sub, dist, z);

    let res = compile_arena_dag_avx512(&a, root).expect("avx512 compile");
    assert_eq!(res.spill_count, 0, "should fit without spilling");

    let (xs, ys, zs) = lanes();
    check(
        run16(&res, xs, ys, zs),
        |i| (xs[i] * xs[i] + ys[i] * ys[i]).sqrt() - zs[i],
        "norm-z",
    );
}

#[test]
fn avx512_spills_to_real_frame() {
    let mut a = ExprArena::new();
    let x = a.push_var(0);
    let y = a.push_var(1);
    let mut terms = Vec::new();
    for i in 1..=10u32 {
        let c = a.push_const(bits(i as f32));
        let ax = a.push_binary(OpKind::Add, x, c);
        let by = a.push_binary(OpKind::Add, y, c);
        terms.push(a.push_binary(OpKind::Mul, ax, by));
    }
    while terms.len() > 1 {
        let mut next = Vec::new();
        for pair in terms.chunks(2) {
            if pair.len() == 2 {
                next.push(a.push_binary(OpKind::Add, pair[0], pair[1]));
            } else {
                next.push(pair[0]);
            }
        }
        terms = next;
    }
    let root = terms[0];

    let res = compile_arena_dag_avx512(&a, root).expect("avx512 compile");
    assert!(res.spill_count > 0, "expected spilling");

    let (xs, ys, zs) = lanes();
    check(
        run16(&res, xs, ys, zs),
        |i| {
            let mut acc = 0.0f32;
            for k in 1..=10u32 {
                acc += (xs[i] + k as f32) * (ys[i] + k as f32);
            }
            acc
        },
        "spill",
    );
}

#[test]
fn avx512_compare_select_blend() {
    let mut a = ExprArena::new();
    let x = a.push_var(0);
    let y = a.push_var(1);
    let cond = a.push_binary(OpKind::Lt, x, y);
    let root = a.push_ternary(OpKind::Select, cond, x, y);

    let res = compile_arena_dag_avx512(&a, root).expect("avx512 compile");
    let (xs, ys, zs) = lanes();
    check(run16(&res, xs, ys, zs), |i| xs[i].min(ys[i]), "lt-select");
}

#[test]
fn avx512_select_guards() {
    let mut a = ExprArena::new();
    let x = a.push_var(0);
    let y = a.push_var(1);
    let z = a.push_var(2);
    let zero = a.push_const(bits(0.0));
    let cond = a.push_binary(OpKind::Gt, x, zero);
    let yy = a.push_binary(OpKind::Mul, y, y);
    let yyy = a.push_binary(OpKind::Mul, yy, y);
    let zz = a.push_binary(OpKind::Add, z, z);
    let zzz = a.push_binary(OpKind::Add, zz, z);
    let root = a.push_ternary(OpKind::Select, cond, yyy, zzz);

    let res = compile_arena_dag_avx512(&a, root).expect("avx512 compile");

    let allpos = [2.0f32; 16];
    let allneg = [-2.0f32; 16];
    let ys = core::array::from_fn::<f32, 16, _>(|i| i as f32 * 0.5 + 1.0);
    let zs = core::array::from_fn::<f32, 16, _>(|i| 3.0 - i as f32 * 0.25);
    check(run16(&res, allpos, ys, zs), |i| ys[i] * ys[i] * ys[i], "guard-true");
    check(run16(&res, allneg, ys, zs), |i| 3.0 * zs[i], "guard-false");

    let mixed = core::array::from_fn::<f32, 16, _>(|i| if i % 2 == 0 { 1.0 } else { -1.0 });
    check(
        run16(&res, mixed, ys, zs),
        |i| if mixed[i] > 0.0 { ys[i] * ys[i] * ys[i] } else { 3.0 * zs[i] },
        "guard-mixed",
    );
}

#[test]
fn avx512_rounding() {
    // Mixed fractional/sign inputs so each rounding mode is distinct.
    let xs = core::array::from_fn::<f32, 16, _>(|i| (i as f32 - 8.0) * 0.7);
    let ones = [1.0f32; 16];
    for (op, f, tag) in [
        (OpKind::Floor, f32::floor as fn(f32) -> f32, "floor"),
        (OpKind::Ceil, f32::ceil as fn(f32) -> f32, "ceil"),
        (OpKind::Round, f32::round_ties_even as fn(f32) -> f32, "round"),
    ] {
        let mut a = ExprArena::new();
        let x = a.push_var(0);
        let root = a.push_unary(op, x);
        let res = compile_arena_dag_avx512(&a, root).expect("avx512 compile");
        check(run16(&res, xs, ones, ones), |i| f(xs[i]), tag);
    }
}

#[test]
fn binary_ops() {
    let (xs, ys, zs) = lanes();
    let cases: &[(OpKind, fn(f32, f32) -> f32)] = &[
        (OpKind::Add, |a, b| a + b),
        (OpKind::Sub, |a, b| a - b),
        (OpKind::Mul, |a, b| a * b),
        (OpKind::Div, |a, b| a / b),
        (OpKind::Min, |a, b| a.min(b)),
        (OpKind::Max, |a, b| a.max(b)),
    ];
    for &(op, f) in cases {
        let mut c = Vec::new();
        emit_binary(&mut c, op, X, X, Y).unwrap();
        check(run_body(&c, xs, ys, zs), |i| f(xs[i], ys[i]), "binary");
    }
}

#[test]
fn high_register() {
    let (xs, ys, zs) = lanes();
    let mut c = Vec::new();
    emit_binary(&mut c, OpKind::Mul, Reg(20), X, Y).unwrap();
    emit_mov(&mut c, X, Reg(20));
    check(run_body(&c, xs, ys, zs), |i| xs[i] * ys[i], "mul via zmm20");
}

#[test]
fn sqrt_op() {
    let (xs, ys, zs) = lanes();
    let mut c = Vec::new();
    emit_unary(&mut c, OpKind::Sqrt, X, Y).unwrap(); // Y > 0
    check(run_body(&c, xs, ys, zs), |i| ys[i].sqrt(), "sqrt");
}

#[test]
fn neg_abs() {
    let (xs, ys, zs) = lanes();
    let mut c = Vec::new();
    emit_unary(&mut c, OpKind::Neg, X, X).unwrap();
    check(run_body(&c, xs, ys, zs), |i| -xs[i], "neg");
    let mut c = Vec::new();
    emit_unary(&mut c, OpKind::Abs, X, X).unwrap();
    check(run_body(&c, xs, ys, zs), |i| xs[i].abs(), "abs");
}

#[test]
fn const_broadcast() {
    let (xs, ys, zs) = lanes();
    let mut c = Vec::new();
    emit_const(&mut c, Reg(5), bits(2.5));
    emit_binary(&mut c, OpKind::Add, X, X, Reg(5)).unwrap();
    check(run_body(&c, xs, ys, zs), |i| xs[i] + 2.5, "const+add");
}

#[test]
fn fma_231() {
    let (xs, ys, zs) = lanes();
    // emit_fmadd_c_in_dst(dst, a, b): dst = a*b + dst.
    let mut c = Vec::new();
    emit_mov(&mut c, Reg(5), Z);
    emit_fmadd_c_in_dst(&mut c, Reg(5), X, Y);
    emit_mov(&mut c, X, Reg(5));
    check(run_body(&c, xs, ys, zs), |i| xs[i] * ys[i] + zs[i], "fma231");
}

#[test]
fn spill_frame_roundtrip() {
    let (xs, ys, zs) = lanes();
    let mut c = Vec::new();
    emit_sub_rsp(&mut c, 64);
    emit_binary(&mut c, OpKind::Mul, Reg(6), X, Y).unwrap();
    emit_store_rsp(&mut c, Reg(6), 0);
    emit_binary(&mut c, OpKind::Add, Reg(6), X, X).unwrap(); // clobber
    emit_load_rsp(&mut c, X, 0);
    emit_add_rsp(&mut c, 64);
    check(run_body(&c, xs, ys, zs), |i| xs[i] * ys[i], "spill roundtrip");
}

#[test]
fn scanlines_expand_transcendentals() {
    let pts = [0.0f32, 0.3, 1.0, 2.0, 3.5, -1.7, 6.0, -4.2];
    for (op, want) in [(OpKind::Sin, f32::sin as fn(f32) -> f32), (OpKind::Cos, f32::cos)] {
        let mut a = ExprArena::new();
        let x = a.push_var(0);
        let y = a.push_var(1);
        let s = a.push_unary(op, x);
        let root = a.push_binary(OpKind::Mul, s, y);
        let line = compile_arena_dag_scanline(&a, root).expect("scanline compile failed");
        for (xv, got) in pts.into_iter().zip(scan(&line.code, &pts, 2.0, 0.0, 0.0)) {
            let right = 2.0 * want(xv);
            assert!((got - right).abs() <= 2.0 * TRIG_TOL, "{op:?}({xv}): got {got} want {right}");
        }
        let (b, flat) = expand_transcendentals_owned(&a, root);
        let plain = compile_arena_dag_scanline(&b, flat).expect("scanline compile failed");
        assert_eq!(line.code, plain.code);
    }
}

#[test]
fn wide_kernels_expand_transcendentals() {
    let (xs, ys, zs) = lanes();
    let mut a = ExprArena::new();
    let x = a.push_var(0);
    let y = a.push_var(1);
    let s = a.push_unary(OpKind::Sin, x);
    let root = a.push_binary(OpKind::Add, s, y);
    match try_compile_arena_dag_wide(&a, root) {
        Outcome::Done(c) => {
            let got = call16(&c.code, xs, ys, zs);
            for i in 0..16 {
                let right = run_xy(&a, root, xs[i], ys[i]);
                assert!((got[i] - right).abs() <= 1e-5, "lane {i}: {} {right}", got[i]);
            }
            for i in 5..10 {
                let right = xs[i].sin() + ys[i];
                assert!((got[i] - right).abs() <= TRIG_TOL, "lane {i}: {} {right}", got[i]);
            }
            let (b, flat) = expand_transcendentals_owned(&a, root);
            let plain = compile_arena_dag_avx512(&b, flat).expect("avx512 compile");
            assert_eq!(c.code, plain.code);
        }
        _ => panic!("the kernel was not compiled"),
    }
    assert!(compile_arena_dag_avx512(&a, root).is_err());
}

#[test]
fn scanline_jumps_lead_to_the_test_and_the_return() {
    let mut a = ExprArena::new();
    let x = a.push_var(0);
    let root = a.push_unary(OpKind::Neg, x);
    let code = compile_arena_dag_scanline(&a, root).expect("scanline compile failed").code;
    let top = 11;
    let end = code.len();
    assert_eq!(code[top - 2..top + 5], [0x31, 0xC0, 0x48, 0x39, 0xD0, 0x0F, 0x83]);
    assert_eq!(top as i64 + 9 + word(&code, top + 5) as i32 as i64, end as i64 - 1);
    assert_eq!(code[end - 6], 0xE9);
    assert_eq!(end as i64 - 1 + word(&code, end - 5) as i32 as i64, top as i64);
    assert_eq!(code[end - 1], 0xC3);
}
