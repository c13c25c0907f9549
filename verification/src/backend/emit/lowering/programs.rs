//! Straight-line programs computing transcendental functions from primitive
//! operations.

use crate::kind::OpKind;
use vstd::prelude::*;

verus! {

/// An operand of a program step.
#[derive(Clone, Copy, PartialEq, Eq, Structural, Debug)]
pub enum Operand {
    /// An argument of the program.
    Arg(usize),
    /// The result of an earlier step.
    Step(usize),
}

/// One step of a program.
#[derive(Clone, Copy, PartialEq, Eq, Structural, Debug)]
pub enum Step {
    /// A constant, by its bits.
    Const(u32),
    /// A unary operation.
    Unary(OpKind, Operand),
    /// A binary operation.
    Binary(OpKind, Operand, Operand),
    /// A ternary operation.
    Ternary(OpKind, Operand, Operand, Operand),
}

impl Operand {
    /// The operand is an argument or an earlier step.
    pub open spec fn ok(self, k: int, args: int) -> bool {
        match self {
            Operand::Arg(i) => i < args,
            Operand::Step(j) => j < k,
        }
    }
}

impl Step {
    /// The step's operands are arguments or earlier steps.
    pub open spec fn ok(self, k: int, args: int) -> bool {
        match self {
            Step::Const(_) => true,
            Step::Unary(_, a) => a.ok(k, args),
            Step::Binary(_, a, b) => a.ok(k, args) && b.ok(k, args),
            Step::Ternary(_, a, b, c) => a.ok(k, args) && b.ok(k, args) && c.ok(k, args),
        }
    }

    /// The step applies no transcendental function.
    pub open spec fn primitive(self) -> bool {
        match self {
            Step::Const(_) | Step::Ternary(_, _, _, _) => true,
            Step::Unary(op, _) => !transcendental_unary(op),
            Step::Binary(op, _, _) => !transcendental_binary(op),
        }
    }
}

/// A program of `args` arguments: steps refer to arguments and earlier steps,
/// and apply only primitive operations.
pub open spec fn program_ok(prog: Seq<Step>, args: int) -> bool {
    &&& prog.len() > 0
    &&& prog.len() <= 64
    &&& forall|k: int|
        0 <= k < prog.len() ==> (#[trigger] prog[k]).ok(k, args) && prog[k].primitive()
}

/// The operation is a unary function with no machine instruction.
pub open spec fn transcendental_unary(op: OpKind) -> bool {
    match op {
        OpKind::Sin | OpKind::Cos | OpKind::Tan | OpKind::Exp | OpKind::Exp2 | OpKind::Ln
        | OpKind::Log2 | OpKind::Log10 | OpKind::Atan | OpKind::Asin | OpKind::Acos => true,
        _ => false,
    }
}

/// The operation is a binary function with no machine instruction.
pub open spec fn transcendental_binary(op: OpKind) -> bool {
    op is Atan2
}

/// Steps of sin(x). Range reduction to [-pi, pi], then a degree-7 odd polynomial, built from
/// addition, subtraction, multiplication and floor only.
#[verifier::opaque]
pub open spec fn sin_steps() -> Seq<Step> {
    seq![
        // 0: two_pi_inv
        Step::Const(0x3E22F983),
        // 1: half
        Step::Const(0x3F000000),
        // 2: scaled
        Step::Binary(OpKind::Mul, Operand::Arg(0), Operand::Step(0)),
        // 3: shifted
        Step::Binary(OpKind::Add, Operand::Step(2), Operand::Step(1)),
        // 4: k
        Step::Unary(OpKind::Floor, Operand::Step(3)),
        // 5: tau
        Step::Const(0x40C90FDB),
        // 6: k_tau
        Step::Binary(OpKind::Mul, Operand::Step(4), Operand::Step(5)),
        // 7: xx
        Step::Binary(OpKind::Sub, Operand::Arg(0), Operand::Step(6)),
        // 8: pi_inv
        Step::Const(0x3EA2F983),
        // 9: t
        Step::Binary(OpKind::Mul, Operand::Step(7), Operand::Step(8)),
        // 10: t2
        Step::Binary(OpKind::Mul, Operand::Step(9), Operand::Step(9)),
        // 11: c1
        Step::Const(0x40490FDB),
        // 12: c3
        Step::Const(0xC0A55DE7),
        // 13: c5
        Step::Const(0x402335E3),
        // 14: c7
        Step::Const(0xBF196966),
        // 15: p5_prod
        Step::Binary(OpKind::Mul, Operand::Step(14), Operand::Step(10)),
        // 16: p5
        Step::Binary(OpKind::Add, Operand::Step(15), Operand::Step(13)),
        // 17: p3_prod
        Step::Binary(OpKind::Mul, Operand::Step(16), Operand::Step(10)),
        // 18: p3
        Step::Binary(OpKind::Add, Operand::Step(17), Operand::Step(12)),
        // 19: p1_prod
        Step::Binary(OpKind::Mul, Operand::Step(18), Operand::Step(10)),
        // 20: p1
        Step::Binary(OpKind::Add, Operand::Step(19), Operand::Step(11)),
        // 21: r
        Step::Binary(OpKind::Mul, Operand::Step(9), Operand::Step(20)),
    ]
}

/// The steps of sin(x).
pub(crate) fn sin_program() -> (v: Vec<Step>)
    ensures
        v@ == sin_steps(),
{
    let v: Vec<Step> = vec![
        // 0: two_pi_inv
        Step::Const(0x3E22F983),
        // 1: half
        Step::Const(0x3F000000),
        // 2: scaled
        Step::Binary(OpKind::Mul, Operand::Arg(0), Operand::Step(0)),
        // 3: shifted
        Step::Binary(OpKind::Add, Operand::Step(2), Operand::Step(1)),
        // 4: k
        Step::Unary(OpKind::Floor, Operand::Step(3)),
        // 5: tau
        Step::Const(0x40C90FDB),
        // 6: k_tau
        Step::Binary(OpKind::Mul, Operand::Step(4), Operand::Step(5)),
        // 7: xx
        Step::Binary(OpKind::Sub, Operand::Arg(0), Operand::Step(6)),
        // 8: pi_inv
        Step::Const(0x3EA2F983),
        // 9: t
        Step::Binary(OpKind::Mul, Operand::Step(7), Operand::Step(8)),
        // 10: t2
        Step::Binary(OpKind::Mul, Operand::Step(9), Operand::Step(9)),
        // 11: c1
        Step::Const(0x40490FDB),
        // 12: c3
        Step::Const(0xC0A55DE7),
        // 13: c5
        Step::Const(0x402335E3),
        // 14: c7
        Step::Const(0xBF196966),
        // 15: p5_prod
        Step::Binary(OpKind::Mul, Operand::Step(14), Operand::Step(10)),
        // 16: p5
        Step::Binary(OpKind::Add, Operand::Step(15), Operand::Step(13)),
        // 17: p3_prod
        Step::Binary(OpKind::Mul, Operand::Step(16), Operand::Step(10)),
        // 18: p3
        Step::Binary(OpKind::Add, Operand::Step(17), Operand::Step(12)),
        // 19: p1_prod
        Step::Binary(OpKind::Mul, Operand::Step(18), Operand::Step(10)),
        // 20: p1
        Step::Binary(OpKind::Add, Operand::Step(19), Operand::Step(11)),
        // 21: r
        Step::Binary(OpKind::Mul, Operand::Step(9), Operand::Step(20)),
    ];
    proof {
        reveal(sin_steps);
    }
    assert(v@ =~= sin_steps());
    v
}

pub proof fn lemma_sin_ok()
    ensures
        program_ok(sin_steps(), 1),
        sin_steps().len() == 22,
{
    reveal(sin_steps);
    let p = sin_steps();
    assert(p[0].ok(0, 1) && p[0].primitive());
    assert(p[1].ok(1, 1) && p[1].primitive());
    assert(p[2].ok(2, 1) && p[2].primitive());
    assert(p[3].ok(3, 1) && p[3].primitive());
    assert(p[4].ok(4, 1) && p[4].primitive());
    assert(p[5].ok(5, 1) && p[5].primitive());
    assert(p[6].ok(6, 1) && p[6].primitive());
    assert(p[7].ok(7, 1) && p[7].primitive());
    assert(p[8].ok(8, 1) && p[8].primitive());
    assert(p[9].ok(9, 1) && p[9].primitive());
    assert(p[10].ok(10, 1) && p[10].primitive());
    assert(p[11].ok(11, 1) && p[11].primitive());
    assert(p[12].ok(12, 1) && p[12].primitive());
    assert(p[13].ok(13, 1) && p[13].primitive());
    assert(p[14].ok(14, 1) && p[14].primitive());
    assert(p[15].ok(15, 1) && p[15].primitive());
    assert(p[16].ok(16, 1) && p[16].primitive());
    assert(p[17].ok(17, 1) && p[17].primitive());
    assert(p[18].ok(18, 1) && p[18].primitive());
    assert(p[19].ok(19, 1) && p[19].primitive());
    assert(p[20].ok(20, 1) && p[20].primitive());
    assert(p[21].ok(21, 1) && p[21].primitive());
}

/// Steps of 2^x. The exponent is held to [-126, 126] and split: a polynomial for the fraction,
/// the exponent bits for the integer.
#[verifier::opaque]
pub open spec fn exp2_steps() -> Seq<Step> {
    seq![
        // 0: lo
        Step::Const(0xC2FC0000),
        // 1: hi
        Step::Const(0x42FC0000),
        // 2: above
        Step::Binary(OpKind::Max, Operand::Arg(0), Operand::Step(0)),
        // 3: held
        Step::Binary(OpKind::Min, Operand::Step(2), Operand::Step(1)),
        // 4: xi
        Step::Unary(OpKind::Floor, Operand::Step(3)),
        // 5: xf
        Step::Binary(OpKind::Sub, Operand::Step(3), Operand::Step(4)),
        // 6: c0
        Step::Const(0x3F800000),
        // 7: c1
        Step::Const(0x3F317218),
        // 8: c2
        Step::Const(0x3E75FDF0),
        // 9: c3
        Step::Const(0x3D635847),
        // 10: c4
        Step::Const(0x3C1D955B),
        // 11: c5
        Step::Const(0x3AAEC3FF),
        // 12: p4_prod
        Step::Binary(OpKind::Mul, Operand::Step(11), Operand::Step(5)),
        // 13: p4
        Step::Binary(OpKind::Add, Operand::Step(12), Operand::Step(10)),
        // 14: p3_prod
        Step::Binary(OpKind::Mul, Operand::Step(13), Operand::Step(5)),
        // 15: p3
        Step::Binary(OpKind::Add, Operand::Step(14), Operand::Step(9)),
        // 16: p2_prod
        Step::Binary(OpKind::Mul, Operand::Step(15), Operand::Step(5)),
        // 17: p2
        Step::Binary(OpKind::Add, Operand::Step(16), Operand::Step(8)),
        // 18: p1_prod
        Step::Binary(OpKind::Mul, Operand::Step(17), Operand::Step(5)),
        // 19: p1
        Step::Binary(OpKind::Add, Operand::Step(18), Operand::Step(7)),
        // 20: p0_prod
        Step::Binary(OpKind::Mul, Operand::Step(19), Operand::Step(5)),
        // 21: p0
        Step::Binary(OpKind::Add, Operand::Step(20), Operand::Step(6)),
        // 22: xi_int
        Step::Unary(OpKind::TruncToInt, Operand::Step(4)),
        // 23: bias
        Step::Const(0x0000007F),
        // 24: biased
        Step::Binary(OpKind::IAdd, Operand::Step(22), Operand::Step(23)),
        // 25: shift
        Step::Const(0x41B80000),
        // 26: pow2i
        Step::Binary(OpKind::Shl, Operand::Step(24), Operand::Step(25)),
        // 27: r
        Step::Binary(OpKind::Mul, Operand::Step(21), Operand::Step(26)),
    ]
}

/// The steps of 2^x.
pub(crate) fn exp2_program() -> (v: Vec<Step>)
    ensures
        v@ == exp2_steps(),
{
    let v: Vec<Step> = vec![
        // 0: lo
        Step::Const(0xC2FC0000),
        // 1: hi
        Step::Const(0x42FC0000),
        // 2: above
        Step::Binary(OpKind::Max, Operand::Arg(0), Operand::Step(0)),
        // 3: held
        Step::Binary(OpKind::Min, Operand::Step(2), Operand::Step(1)),
        // 4: xi
        Step::Unary(OpKind::Floor, Operand::Step(3)),
        // 5: xf
        Step::Binary(OpKind::Sub, Operand::Step(3), Operand::Step(4)),
        // 6: c0
        Step::Const(0x3F800000),
        // 7: c1
        Step::Const(0x3F317218),
        // 8: c2
        Step::Const(0x3E75FDF0),
        // 9: c3
        Step::Const(0x3D635847),
        // 10: c4
        Step::Const(0x3C1D955B),
        // 11: c5
        Step::Const(0x3AAEC3FF),
        // 12: p4_prod
        Step::Binary(OpKind::Mul, Operand::Step(11), Operand::Step(5)),
        // 13: p4
        Step::Binary(OpKind::Add, Operand::Step(12), Operand::Step(10)),
        // 14: p3_prod
        Step::Binary(OpKind::Mul, Operand::Step(13), Operand::Step(5)),
        // 15: p3
        Step::Binary(OpKind::Add, Operand::Step(14), Operand::Step(9)),
        // 16: p2_prod
        Step::Binary(OpKind::Mul, Operand::Step(15), Operand::Step(5)),
        // 17: p2
        Step::Binary(OpKind::Add, Operand::Step(16), Operand::Step(8)),
        // 18: p1_prod
        Step::Binary(OpKind::Mul, Operand::Step(17), Operand::Step(5)),
        // 19: p1
        Step::Binary(OpKind::Add, Operand::Step(18), Operand::Step(7)),
        // 20: p0_prod
        Step::Binary(OpKind::Mul, Operand::Step(19), Operand::Step(5)),
        // 21: p0
        Step::Binary(OpKind::Add, Operand::Step(20), Operand::Step(6)),
        // 22: xi_int
        Step::Unary(OpKind::TruncToInt, Operand::Step(4)),
        // 23: bias
        Step::Const(0x0000007F),
        // 24: biased
        Step::Binary(OpKind::IAdd, Operand::Step(22), Operand::Step(23)),
        // 25: shift
        Step::Const(0x41B80000),
        // 26: pow2i
        Step::Binary(OpKind::Shl, Operand::Step(24), Operand::Step(25)),
        // 27: r
        Step::Binary(OpKind::Mul, Operand::Step(21), Operand::Step(26)),
    ];
    proof {
        reveal(exp2_steps);
    }
    assert(v@ =~= exp2_steps());
    v
}

pub proof fn lemma_exp2_ok()
    ensures
        program_ok(exp2_steps(), 1),
        exp2_steps().len() == 28,
{
    reveal(exp2_steps);
    let p = exp2_steps();
    assert(p[0].ok(0, 1) && p[0].primitive());
    assert(p[1].ok(1, 1) && p[1].primitive());
    assert(p[2].ok(2, 1) && p[2].primitive());
    assert(p[3].ok(3, 1) && p[3].primitive());
    assert(p[4].ok(4, 1) && p[4].primitive());
    assert(p[5].ok(5, 1) && p[5].primitive());
    assert(p[6].ok(6, 1) && p[6].primitive());
    assert(p[7].ok(7, 1) && p[7].primitive());
    assert(p[8].ok(8, 1) && p[8].primitive());
    assert(p[9].ok(9, 1) && p[9].primitive());
    assert(p[10].ok(10, 1) && p[10].primitive());
    assert(p[11].ok(11, 1) && p[11].primitive());
    assert(p[12].ok(12, 1) && p[12].primitive());
    assert(p[13].ok(13, 1) && p[13].primitive());
    assert(p[14].ok(14, 1) && p[14].primitive());
    assert(p[15].ok(15, 1) && p[15].primitive());
    assert(p[16].ok(16, 1) && p[16].primitive());
    assert(p[17].ok(17, 1) && p[17].primitive());
    assert(p[18].ok(18, 1) && p[18].primitive());
    assert(p[19].ok(19, 1) && p[19].primitive());
    assert(p[20].ok(20, 1) && p[20].primitive());
    assert(p[21].ok(21, 1) && p[21].primitive());
    assert(p[22].ok(22, 1) && p[22].primitive());
    assert(p[23].ok(23, 1) && p[23].primitive());
    assert(p[24].ok(24, 1) && p[24].primitive());
    assert(p[25].ok(25, 1) && p[25].primitive());
    assert(p[26].ok(26, 1) && p[26].primitive());
    assert(p[27].ok(27, 1) && p[27].primitive());
}

/// Steps of log2(x). The exponent field, plus a polynomial on the mantissa reduced to
/// [sqrt(2)/2, sqrt(2)).
#[verifier::opaque]
pub open spec fn log2_steps() -> Seq<Step> {
    seq![
        // 0: shift23
        Step::Const(0x41B80000),
        // 1: exp_field
        Step::Binary(OpKind::Shr, Operand::Arg(0), Operand::Step(0)),
        // 2: exp_f
        Step::Unary(OpKind::IntToFloat, Operand::Step(1)),
        // 3: bias
        Step::Const(0x42FE0000),
        // 4: e0
        Step::Binary(OpKind::Sub, Operand::Step(2), Operand::Step(3)),
        // 5: mant_mask
        Step::Const(0x007FFFFF),
        // 6: one_bits
        Step::Const(0x3F800000),
        // 7: mant
        Step::Binary(OpKind::BitAnd, Operand::Arg(0), Operand::Step(5)),
        // 8: m0
        Step::Binary(OpKind::BitOr, Operand::Step(7), Operand::Step(6)),
        // 9: sqrt2
        Step::Const(0x3FB504F3),
        // 10: reduce
        Step::Binary(OpKind::Ge, Operand::Step(8), Operand::Step(9)),
        // 11: half
        Step::Const(0x3F000000),
        // 12: m_halved
        Step::Binary(OpKind::Mul, Operand::Step(8), Operand::Step(11)),
        // 13: m1
        Step::Ternary(OpKind::Select, Operand::Step(10), Operand::Step(12), Operand::Step(8)),
        // 14: one
        Step::Const(0x3F800000),
        // 15: e_bumped
        Step::Binary(OpKind::Add, Operand::Step(4), Operand::Step(14)),
        // 16: e1
        Step::Ternary(OpKind::Select, Operand::Step(10), Operand::Step(15), Operand::Step(4)),
        // 17: t
        Step::Binary(OpKind::Sub, Operand::Step(13), Operand::Step(14)),
        // 18: c8
        Step::Const(0x3D9021BB),
        // 19: c7
        Step::Const(0xBDEBD1B8),
        // 20: c6
        Step::Const(0x3DEF251B),
        // 21: c5
        Step::Const(0xBDFE5D4F),
        // 22: c4
        Step::Const(0x3E11E9BF),
        // 23: c3
        Step::Const(0xBE2AAE50),
        // 24: c2
        Step::Const(0x3E4CCEAD),
        // 25: c1
        Step::Const(0xBE7FFFFC),
        // 26: c0
        Step::Const(0x3EAAAAAA),
        // 27: p7_prod
        Step::Binary(OpKind::Mul, Operand::Step(18), Operand::Step(17)),
        // 28: p7
        Step::Binary(OpKind::Add, Operand::Step(27), Operand::Step(19)),
        // 29: p6_prod
        Step::Binary(OpKind::Mul, Operand::Step(28), Operand::Step(17)),
        // 30: p6
        Step::Binary(OpKind::Add, Operand::Step(29), Operand::Step(20)),
        // 31: p5_prod
        Step::Binary(OpKind::Mul, Operand::Step(30), Operand::Step(17)),
        // 32: p5
        Step::Binary(OpKind::Add, Operand::Step(31), Operand::Step(21)),
        // 33: p4_prod
        Step::Binary(OpKind::Mul, Operand::Step(32), Operand::Step(17)),
        // 34: p4
        Step::Binary(OpKind::Add, Operand::Step(33), Operand::Step(22)),
        // 35: p3_prod
        Step::Binary(OpKind::Mul, Operand::Step(34), Operand::Step(17)),
        // 36: p3
        Step::Binary(OpKind::Add, Operand::Step(35), Operand::Step(23)),
        // 37: p2_prod
        Step::Binary(OpKind::Mul, Operand::Step(36), Operand::Step(17)),
        // 38: p2
        Step::Binary(OpKind::Add, Operand::Step(37), Operand::Step(24)),
        // 39: p1_prod
        Step::Binary(OpKind::Mul, Operand::Step(38), Operand::Step(17)),
        // 40: p1
        Step::Binary(OpKind::Add, Operand::Step(39), Operand::Step(25)),
        // 41: p0_prod
        Step::Binary(OpKind::Mul, Operand::Step(40), Operand::Step(17)),
        // 42: p0
        Step::Binary(OpKind::Add, Operand::Step(41), Operand::Step(26)),
        // 43: t2
        Step::Binary(OpKind::Mul, Operand::Step(17), Operand::Step(17)),
        // 44: t3
        Step::Binary(OpKind::Mul, Operand::Step(43), Operand::Step(17)),
        // 45: t3p
        Step::Binary(OpKind::Mul, Operand::Step(44), Operand::Step(42)),
        // 46: half_t2
        Step::Binary(OpKind::Mul, Operand::Step(43), Operand::Step(11)),
        // 47: y
        Step::Binary(OpKind::Sub, Operand::Step(45), Operand::Step(46)),
        // 48: log2ea
        Step::Const(0x3EE2A8ED),
        // 49: y_ea
        Step::Binary(OpKind::Mul, Operand::Step(47), Operand::Step(48)),
        // 50: t_ea
        Step::Binary(OpKind::Mul, Operand::Step(17), Operand::Step(48)),
        // 51: z0
        Step::Binary(OpKind::Add, Operand::Step(49), Operand::Step(50)),
        // 52: z1
        Step::Binary(OpKind::Add, Operand::Step(51), Operand::Step(47)),
        // 53: z2
        Step::Binary(OpKind::Add, Operand::Step(52), Operand::Step(17)),
        // 54: r
        Step::Binary(OpKind::Add, Operand::Step(53), Operand::Step(16)),
    ]
}

/// The steps of log2(x).
pub(crate) fn log2_program() -> (v: Vec<Step>)
    ensures
        v@ == log2_steps(),
{
    let v: Vec<Step> = vec![
        // 0: shift23
        Step::Const(0x41B80000),
        // 1: exp_field
        Step::Binary(OpKind::Shr, Operand::Arg(0), Operand::Step(0)),
        // 2: exp_f
        Step::Unary(OpKind::IntToFloat, Operand::Step(1)),
        // 3: bias
        Step::Const(0x42FE0000),
        // 4: e0
        Step::Binary(OpKind::Sub, Operand::Step(2), Operand::Step(3)),
        // 5: mant_mask
        Step::Const(0x007FFFFF),
        // 6: one_bits
        Step::Const(0x3F800000),
        // 7: mant
        Step::Binary(OpKind::BitAnd, Operand::Arg(0), Operand::Step(5)),
        // 8: m0
        Step::Binary(OpKind::BitOr, Operand::Step(7), Operand::Step(6)),
        // 9: sqrt2
        Step::Const(0x3FB504F3),
        // 10: reduce
        Step::Binary(OpKind::Ge, Operand::Step(8), Operand::Step(9)),
        // 11: half
        Step::Const(0x3F000000),
        // 12: m_halved
        Step::Binary(OpKind::Mul, Operand::Step(8), Operand::Step(11)),
        // 13: m1
        Step::Ternary(OpKind::Select, Operand::Step(10), Operand::Step(12), Operand::Step(8)),
        // 14: one
        Step::Const(0x3F800000),
        // 15: e_bumped
        Step::Binary(OpKind::Add, Operand::Step(4), Operand::Step(14)),
        // 16: e1
        Step::Ternary(OpKind::Select, Operand::Step(10), Operand::Step(15), Operand::Step(4)),
        // 17: t
        Step::Binary(OpKind::Sub, Operand::Step(13), Operand::Step(14)),
        // 18: c8
        Step::Const(0x3D9021BB),
        // 19: c7
        Step::Const(0xBDEBD1B8),
        // 20: c6
        Step::Const(0x3DEF251B),
        // 21: c5
        Step::Const(0xBDFE5D4F),
        // 22: c4
        Step::Const(0x3E11E9BF),
        // 23: c3
        Step::Const(0xBE2AAE50),
        // 24: c2
        Step::Const(0x3E4CCEAD),
        // 25: c1
        Step::Const(0xBE7FFFFC),
        // 26: c0
        Step::Const(0x3EAAAAAA),
        // 27: p7_prod
        Step::Binary(OpKind::Mul, Operand::Step(18), Operand::Step(17)),
        // 28: p7
        Step::Binary(OpKind::Add, Operand::Step(27), Operand::Step(19)),
        // 29: p6_prod
        Step::Binary(OpKind::Mul, Operand::Step(28), Operand::Step(17)),
        // 30: p6
        Step::Binary(OpKind::Add, Operand::Step(29), Operand::Step(20)),
        // 31: p5_prod
        Step::Binary(OpKind::Mul, Operand::Step(30), Operand::Step(17)),
        // 32: p5
        Step::Binary(OpKind::Add, Operand::Step(31), Operand::Step(21)),
        // 33: p4_prod
        Step::Binary(OpKind::Mul, Operand::Step(32), Operand::Step(17)),
        // 34: p4
        Step::Binary(OpKind::Add, Operand::Step(33), Operand::Step(22)),
        // 35: p3_prod
        Step::Binary(OpKind::Mul, Operand::Step(34), Operand::Step(17)),
        // 36: p3
        Step::Binary(OpKind::Add, Operand::Step(35), Operand::Step(23)),
        // 37: p2_prod
        Step::Binary(OpKind::Mul, Operand::Step(36), Operand::Step(17)),
        // 38: p2
        Step::Binary(OpKind::Add, Operand::Step(37), Operand::Step(24)),
        // 39: p1_prod
        Step::Binary(OpKind::Mul, Operand::Step(38), Operand::Step(17)),
        // 40: p1
        Step::Binary(OpKind::Add, Operand::Step(39), Operand::Step(25)),
        // 41: p0_prod
        Step::Binary(OpKind::Mul, Operand::Step(40), Operand::Step(17)),
        // 42: p0
        Step::Binary(OpKind::Add, Operand::Step(41), Operand::Step(26)),
        // 43: t2
        Step::Binary(OpKind::Mul, Operand::Step(17), Operand::Step(17)),
        // 44: t3
        Step::Binary(OpKind::Mul, Operand::Step(43), Operand::Step(17)),
        // 45: t3p
        Step::Binary(OpKind::Mul, Operand::Step(44), Operand::Step(42)),
        // 46: half_t2
        Step::Binary(OpKind::Mul, Operand::Step(43), Operand::Step(11)),
        // 47: y
        Step::Binary(OpKind::Sub, Operand::Step(45), Operand::Step(46)),
        // 48: log2ea
        Step::Const(0x3EE2A8ED),
        // 49: y_ea
        Step::Binary(OpKind::Mul, Operand::Step(47), Operand::Step(48)),
        // 50: t_ea
        Step::Binary(OpKind::Mul, Operand::Step(17), Operand::Step(48)),
        // 51: z0
        Step::Binary(OpKind::Add, Operand::Step(49), Operand::Step(50)),
        // 52: z1
        Step::Binary(OpKind::Add, Operand::Step(51), Operand::Step(47)),
        // 53: z2
        Step::Binary(OpKind::Add, Operand::Step(52), Operand::Step(17)),
        // 54: r
        Step::Binary(OpKind::Add, Operand::Step(53), Operand::Step(16)),
    ];
    proof {
        reveal(log2_steps);
    }
    assert(v@ =~= log2_steps());
    v
}

pub proof fn lemma_log2_ok()
    ensures
        program_ok(log2_steps(), 1),
        log2_steps().len() == 55,
{
    reveal(log2_steps);
    let p = log2_steps();
    assert(p[0].ok(0, 1) && p[0].primitive());
    assert(p[1].ok(1, 1) && p[1].primitive());
    assert(p[2].ok(2, 1) && p[2].primitive());
    assert(p[3].ok(3, 1) && p[3].primitive());
    assert(p[4].ok(4, 1) && p[4].primitive());
    assert(p[5].ok(5, 1) && p[5].primitive());
    assert(p[6].ok(6, 1) && p[6].primitive());
    assert(p[7].ok(7, 1) && p[7].primitive());
    assert(p[8].ok(8, 1) && p[8].primitive());
    assert(p[9].ok(9, 1) && p[9].primitive());
    assert(p[10].ok(10, 1) && p[10].primitive());
    assert(p[11].ok(11, 1) && p[11].primitive());
    assert(p[12].ok(12, 1) && p[12].primitive());
    assert(p[13].ok(13, 1) && p[13].primitive());
    assert(p[14].ok(14, 1) && p[14].primitive());
    assert(p[15].ok(15, 1) && p[15].primitive());
    assert(p[16].ok(16, 1) && p[16].primitive());
    assert(p[17].ok(17, 1) && p[17].primitive());
    assert(p[18].ok(18, 1) && p[18].primitive());
    assert(p[19].ok(19, 1) && p[19].primitive());
    assert(p[20].ok(20, 1) && p[20].primitive());
    assert(p[21].ok(21, 1) && p[21].primitive());
    assert(p[22].ok(22, 1) && p[22].primitive());
    assert(p[23].ok(23, 1) && p[23].primitive());
    assert(p[24].ok(24, 1) && p[24].primitive());
    assert(p[25].ok(25, 1) && p[25].primitive());
    assert(p[26].ok(26, 1) && p[26].primitive());
    assert(p[27].ok(27, 1) && p[27].primitive());
    assert(p[28].ok(28, 1) && p[28].primitive());
    assert(p[29].ok(29, 1) && p[29].primitive());
    assert(p[30].ok(30, 1) && p[30].primitive());
    assert(p[31].ok(31, 1) && p[31].primitive());
    assert(p[32].ok(32, 1) && p[32].primitive());
    assert(p[33].ok(33, 1) && p[33].primitive());
    assert(p[34].ok(34, 1) && p[34].primitive());
    assert(p[35].ok(35, 1) && p[35].primitive());
    assert(p[36].ok(36, 1) && p[36].primitive());
    assert(p[37].ok(37, 1) && p[37].primitive());
    assert(p[38].ok(38, 1) && p[38].primitive());
    assert(p[39].ok(39, 1) && p[39].primitive());
    assert(p[40].ok(40, 1) && p[40].primitive());
    assert(p[41].ok(41, 1) && p[41].primitive());
    assert(p[42].ok(42, 1) && p[42].primitive());
    assert(p[43].ok(43, 1) && p[43].primitive());
    assert(p[44].ok(44, 1) && p[44].primitive());
    assert(p[45].ok(45, 1) && p[45].primitive());
    assert(p[46].ok(46, 1) && p[46].primitive());
    assert(p[47].ok(47, 1) && p[47].primitive());
    assert(p[48].ok(48, 1) && p[48].primitive());
    assert(p[49].ok(49, 1) && p[49].primitive());
    assert(p[50].ok(50, 1) && p[50].primitive());
    assert(p[51].ok(51, 1) && p[51].primitive());
    assert(p[52].ok(52, 1) && p[52].primitive());
    assert(p[53].ok(53, 1) && p[53].primitive());
    assert(p[54].ok(54, 1) && p[54].primitive());
}

/// Steps of atan2(y, x). A ratio at most one in magnitude, a degree-7 odd polynomial, and quadrant
/// corrections by selection.
#[verifier::opaque]
pub open spec fn atan2_steps() -> Seq<Step> {
    seq![
        // 0: pi
        Step::Const(0x40490FDB),
        // 1: half_pi
        Step::Const(0x3FC90FDB),
        // 2: zero
        Step::Const(0x00000000),
        // 3: abs_x
        Step::Unary(OpKind::Abs, Operand::Arg(1)),
        // 4: abs_y
        Step::Unary(OpKind::Abs, Operand::Arg(0)),
        // 5: swap
        Step::Binary(OpKind::Gt, Operand::Step(4), Operand::Step(3)),
        // 6: recip_y
        Step::Unary(OpKind::Recip, Operand::Arg(0)),
        // 7: recip_x
        Step::Unary(OpKind::Recip, Operand::Arg(1)),
        // 8: x_over_y
        Step::Binary(OpKind::Mul, Operand::Arg(1), Operand::Step(6)),
        // 9: y_over_x
        Step::Binary(OpKind::Mul, Operand::Arg(0), Operand::Step(7)),
        // 10: ratio
        Step::Ternary(OpKind::Select, Operand::Step(5), Operand::Step(8), Operand::Step(9)),
        // 11: r2
        Step::Binary(OpKind::Mul, Operand::Step(10), Operand::Step(10)),
        // 12: c1
        Step::Const(0x3F800000),
        // 13: c3
        Step::Const(0xBEAAAAAB),
        // 14: c5
        Step::Const(0x3E4CCCCD),
        // 15: c7
        Step::Const(0xBE124924),
        // 16: p5_prod
        Step::Binary(OpKind::Mul, Operand::Step(15), Operand::Step(11)),
        // 17: p5
        Step::Binary(OpKind::Add, Operand::Step(16), Operand::Step(14)),
        // 18: p3_prod
        Step::Binary(OpKind::Mul, Operand::Step(17), Operand::Step(11)),
        // 19: p3
        Step::Binary(OpKind::Add, Operand::Step(18), Operand::Step(13)),
        // 20: p1_prod
        Step::Binary(OpKind::Mul, Operand::Step(19), Operand::Step(11)),
        // 21: p1
        Step::Binary(OpKind::Add, Operand::Step(20), Operand::Step(12)),
        // 22: atan_small
        Step::Binary(OpKind::Mul, Operand::Step(10), Operand::Step(21)),
        // 23: ratio_nonneg
        Step::Binary(OpKind::Ge, Operand::Step(10), Operand::Step(2)),
        // 24: neg_half_pi
        Step::Unary(OpKind::Neg, Operand::Step(1)),
        // 25: signed_half
        Step::Ternary(OpKind::Select, Operand::Step(23), Operand::Step(1), Operand::Step(24)),
        // 26: swapped_val
        Step::Binary(OpKind::Sub, Operand::Step(25), Operand::Step(22)),
        // 27: atan_val
        Step::Ternary(OpKind::Select, Operand::Step(5), Operand::Step(26), Operand::Step(22)),
        // 28: x_neg
        Step::Binary(OpKind::Lt, Operand::Arg(1), Operand::Step(2)),
        // 29: y_neg
        Step::Binary(OpKind::Lt, Operand::Arg(0), Operand::Step(2)),
        // 30: neg_pi
        Step::Unary(OpKind::Neg, Operand::Step(0)),
        // 31: adjust
        Step::Ternary(OpKind::Select, Operand::Step(29), Operand::Step(30), Operand::Step(0)),
        // 32: adjusted
        Step::Binary(OpKind::Add, Operand::Step(27), Operand::Step(31)),
        // 33: r
        Step::Ternary(OpKind::Select, Operand::Step(28), Operand::Step(32), Operand::Step(27)),
    ]
}

/// The steps of atan2(y, x).
pub(crate) fn atan2_program() -> (v: Vec<Step>)
    ensures
        v@ == atan2_steps(),
{
    let v: Vec<Step> = vec![
        // 0: pi
        Step::Const(0x40490FDB),
        // 1: half_pi
        Step::Const(0x3FC90FDB),
        // 2: zero
        Step::Const(0x00000000),
        // 3: abs_x
        Step::Unary(OpKind::Abs, Operand::Arg(1)),
        // 4: abs_y
        Step::Unary(OpKind::Abs, Operand::Arg(0)),
        // 5: swap
        Step::Binary(OpKind::Gt, Operand::Step(4), Operand::Step(3)),
        // 6: recip_y
        Step::Unary(OpKind::Recip, Operand::Arg(0)),
        // 7: recip_x
        Step::Unary(OpKind::Recip, Operand::Arg(1)),
        // 8: x_over_y
        Step::Binary(OpKind::Mul, Operand::Arg(1), Operand::Step(6)),
        // 9: y_over_x
        Step::Binary(OpKind::Mul, Operand::Arg(0), Operand::Step(7)),
        // 10: ratio
        Step::Ternary(OpKind::Select, Operand::Step(5), Operand::Step(8), Operand::Step(9)),
        // 11: r2
        Step::Binary(OpKind::Mul, Operand::Step(10), Operand::Step(10)),
        // 12: c1
        Step::Const(0x3F800000),
        // 13: c3
        Step::Const(0xBEAAAAAB),
        // 14: c5
        Step::Const(0x3E4CCCCD),
        // 15: c7
        Step::Const(0xBE124924),
        // 16: p5_prod
        Step::Binary(OpKind::Mul, Operand::Step(15), Operand::Step(11)),
        // 17: p5
        Step::Binary(OpKind::Add, Operand::Step(16), Operand::Step(14)),
        // 18: p3_prod
        Step::Binary(OpKind::Mul, Operand::Step(17), Operand::Step(11)),
        // 19: p3
        Step::Binary(OpKind::Add, Operand::Step(18), Operand::Step(13)),
        // 20: p1_prod
        Step::Binary(OpKind::Mul, Operand::Step(19), Operand::Step(11)),
        // 21: p1
        Step::Binary(OpKind::Add, Operand::Step(20), Operand::Step(12)),
        // 22: atan_small
        Step::Binary(OpKind::Mul, Operand::Step(10), Operand::Step(21)),
        // 23: ratio_nonneg
        Step::Binary(OpKind::Ge, Operand::Step(10), Operand::Step(2)),
        // 24: neg_half_pi
        Step::Unary(OpKind::Neg, Operand::Step(1)),
        // 25: signed_half
        Step::Ternary(OpKind::Select, Operand::Step(23), Operand::Step(1), Operand::Step(24)),
        // 26: swapped_val
        Step::Binary(OpKind::Sub, Operand::Step(25), Operand::Step(22)),
        // 27: atan_val
        Step::Ternary(OpKind::Select, Operand::Step(5), Operand::Step(26), Operand::Step(22)),
        // 28: x_neg
        Step::Binary(OpKind::Lt, Operand::Arg(1), Operand::Step(2)),
        // 29: y_neg
        Step::Binary(OpKind::Lt, Operand::Arg(0), Operand::Step(2)),
        // 30: neg_pi
        Step::Unary(OpKind::Neg, Operand::Step(0)),
        // 31: adjust
        Step::Ternary(OpKind::Select, Operand::Step(29), Operand::Step(30), Operand::Step(0)),
        // 32: adjusted
        Step::Binary(OpKind::Add, Operand::Step(27), Operand::Step(31)),
        // 33: r
        Step::Ternary(OpKind::Select, Operand::Step(28), Operand::Step(32), Operand::Step(27)),
    ];
    proof {
        reveal(atan2_steps);
    }
    assert(v@ =~= atan2_steps());
    v
}

pub proof fn lemma_atan2_ok()
    ensures
        program_ok(atan2_steps(), 2),
        atan2_steps().len() == 34,
{
    reveal(atan2_steps);
    let p = atan2_steps();
    assert(p[0].ok(0, 2) && p[0].primitive());
    assert(p[1].ok(1, 2) && p[1].primitive());
    assert(p[2].ok(2, 2) && p[2].primitive());
    assert(p[3].ok(3, 2) && p[3].primitive());
    assert(p[4].ok(4, 2) && p[4].primitive());
    assert(p[5].ok(5, 2) && p[5].primitive());
    assert(p[6].ok(6, 2) && p[6].primitive());
    assert(p[7].ok(7, 2) && p[7].primitive());
    assert(p[8].ok(8, 2) && p[8].primitive());
    assert(p[9].ok(9, 2) && p[9].primitive());
    assert(p[10].ok(10, 2) && p[10].primitive());
    assert(p[11].ok(11, 2) && p[11].primitive());
    assert(p[12].ok(12, 2) && p[12].primitive());
    assert(p[13].ok(13, 2) && p[13].primitive());
    assert(p[14].ok(14, 2) && p[14].primitive());
    assert(p[15].ok(15, 2) && p[15].primitive());
    assert(p[16].ok(16, 2) && p[16].primitive());
    assert(p[17].ok(17, 2) && p[17].primitive());
    assert(p[18].ok(18, 2) && p[18].primitive());
    assert(p[19].ok(19, 2) && p[19].primitive());
    assert(p[20].ok(20, 2) && p[20].primitive());
    assert(p[21].ok(21, 2) && p[21].primitive());
    assert(p[22].ok(22, 2) && p[22].primitive());
    assert(p[23].ok(23, 2) && p[23].primitive());
    assert(p[24].ok(24, 2) && p[24].primitive());
    assert(p[25].ok(25, 2) && p[25].primitive());
    assert(p[26].ok(26, 2) && p[26].primitive());
    assert(p[27].ok(27, 2) && p[27].primitive());
    assert(p[28].ok(28, 2) && p[28].primitive());
    assert(p[29].ok(29, 2) && p[29].primitive());
    assert(p[30].ok(30, 2) && p[30].primitive());
    assert(p[31].ok(31, 2) && p[31].primitive());
    assert(p[32].ok(32, 2) && p[32].primitive());
    assert(p[33].ok(33, 2) && p[33].primitive());
}

} // verus!
