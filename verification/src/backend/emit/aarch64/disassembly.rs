//! Disassembly of the instructions this backend emits.

use crate::backend::emit::aarch64::{misc2, same3};
use crate::backend::emit::bytes::{read32, word_at};
use crate::backend::emit::Reg;
use crate::text::{dec, hex, hex_fixed, push_dec, push_hex, push_hex_fixed, push_signed, signed_dec};
use vstd::prelude::*;
use vstd::string::*;

verus! {

/// How an instruction is written: its fixed text and which operand fields are
/// written between.
#[derive(Clone, Copy)]
pub enum Form {
    /// Fixed text only.
    Bare(&'static str),
    /// Rd between two texts.
    One(&'static str, &'static str),
    /// Rd and Rn between three texts.
    Two(&'static str, &'static str, &'static str),
    /// Rd, Rn and Rm as vectors, each with a lane arrangement.
    Three(&'static str, &'static str),
    /// Rd, Rn and Rm as 64-bit registers.
    ThreeX(&'static str),
    /// Rd and a 16-bit immediate in hexadecimal.
    Wide(&'static str, &'static str),
    /// A move between 64-bit registers: Rd and Rm.
    MoveX,
    /// Vector OR, which is a move where both sources agree.
    Orr,
    /// A 128-bit access at an unsigned offset.
    Vector(&'static str),
    /// A register pair access at a signed offset in units of the given size.
    Pair(&'static str, &'static str, &'static str, i64, &'static str),
    /// Rd, Rn and a 12-bit immediate.
    Immediate(&'static str),
    /// Vector shift right by an immediate.
    ShiftRight,
    /// Vector shift left by an immediate.
    ShiftLeft,
    /// A conditional branch.
    Conditional,
}

/// Destination field.
pub open spec fn rd(word: u32) -> u32 {
    word & 0x1F
}

/// First source field.
pub open spec fn rn(word: u32) -> u32 {
    (word >> 5) & 0x1F
}

/// Second source field.
pub open spec fn rm(word: u32) -> u32 {
    (word >> 16) & 0x1F
}

/// Form of a move, constant or return.
pub open spec fn head_form_spec(word: u32) -> Option<Form> {
    if word == 0xD65F03C0 {
        Some(Form::Bare("ret"))
    } else if word & 0xFFFFFC00 == 0x4F000400 {
        Some(Form::One("movi v", ".4s, #0"))
    } else if word & 0xFFC0FC00 == 0x4F00F400 {
        Some(Form::One("fmov v", ".4s, #imm8"))
    } else if word & 0xFFFFFC00 == 0x4E040C00 {
        Some(Form::Two("dup v", ".4s, w", ""))
    } else if word & 0xFFFFFC00 == 0x4E040400 {
        Some(Form::Two("dup v", ".4s, v", ".s[0]"))
    } else if word & 0xFFE00000 == 0x52800000 {
        Some(Form::Wide("movz w", ""))
    } else if word & 0xFFE00000 == 0xD2800000 {
        Some(Form::Wide("movz x", ""))
    } else if word & 0xFFE00000 == 0x72A00000 {
        Some(Form::Wide("movk w", ", lsl #16"))
    } else if word & 0xFFE0FFE0 == 0xAA0003E0 {
        Some(Form::MoveX)
    } else if word & 0xFFE0FC00 == 0x4EA01C00 {
        Some(Form::Orr)
    } else {
        None
    }
}

/// Form of moves, constants and returns.
fn head_form(word: u32) -> (r: Option<Form>)
    ensures
        r == head_form_spec(word),
{
    if word == 0xD65F03C0 {
        Some(Form::Bare("ret"))
    } else if word & 0xFFFFFC00 == 0x4F000400 {
        Some(Form::One("movi v", ".4s, #0"))
    } else if word & 0xFFC0FC00 == 0x4F00F400 {
        Some(Form::One("fmov v", ".4s, #imm8"))
    } else if word & 0xFFFFFC00 == 0x4E040C00 {
        Some(Form::Two("dup v", ".4s, w", ""))
    } else if word & 0xFFFFFC00 == 0x4E040400 {
        Some(Form::Two("dup v", ".4s, v", ".s[0]"))
    } else if word & 0xFFE00000 == 0x52800000 {
        Some(Form::Wide("movz w", ""))
    } else if word & 0xFFE00000 == 0xD2800000 {
        Some(Form::Wide("movz x", ""))
    } else if word & 0xFFE00000 == 0x72A00000 {
        Some(Form::Wide("movk w", ", lsl #16"))
    } else if word & 0xFFE0FFE0 == 0xAA0003E0 {
        Some(Form::MoveX)
    } else if word & 0xFFE0FC00 == 0x4EA01C00 {
        Some(Form::Orr)
    } else {
        None
    }
}

/// Form of a three-register vector instruction, by its opcode bits.
pub open spec fn three_form_spec(key: u32) -> Option<Form> {
    if key == 0x4E20D400 {
        Some(Form::Three("fadd v", ".4s"))
    } else if key == 0x4EA0D400 {
        Some(Form::Three("fsub v", ".4s"))
    } else if key == 0x6E20DC00 {
        Some(Form::Three("fmul v", ".4s"))
    } else if key == 0x6E20FC00 {
        Some(Form::Three("fdiv v", ".4s"))
    } else if key == 0x4E20CC00 {
        Some(Form::Three("fmla v", ".4s"))
    } else if key == 0x4EA0F400 {
        Some(Form::Three("fmin v", ".4s"))
    } else if key == 0x4E20F400 {
        Some(Form::Three("fmax v", ".4s"))
    } else if key == 0x6EA0E400 {
        Some(Form::Three("fcmgt v", ".4s"))
    } else if key == 0x6E20E400 {
        Some(Form::Three("fcmge v", ".4s"))
    } else if key == 0x4E20E400 {
        Some(Form::Three("fcmeq v", ".4s"))
    } else if key == 0x6E601C00 {
        Some(Form::Three("bsl v", ".16b"))
    } else if key == 0x4E201C00 {
        Some(Form::Three("and v", ".16b"))
    } else if key == 0x4EA08400 {
        Some(Form::Three("add v", ".4s"))
    } else if key == 0x6EA08400 {
        Some(Form::Three("sub v", ".4s"))
    } else if key == 0x4EA0FC00 {
        Some(Form::Three("frsqrts v", ".4s"))
    } else if key == 0x4E20FC00 {
        Some(Form::Three("frecps v", ".4s"))
    } else {
        None
    }
}

/// Form of a three-register vector instruction.
fn three_form(key: u32) -> (r: Option<Form>)
    ensures
        r == three_form_spec(key),
{
    if key == 0x4E20D400 {
        Some(Form::Three("fadd v", ".4s"))
    } else if key == 0x4EA0D400 {
        Some(Form::Three("fsub v", ".4s"))
    } else if key == 0x6E20DC00 {
        Some(Form::Three("fmul v", ".4s"))
    } else if key == 0x6E20FC00 {
        Some(Form::Three("fdiv v", ".4s"))
    } else if key == 0x4E20CC00 {
        Some(Form::Three("fmla v", ".4s"))
    } else if key == 0x4EA0F400 {
        Some(Form::Three("fmin v", ".4s"))
    } else if key == 0x4E20F400 {
        Some(Form::Three("fmax v", ".4s"))
    } else if key == 0x6EA0E400 {
        Some(Form::Three("fcmgt v", ".4s"))
    } else if key == 0x6E20E400 {
        Some(Form::Three("fcmge v", ".4s"))
    } else if key == 0x4E20E400 {
        Some(Form::Three("fcmeq v", ".4s"))
    } else if key == 0x6E601C00 {
        Some(Form::Three("bsl v", ".16b"))
    } else if key == 0x4E201C00 {
        Some(Form::Three("and v", ".16b"))
    } else if key == 0x4EA08400 {
        Some(Form::Three("add v", ".4s"))
    } else if key == 0x6EA08400 {
        Some(Form::Three("sub v", ".4s"))
    } else if key == 0x4EA0FC00 {
        Some(Form::Three("frsqrts v", ".4s"))
    } else if key == 0x4E20FC00 {
        Some(Form::Three("frecps v", ".4s"))
    } else {
        None
    }
}

/// Form of a two-register vector instruction, by its opcode bits.
pub open spec fn two_form_spec(key: u32) -> Option<Form> {
    if key == 0x6EA1F800 {
        Some(Form::Two("fsqrt v", ".4s, v", ".4s"))
    } else if key == 0x4EA0F800 {
        Some(Form::Two("fabs v", ".4s, v", ".4s"))
    } else if key == 0x6EA0F800 {
        Some(Form::Two("fneg v", ".4s, v", ".4s"))
    } else if key == 0x6E205800 {
        Some(Form::Two("not v", ".16b, v", ".16b"))
    } else if key == 0x4E219800 {
        Some(Form::Two("frintm v", ".4s, v", ".4s"))
    } else if key == 0x4EA18800 {
        Some(Form::Two("frintp v", ".4s, v", ".4s"))
    } else if key == 0x6E218800 {
        Some(Form::Two("frinta v", ".4s, v", ".4s"))
    } else if key == 0x6EA1D800 {
        Some(Form::Two("frsqrte v", ".4s, v", ".4s"))
    } else if key == 0x4EA1D800 {
        Some(Form::Two("frecpe v", ".4s, v", ".4s"))
    } else if key == 0x4EA1B800 {
        Some(Form::Two("fcvtzs v", ".4s, v", ".4s"))
    } else if key == 0x4E21D800 {
        Some(Form::Two("scvtf v", ".4s, v", ".4s"))
    } else if key == 0x6EB1A800 {
        Some(Form::Two("uminv s", ", v", ".4s"))
    } else if key == 0x6EB0A800 {
        Some(Form::Two("umaxv s", ", v", ".4s"))
    } else if key == 0x1E260000 {
        Some(Form::Two("fmov w", ", s", ""))
    } else {
        None
    }
}

/// Form of a two-register vector instruction.
fn two_form(key: u32) -> (r: Option<Form>)
    ensures
        r == two_form_spec(key),
{
    if key == 0x6EA1F800 {
        Some(Form::Two("fsqrt v", ".4s, v", ".4s"))
    } else if key == 0x4EA0F800 {
        Some(Form::Two("fabs v", ".4s, v", ".4s"))
    } else if key == 0x6EA0F800 {
        Some(Form::Two("fneg v", ".4s, v", ".4s"))
    } else if key == 0x6E205800 {
        Some(Form::Two("not v", ".16b, v", ".16b"))
    } else if key == 0x4E219800 {
        Some(Form::Two("frintm v", ".4s, v", ".4s"))
    } else if key == 0x4EA18800 {
        Some(Form::Two("frintp v", ".4s, v", ".4s"))
    } else if key == 0x6E218800 {
        Some(Form::Two("frinta v", ".4s, v", ".4s"))
    } else if key == 0x6EA1D800 {
        Some(Form::Two("frsqrte v", ".4s, v", ".4s"))
    } else if key == 0x4EA1D800 {
        Some(Form::Two("frecpe v", ".4s, v", ".4s"))
    } else if key == 0x4EA1B800 {
        Some(Form::Two("fcvtzs v", ".4s, v", ".4s"))
    } else if key == 0x4E21D800 {
        Some(Form::Two("scvtf v", ".4s, v", ".4s"))
    } else if key == 0x6EB1A800 {
        Some(Form::Two("uminv s", ", v", ".4s"))
    } else if key == 0x6EB0A800 {
        Some(Form::Two("umaxv s", ", v", ".4s"))
    } else if key == 0x1E260000 {
        Some(Form::Two("fmov w", ", s", ""))
    } else {
        None
    }
}

/// Form of a memory access, address or branch instruction, or of anything else.
pub open spec fn tail_form_spec(word: u32) -> Form {
    if word & 0xFFC00000 == 0x3DC00000 {
        Form::Vector("ldr q")
    } else if word & 0xFFC00000 == 0x3D800000 {
        Form::Vector("str q")
    } else if word & 0xFFFFFC00 == 0x3CC10400 {
        Form::Two("ldr q", ", [x", "], #16")
    } else if word & 0xFFFFFC00 == 0x3C810400 {
        Form::Two("str q", ", [x", "], #16")
    } else if word & 0xFFC00000 == 0xA9800000 {
        Form::Pair("stp x", ", x", ", #", 8, "]!")
    } else if word & 0xFFC00000 == 0xA9000000 {
        Form::Pair("stp x", ", x", ", #", 8, "]")
    } else if word & 0xFFC00000 == 0xA8C00000 {
        Form::Pair("ldp x", ", x", "], #", 8, "")
    } else if word & 0xFFC00000 == 0xA9400000 {
        Form::Pair("ldp x", ", x", ", #", 8, "]")
    } else if word & 0xFFC00000 == 0xAD000000 {
        Form::Pair("stp q", ", q", ", #", 16, "]")
    } else if word & 0xFFC00000 == 0xAD400000 {
        Form::Pair("ldp q", ", q", ", #", 16, "]")
    } else if word & 0xFF000000 == 0x91000000 {
        Form::Immediate("add x")
    } else if word & 0xFF000000 == 0xD1000000 {
        Form::Immediate("sub x")
    } else if word & 0xFF000000 == 0xF1000000 {
        Form::Immediate("subs x")
    } else if word & 0xFFE0FC00 == 0x6F200400 {
        Form::ShiftRight
    } else if word & 0xFFE0FC00 == 0x4F205400 {
        Form::ShiftLeft
    } else if word & 0x9F000000 == 0x10000000 {
        Form::One("adr x", ", <imm>")
    } else if word & 0x9F000000 == 0x90000000 {
        Form::One("adrp x", ", <imm>")
    } else if word & 0xFF000000 == 0x34000000 {
        Form::One("cbz w", ", <imm>")
    } else if word & 0xFF000000 == 0x35000000 {
        Form::One("cbnz w", ", <imm>")
    } else if word & 0xFF000000 == 0xB4000000 {
        Form::One("cbz x", ", <imm>")
    } else if word & 0xFF000000 == 0xB5000000 {
        Form::One("cbnz x", ", <imm>")
    } else if word & 0xFF000010 == 0x54000000 {
        Form::Conditional
    } else if word & 0xFC000000 == 0x14000000 {
        Form::Bare("b <imm>")
    } else if word & 0xFFE00000 == 0xEB000000 {
        Form::ThreeX("subs x")
    } else {
        Form::Bare("unknown")
    }
}

/// Form of memory accesses, addresses and branches; anything else is unknown.
fn tail_form(word: u32) -> (r: Form)
    ensures
        r == tail_form_spec(word),
{
    if word & 0xFFC00000 == 0x3DC00000 {
        Form::Vector("ldr q")
    } else if word & 0xFFC00000 == 0x3D800000 {
        Form::Vector("str q")
    } else if word & 0xFFFFFC00 == 0x3CC10400 {
        Form::Two("ldr q", ", [x", "], #16")
    } else if word & 0xFFFFFC00 == 0x3C810400 {
        Form::Two("str q", ", [x", "], #16")
    } else if word & 0xFFC00000 == 0xA9800000 {
        Form::Pair("stp x", ", x", ", #", 8, "]!")
    } else if word & 0xFFC00000 == 0xA9000000 {
        Form::Pair("stp x", ", x", ", #", 8, "]")
    } else if word & 0xFFC00000 == 0xA8C00000 {
        Form::Pair("ldp x", ", x", "], #", 8, "")
    } else if word & 0xFFC00000 == 0xA9400000 {
        Form::Pair("ldp x", ", x", ", #", 8, "]")
    } else if word & 0xFFC00000 == 0xAD000000 {
        Form::Pair("stp q", ", q", ", #", 16, "]")
    } else if word & 0xFFC00000 == 0xAD400000 {
        Form::Pair("ldp q", ", q", ", #", 16, "]")
    } else if word & 0xFF000000 == 0x91000000 {
        Form::Immediate("add x")
    } else if word & 0xFF000000 == 0xD1000000 {
        Form::Immediate("sub x")
    } else if word & 0xFF000000 == 0xF1000000 {
        Form::Immediate("subs x")
    } else if word & 0xFFE0FC00 == 0x6F200400 {
        Form::ShiftRight
    } else if word & 0xFFE0FC00 == 0x4F205400 {
        Form::ShiftLeft
    } else if word & 0x9F000000 == 0x10000000 {
        Form::One("adr x", ", <imm>")
    } else if word & 0x9F000000 == 0x90000000 {
        Form::One("adrp x", ", <imm>")
    } else if word & 0xFF000000 == 0x34000000 {
        Form::One("cbz w", ", <imm>")
    } else if word & 0xFF000000 == 0x35000000 {
        Form::One("cbnz w", ", <imm>")
    } else if word & 0xFF000000 == 0xB4000000 {
        Form::One("cbz x", ", <imm>")
    } else if word & 0xFF000000 == 0xB5000000 {
        Form::One("cbnz x", ", <imm>")
    } else if word & 0xFF000010 == 0x54000000 {
        Form::Conditional
    } else if word & 0xFC000000 == 0x14000000 {
        Form::Bare("b <imm>")
    } else if word & 0xFFE00000 == 0xEB000000 {
        Form::ThreeX("subs x")
    } else {
        Form::Bare("unknown")
    }
}

/// How a word is written.
pub open spec fn form_of(word: u32) -> Form {
    if let Some(f) = head_form_spec(word) {
        f
    } else if let Some(f) = three_form_spec(word & 0xFFE0FC00) {
        f
    } else if let Some(f) = two_form_spec(word & 0xFFFFFC00) {
        f
    } else {
        tail_form_spec(word)
    }
}

/// Classifies a word.
pub fn classify(word: u32) -> (r: Form)
    ensures
        r == form_of(word),
{
    if let Some(f) = head_form(word) {
        return f;
    }
    if let Some(f) = three_form(word & 0xFFE0FC00) {
        return f;
    }
    if let Some(f) = two_form(word & 0xFFFFFC00) {
        return f;
    }
    tail_form(word)
}

/// Name of a branch condition.
pub open spec fn cond_text(cond: u32) -> &'static str {
    if cond == 0x0 {
        "eq"
    } else if cond == 0x1 {
        "ne"
    } else if cond == 0x2 {
        "cs"
    } else if cond == 0x3 {
        "cc"
    } else if cond == 0x4 {
        "mi"
    } else if cond == 0x5 {
        "pl"
    } else if cond == 0x8 {
        "hi"
    } else if cond == 0x9 {
        "ls"
    } else if cond == 0xA {
        "ge"
    } else if cond == 0xB {
        "lt"
    } else if cond == 0xC {
        "gt"
    } else if cond == 0xD {
        "le"
    } else {
        "??"
    }
}

/// Name of a branch condition.
fn cond_name(cond: u32) -> (r: &'static str)
    ensures
        r == cond_text(cond),
{
    if cond == 0x0 {
        "eq"
    } else if cond == 0x1 {
        "ne"
    } else if cond == 0x2 {
        "cs"
    } else if cond == 0x3 {
        "cc"
    } else if cond == 0x4 {
        "mi"
    } else if cond == 0x5 {
        "pl"
    } else if cond == 0x8 {
        "hi"
    } else if cond == 0x9 {
        "ls"
    } else if cond == 0xA {
        "ge"
    } else if cond == 0xB {
        "lt"
    } else if cond == 0xC {
        "gt"
    } else if cond == 0xD {
        "le"
    } else {
        "??"
    }
}

/// The signed offset of a register pair access.
pub open spec fn pair_offset(word: u32, unit: int) -> int {
    let imm7 = (word >> 15) & 0x7F;
    if imm7 >= 64 {
        (imm7 - 128) * unit
    } else {
        imm7 * unit
    }
}

/// `s` followed by the text of an instruction.
pub open spec fn insn_on(s: Seq<char>, form: Form, word: u32) -> Seq<char> {
    let d = dec(rd(word) as nat);
    let n = dec(rn(word) as nat);
    let m = dec(rm(word) as nat);
    match form {
        Form::Bare(a) => s + a@,
        Form::One(a, b) => s + a@ + d + b@,
        Form::Two(a, b, c) => s + a@ + d + b@ + n + c@,
        Form::Three(a, lanes) => s + a@ + d + lanes@ + ", v"@ + n + lanes@ + ", v"@ + m + lanes@,
        Form::ThreeX(a) => s + a@ + d + ", x"@ + n + ", x"@ + m,
        Form::Wide(a, b) => s + a@ + d + ", #0x"@ + hex(((word >> 5) & 0xFFFF) as nat) + b@,
        Form::MoveX => s + "mov x"@ + d + ", x"@ + m,
        Form::Orr => if rn(word) == rm(word) {
            s + "mov v"@ + d + ".16b, v"@ + n + ".16b"@
        } else {
            s + "orr v"@ + d + ".16b, v"@ + n + ".16b, v"@ + m + ".16b"@
        },
        Form::Vector(a) => s + a@ + d + ", [x"@ + n + ", #"@ + dec(
            (((word >> 10) & 0xFFF) * 16) as nat,
        ) + "]"@,
        Form::Pair(a, sep, open, unit, close) => s + a@ + d + sep@ + dec(
            ((word >> 10) & 0x1F) as nat,
        ) + ", [x"@ + n + open@ + signed_dec(pair_offset(word, unit as int)) + close@,
        Form::Immediate(a) => s + a@ + d + ", x"@ + n + ", #"@ + dec(
            ((word >> 10) & 0xFFF) as nat,
        ),
        Form::ShiftRight => s + "ushr v"@ + d + ".4s, v"@ + n + ".4s, #"@ + dec(
            ((64 - ((word >> 16) & 0x3F)) % 64) as nat,
        ),
        Form::ShiftLeft => s + "shl v"@ + d + ".4s, v"@ + n + ".4s, #"@ + dec(
            (((word >> 16) & 0x3F) - 32) as nat,
        ),
        Form::Conditional => s + "b."@ + cond_text(word & 0xF)@ + " <imm>"@,
    }
}

proof fn lemma_shift_fields(word: u32)
    ensures
        (word >> 16) & 0x3F <= 63,
        (word >> 15) & 0x7F <= 127,
        (word >> 10) & 0xFFF <= 4095,
        word & 0xFFE0FC00 == 0x4F205400 ==> (word >> 16) & 0x3F >= 32,
{
    assert((word >> 16u32) & 0x3F <= 63 && (word >> 15u32) & 0x7F <= 127 && (word >> 10u32) & 0xFFF
        <= 4095 && (word & 0xFFE0FC00 == 0x4F205400 ==> (word >> 16u32) & 0x3F >= 32))
        by (bit_vector);
}

proof fn lemma_shift_left_key(word: u32)
    requires
        form_of(word) is ShiftLeft,
    ensures
        word & 0xFFE0FC00 == 0x4F205400,
{
}

/// The form of a word is one whose fields can be written.
pub open spec fn writable(form: Form, word: u32) -> bool {
    &&& form is ShiftLeft ==> (word >> 16) & 0x3F >= 32
    &&& form matches Form::Pair(_, _, _, unit, _) ==> 0 <= unit <= 16
}

proof fn lemma_writable(word: u32)
    ensures
        writable(form_of(word), word),
{
    lemma_shift_fields(word);
    if form_of(word) is ShiftLeft {
        lemma_shift_left_key(word);
    }
}

/// Appends the text of an instruction.
fn push_insn(s: &mut String, form: Form, word: u32)
    requires
        writable(form, word),
    ensures
        final(s)@ == insn_on(old(s)@, form, word),
{
    proof {
        lemma_shift_fields(word);
    }
    let d: u64 = (word & 0x1F) as u64;
    let n: u64 = ((word >> 5) & 0x1F) as u64;
    let m: u64 = ((word >> 16) & 0x1F) as u64;
    match form {
        Form::Bare(a) => {
            s.append(a);
        },
        Form::One(a, b) => {
            s.append(a);
            push_dec(s, d);
            s.append(b);
        },
        Form::Two(a, b, c) => {
            s.append(a);
            push_dec(s, d);
            s.append(b);
            push_dec(s, n);
            s.append(c);
        },
        Form::Three(a, lanes) => {
            s.append(a);
            push_dec(s, d);
            s.append(lanes);
            s.append(", v");
            push_dec(s, n);
            s.append(lanes);
            s.append(", v");
            push_dec(s, m);
            s.append(lanes);
        },
        Form::ThreeX(a) => {
            s.append(a);
            push_dec(s, d);
            s.append(", x");
            push_dec(s, n);
            s.append(", x");
            push_dec(s, m);
        },
        Form::Wide(a, b) => {
            let imm16: u64 = ((word >> 5) & 0xFFFF) as u64;
            s.append(a);
            push_dec(s, d);
            s.append(", #0x");
            push_hex(s, imm16);
            s.append(b);
        },
        Form::MoveX => {
            s.append("mov x");
            push_dec(s, d);
            s.append(", x");
            push_dec(s, m);
        },
        Form::Orr => {
            if n == m {
                s.append("mov v");
                push_dec(s, d);
                s.append(".16b, v");
                push_dec(s, n);
                s.append(".16b");
            } else {
                s.append("orr v");
                push_dec(s, d);
                s.append(".16b, v");
                push_dec(s, n);
                s.append(".16b, v");
                push_dec(s, m);
                s.append(".16b");
            }
        },
        Form::Vector(a) => {
            let imm12: u64 = ((word >> 10) & 0xFFF) as u64;
            s.append(a);
            push_dec(s, d);
            s.append(", [x");
            push_dec(s, n);
            s.append(", #");
            push_dec(s, imm12 * 16);
            s.append("]");
        },
        Form::Pair(a, sep, open, unit, close) => {
            let rt2: u64 = ((word >> 10) & 0x1F) as u64;
            let imm7: i64 = ((word >> 15) & 0x7F) as i64;
            let steps: i64 = if imm7 >= 64 {
                imm7 - 128
            } else {
                imm7
            };
            assert(-1024 <= steps * unit <= 1024) by (nonlinear_arith)
                requires
                    -64 <= steps <= 63,
                    0 <= unit <= 16,
            ;
            let offset: i64 = steps * unit;
            s.append(a);
            push_dec(s, d);
            s.append(sep);
            push_dec(s, rt2);
            s.append(", [x");
            push_dec(s, n);
            s.append(open);
            push_signed(s, offset);
            s.append(close);
        },
        Form::Immediate(a) => {
            let imm12: u64 = ((word >> 10) & 0xFFF) as u64;
            s.append(a);
            push_dec(s, d);
            s.append(", x");
            push_dec(s, n);
            s.append(", #");
            push_dec(s, imm12);
        },
        Form::ShiftRight => {
            let immhb: u64 = ((word >> 16) & 0x3F) as u64;
            s.append("ushr v");
            push_dec(s, d);
            s.append(".4s, v");
            push_dec(s, n);
            s.append(".4s, #");
            push_dec(s, (64 - immhb) % 64);
        },
        Form::ShiftLeft => {
            let immhb: u64 = ((word >> 16) & 0x3F) as u64;
            s.append("shl v");
            push_dec(s, d);
            s.append(".4s, v");
            push_dec(s, n);
            s.append(".4s, #");
            push_dec(s, immhb - 32);
        },
        Form::Conditional => {
            s.append("b.");
            s.append(cond_name(word & 0xF));
            s.append(" <imm>");
        },
    }
}

/// `s` followed by `n` in hexadecimal, right-aligned in four columns.
pub open spec fn hex4_on(s: Seq<char>, n: nat) -> Seq<char> {
    let padded = if n < 0x10 {
        s + "   "@
    } else if n < 0x100 {
        s + "  "@
    } else if n < 0x1000 {
        s + " "@
    } else {
        s
    };
    padded + hex(n)
}

/// `s` followed by the line of the word at byte `offset`.
pub open spec fn line_on(s: Seq<char>, offset: nat, word: u32) -> Seq<char> {
    insn_on(
        hex4_on(s, offset) + ": "@ + hex_fixed(word as nat, 8) + "  "@,
        form_of(word),
        word,
    ) + "\n"@
}

/// The lines of the first `words` words of `code`.
pub open spec fn listing(code: Seq<u8>, words: nat) -> Seq<char>
    decreases words,
{
    if words == 0 {
        Seq::empty()
    } else {
        let i = (words - 1) as nat;
        line_on(listing(code, i), 4 * i, word_at(code, 4 * i as int))
    }
}

/// Disassemble a code buffer: one line per word, bytes after the last whole
/// word left out.
pub fn disassemble_code(code: &[u8]) -> (r: String)
    ensures
        r@ == listing(code@, code@.len() / 4),
{
    let mut out = String::new();
    let words: usize = code.len() / 4;
    let mut i: usize = 0;
    assert(out@ =~= listing(code@, 0));
    while i < words
        invariant
            i <= words,
            words == code@.len() / 4,
            code@.len() <= usize::MAX,
            out@ == listing(code@, i as nat),
        decreases words - i,
    {
        let offset: usize = i * 4;
        let word: u32 = read32(code, offset);
        if offset < 0x10 {
            out.append("   ");
        } else if offset < 0x100 {
            out.append("  ");
        } else if offset < 0x1000 {
            out.append(" ");
        }
        push_hex(&mut out, offset as u64);
        out.append(": ");
        push_hex_fixed(&mut out, word as u64, 8);
        out.append("  ");
        proof {
            lemma_writable(word);
        }
        push_insn(&mut out, classify(word), word);
        out.append("\n");
        i += 1;
    }
    out
}

proof fn lemma_same3_fields(op: u32, d: u8, a: u8, b: u8)
    requires
        op & 0xFFE0FC00 == op,
        d < 32,
        a < 32,
        b < 32,
    ensures
        same3(op, Reg(d), Reg(a), Reg(b)) & 0xFFE0FC00 == op,
        rd(same3(op, Reg(d), Reg(a), Reg(b))) == d,
        rn(same3(op, Reg(d), Reg(a), Reg(b))) == a,
        rm(same3(op, Reg(d), Reg(a), Reg(b))) == b,
{
    let w = same3(op, Reg(d), Reg(a), Reg(b));
    assert(op & 0xFFE0FC00 == op && d < 32 && a < 32 && b < 32 && w == op | (d as u32 & 0x1F) | ((
    a as u32 & 0x1F) << 5u32) | ((b as u32 & 0x1F) << 16u32) ==> w & 0xFFE0FC00 == op && w & 0x1F
        == d && (w >> 5u32) & 0x1F == a && (w >> 16u32) & 0x1F == b) by (bit_vector);
}

proof fn lemma_misc2_fields(op: u32, d: u8, a: u8)
    requires
        op & 0xFFFFFC00 == op,
        d < 32,
        a < 32,
    ensures
        misc2(op, Reg(d), Reg(a)) & 0xFFFFFC00 == op,
        rd(misc2(op, Reg(d), Reg(a))) == d,
        rn(misc2(op, Reg(d), Reg(a))) == a,
{
    let w = misc2(op, Reg(d), Reg(a));
    assert(op & 0xFFFFFC00 == op && d < 32 && a < 32 && w == op | (d as u32 & 0x1F) | ((a as u32
        & 0x1F) << 5u32) ==> w & 0xFFFFFC00 == op && w & 0x1F == d && (w >> 5u32) & 0x1F == a)
        by (bit_vector);
}

/// What the three-register emitters write is listed under its own name with
/// its own registers: the word of opcode `op` has the form its table gives,
/// and its fields are the registers it was made of.
pub proof fn listing_of_three_registers(op: u32, d: u8, a: u8, b: u8)
    requires
        three_form_spec(op) is Some,
        d < 32,
        a < 32,
        b < 32,
    ensures
        Some(form_of(same3(op, Reg(d), Reg(a), Reg(b)))) == three_form_spec(op),
        rd(same3(op, Reg(d), Reg(a), Reg(b))) == d,
        rn(same3(op, Reg(d), Reg(a), Reg(b))) == a,
        rm(same3(op, Reg(d), Reg(a), Reg(b))) == b,
{
    let w = same3(op, Reg(d), Reg(a), Reg(b));
    assert((op == 0x4E20D400 || op == 0x4EA0D400 || op == 0x6E20DC00 || op == 0x6E20FC00 || op == 0x4E20CC00 || op == 0x4EA0F400 || op == 0x4E20F400 || op == 0x6EA0E400 || op == 0x6E20E400 || op == 0x4E20E400 || op == 0x6E601C00 || op == 0x4E201C00 || op == 0x4EA08400 || op == 0x6EA08400 || op == 0x4EA0FC00 || op == 0x4E20FC00) ==> op & 0xFFE0FC00 == op) by (bit_vector);
    lemma_same3_fields(op, d, a, b);
    assert(w & 0xFFE0FC00 == op && (op == 0x4E20D400 || op == 0x4EA0D400 || op == 0x6E20DC00 || op == 0x6E20FC00 || op == 0x4E20CC00 || op == 0x4EA0F400 || op == 0x4E20F400 || op == 0x6EA0E400 || op == 0x6E20E400 || op == 0x4E20E400 || op == 0x6E601C00 || op == 0x4E201C00 || op == 0x4EA08400 || op == 0x6EA08400 || op == 0x4EA0FC00 || op == 0x4E20FC00) ==> (w != 0xD65F03C0) && (w & 0xFFFFFC00 != 0x4F000400) && (w & 0xFFC0FC00 != 0x4F00F400) && (w & 0xFFFFFC00 != 0x4E040C00) && (w & 0xFFFFFC00 != 0x4E040400) && (w & 0xFFE00000 != 0x52800000) && (w & 0xFFE00000 != 0xD2800000) && (w & 0xFFE00000 != 0x72A00000) && (w & 0xFFE0FFE0 != 0xAA0003E0) && (w & 0xFFE0FC00 != 0x4EA01C00)) by (bit_vector);
}

/// What the two-register emitters write is listed under its own name with its
/// own registers.
pub proof fn listing_of_two_registers(op: u32, d: u8, a: u8)
    requires
        two_form_spec(op) is Some,
        d < 32,
        a < 32,
    ensures
        Some(form_of(misc2(op, Reg(d), Reg(a)))) == two_form_spec(op),
        rd(misc2(op, Reg(d), Reg(a))) == d,
        rn(misc2(op, Reg(d), Reg(a))) == a,
{
    let w = misc2(op, Reg(d), Reg(a));
    assert((op == 0x6EA1F800 || op == 0x4EA0F800 || op == 0x6EA0F800 || op == 0x6E205800 || op == 0x4E219800 || op == 0x4EA18800 || op == 0x6E218800 || op == 0x6EA1D800 || op == 0x4EA1D800 || op == 0x4EA1B800 || op == 0x4E21D800 || op == 0x6EB1A800 || op == 0x6EB0A800 || op == 0x1E260000) ==> op & 0xFFFFFC00 == op) by (bit_vector);
    lemma_misc2_fields(op, d, a);
    assert(w & 0xFFFFFC00 == op && (op == 0x6EA1F800 || op == 0x4EA0F800 || op == 0x6EA0F800 || op == 0x6E205800 || op == 0x4E219800 || op == 0x4EA18800 || op == 0x6E218800 || op == 0x6EA1D800 || op == 0x4EA1D800 || op == 0x4EA1B800 || op == 0x4E21D800 || op == 0x6EB1A800 || op == 0x6EB0A800 || op == 0x1E260000) ==> (w != 0xD65F03C0) && (w & 0xFFFFFC00 != 0x4F000400) && (w & 0xFFC0FC00 != 0x4F00F400) && (w & 0xFFFFFC00 != 0x4E040C00) && (w & 0xFFFFFC00 != 0x4E040400) && (w & 0xFFE00000 != 0x52800000) && (w & 0xFFE00000 != 0xD2800000) && (w & 0xFFE00000 != 0x72A00000) && (w & 0xFFE0FFE0 != 0xAA0003E0) && (w & 0xFFE0FC00 != 0x4EA01C00) && w & 0xFFE0FC00 != 0x4E20D400 && w & 0xFFE0FC00 != 0x4EA0D400 && w & 0xFFE0FC00 != 0x6E20DC00 && w & 0xFFE0FC00 != 0x6E20FC00 && w & 0xFFE0FC00 != 0x4E20CC00 && w & 0xFFE0FC00 != 0x4EA0F400 && w & 0xFFE0FC00 != 0x4E20F400 && w & 0xFFE0FC00 != 0x6EA0E400 && w & 0xFFE0FC00 != 0x6E20E400 && w & 0xFFE0FC00 != 0x4E20E400 && w & 0xFFE0FC00 != 0x6E601C00 && w & 0xFFE0FC00 != 0x4E201C00 && w & 0xFFE0FC00 != 0x4EA08400 && w & 0xFFE0FC00 != 0x6EA08400 && w & 0xFFE0FC00 != 0x4EA0FC00 && w & 0xFFE0FC00 != 0x4E20FC00) by (bit_vector);
}

/// A listing has one line for each whole word, so appending bytes that do not
/// complete a word leaves it unchanged.
pub proof fn listing_ignores_partial_word(code: Seq<u8>, more: Seq<u8>, words: nat)
    requires
        4 * words <= code.len(),
    ensures
        listing(code + more, words) == listing(code, words),
    decreases words,
{
    if words > 0 {
        listing_ignores_partial_word(code, more, (words - 1) as nat);
    }
}

} // verus!
