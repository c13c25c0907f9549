//! The operations an expression node can name.

use vstd::prelude::*;

verus! {

/// What an expression node computes.
#[derive(Clone, Copy, PartialEq, Eq, Structural, Debug, Hash)]
pub enum OpKind {
    Var,
    Const,
    Buffer,
    Uniform,
    Add,
    Sub,
    Mul,
    Div,
    Neg,
    Sqrt,
    Rsqrt,
    Abs,
    Min,
    Max,
    MulAdd,
    Recip,
    Floor,
    Ceil,
    Round,
    Fract,
    Sin,
    Cos,
    Tan,
    Asin,
    Acos,
    Atan,
    Exp,
    Exp2,
    Ln,
    Log2,
    Log10,
    Atan2,
    Pow,
    Hypot,
    Lt,
    Le,
    Gt,
    Ge,
    Eq,
    Ne,
    Select,
    Clamp,
    Tuple,
    Gather,
    RawGather,
    Reduce,
    TruncToInt,
    IntToFloat,
    IAdd,
    BitAnd,
    BitOr,
    Shl,
    Shr,
}

impl OpKind {
    /// The name an operation is printed with.
    pub open spec fn text(self) -> Seq<char> {
        match self {
            OpKind::Var => "var"@,
            OpKind::Const => "const"@,
            OpKind::Buffer => "buffer"@,
            OpKind::Uniform => "uniform"@,
            OpKind::Add => "add"@,
            OpKind::Sub => "sub"@,
            OpKind::Mul => "mul"@,
            OpKind::Div => "div"@,
            OpKind::Neg => "neg"@,
            OpKind::Sqrt => "sqrt"@,
            OpKind::Rsqrt => "rsqrt"@,
            OpKind::Abs => "abs"@,
            OpKind::Min => "min"@,
            OpKind::Max => "max"@,
            OpKind::MulAdd => "mul_add"@,
            OpKind::Recip => "recip"@,
            OpKind::Floor => "floor"@,
            OpKind::Ceil => "ceil"@,
            OpKind::Round => "round"@,
            OpKind::Fract => "fract"@,
            OpKind::Sin => "sin"@,
            OpKind::Cos => "cos"@,
            OpKind::Tan => "tan"@,
            OpKind::Asin => "asin"@,
            OpKind::Acos => "acos"@,
            OpKind::Atan => "atan"@,
            OpKind::Exp => "exp"@,
            OpKind::Exp2 => "exp2"@,
            OpKind::Ln => "ln"@,
            OpKind::Log2 => "log2"@,
            OpKind::Log10 => "log10"@,
            OpKind::Atan2 => "atan2"@,
            OpKind::Pow => "pow"@,
            OpKind::Hypot => "hypot"@,
            OpKind::Lt => "lt"@,
            OpKind::Le => "le"@,
            OpKind::Gt => "gt"@,
            OpKind::Ge => "ge"@,
            OpKind::Eq => "eq"@,
            OpKind::Ne => "ne"@,
            OpKind::Select => "select"@,
            OpKind::Clamp => "clamp"@,
            OpKind::Tuple => "tuple"@,
            OpKind::Gather => "gather"@,
            OpKind::RawGather => "raw_gather"@,
            OpKind::Reduce => "reduce"@,
            OpKind::TruncToInt => "trunc_to_int"@,
            OpKind::IntToFloat => "int_to_float"@,
            OpKind::IAdd => "iadd"@,
            OpKind::BitAnd => "bit_and"@,
            OpKind::BitOr => "bit_or"@,
            OpKind::Shl => "shl"@,
            OpKind::Shr => "shr"@,
        }
    }

    /// The name this operation is printed with.
    pub fn name(self) -> (s: &'static str)
        ensures
            s@ == self.text(),
    {
        match self {
            OpKind::Var => "var",
            OpKind::Const => "const",
            OpKind::Buffer => "buffer",
            OpKind::Uniform => "uniform",
            OpKind::Add => "add",
            OpKind::Sub => "sub",
            OpKind::Mul => "mul",
            OpKind::Div => "div",
            OpKind::Neg => "neg",
            OpKind::Sqrt => "sqrt",
            OpKind::Rsqrt => "rsqrt",
            OpKind::Abs => "abs",
            OpKind::Min => "min",
            OpKind::Max => "max",
            OpKind::MulAdd => "mul_add",
            OpKind::Recip => "recip",
            OpKind::Floor => "floor",
            OpKind::Ceil => "ceil",
            OpKind::Round => "round",
            OpKind::Fract => "fract",
            OpKind::Sin => "sin",
            OpKind::Cos => "cos",
            OpKind::Tan => "tan",
            OpKind::Asin => "asin",
            OpKind::Acos => "acos",
            OpKind::Atan => "atan",
            OpKind::Exp => "exp",
            OpKind::Exp2 => "exp2",
            OpKind::Ln => "ln",
            OpKind::Log2 => "log2",
            OpKind::Log10 => "log10",
            OpKind::Atan2 => "atan2",
            OpKind::Pow => "pow",
            OpKind::Hypot => "hypot",
            OpKind::Lt => "lt",
            OpKind::Le => "le",
            OpKind::Gt => "gt",
            OpKind::Ge => "ge",
            OpKind::Eq => "eq",
            OpKind::Ne => "ne",
            OpKind::Select => "select",
            OpKind::Clamp => "clamp",
            OpKind::Tuple => "tuple",
            OpKind::Gather => "gather",
            OpKind::RawGather => "raw_gather",
            OpKind::Reduce => "reduce",
            OpKind::TruncToInt => "trunc_to_int",
            OpKind::IntToFloat => "int_to_float",
            OpKind::IAdd => "iadd",
            OpKind::BitAnd => "bit_and",
            OpKind::BitOr => "bit_or",
            OpKind::Shl => "shl",
            OpKind::Shr => "shr",
        }
    }
}

} // verus!
