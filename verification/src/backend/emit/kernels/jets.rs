//! Forward-mode derivatives for SSE.
//!
//! For each node the value and one partial derivative per seeded variable are
//! computed, by the chain rule. Partials that are zero whatever the inputs take
//! no register. There is no spilling: an expression that needs more registers
//! than there are is refused.

use crate::arena::model::{lemma_term_kids, ArenaModel, Head, Term};
use crate::arena::{ExprArena, ExprId, ExprNode};
use crate::backend::emit::bytes::CodeBytes;
use crate::backend::emit::driver::{delivers, CompileResult, Kernel};
use crate::backend::emit::kernels::tree::{
    emit_binary, emit_load, emit_unary, encoded, encoded_all, lemma_encoded_push, Inst,
    X86_MAX_VALUE_REG,
};
use crate::backend::emit::kernels::x86::{expanded, expands, MAX_DEPTH};
use crate::backend::emit::lowering::try_expand_transcendentals_owned;
use crate::backend::emit::outcome::{outcome_of, Outcome};
use crate::backend::emit::plan::EmitCtx;
use crate::backend::emit::x86_64;
use crate::backend::emit::x86_64::X86Code;
use crate::backend::emit::{Reg, INPUT_REGS, SCRATCH_BASE};
use crate::kind::OpKind;
use vstd::prelude::*;

verus! {

/// One partial derivative.
#[derive(Copy, Clone, Debug, PartialEq, Eq, Structural)]
pub enum Partial {
    /// Zero whatever the inputs: no register, no work.
    Zero,
    /// In a register.
    Reg(Reg),
}

/// A value and its partial derivatives, one per seeded variable.
#[derive(Debug)]
pub struct Jet {
    /// Register of the value.
    pub val: Reg,
    /// The partials, in seed order.
    pub partials: Vec<Partial>,
}

/// Model of [`Jet`].
#[verifier::ext_equal]
pub struct JetModel {
    /// Register of the value.
    pub val: Reg,
    /// The partials, in seed order.
    pub partials: Seq<Partial>,
}

impl View for Jet {
    type V = JetModel;

    open spec fn view(&self) -> JetModel {
        JetModel { val: self.val, partials: self.partials@ }
    }
}

/// Instructions so far and the registers still free, the last to be taken first.
#[verifier::ext_equal]
pub struct Progress {
    /// Instructions so far.
    pub insts: Seq<Inst>,
    /// Free registers.
    pub free: Seq<Reg>,
}

/// The error when no register is free.
pub open spec fn out_of_registers() -> &'static str {
    "x86 JIT: out of registers for jet (expression too complex)"
}

impl Progress {
    /// One more instruction.
    pub open spec fn then_inst(self, i: Inst) -> Progress {
        Progress { insts: self.insts.push(i), ..self }
    }

    /// A register taken.
    pub open spec fn taken(self) -> Progress {
        Progress { free: self.free.drop_last(), ..self }
    }

    /// A register given back, if it is a value register and not free already.
    pub open spec fn given(self, r: Reg) -> Progress {
        if SCRATCH_BASE <= r.0 <= X86_MAX_VALUE_REG && !self.free.contains(r) {
            Progress { free: self.free.push(r), ..self }
        } else {
            self
        }
    }

    /// The registers of the first `k` partials given back.
    pub open spec fn given_partials(self, ps: Seq<Partial>, k: int) -> Progress
        decreases k,
    {
        if k <= 0 {
            self
        } else {
            match ps[k - 1] {
                Partial::Zero => self.given_partials(ps, k - 1),
                Partial::Reg(r) => self.given_partials(ps, k - 1).given(r),
            }
        }
    }

    /// All registers of a jet given back.
    pub open spec fn given_jet(self, j: JetModel) -> Progress {
        self.given(j.val).given_partials(j.partials, j.partials.len() as int)
    }
}

/// Free registers: xmm4 to xmm11.
#[derive(Debug)]
pub struct RegPool {
    free: Vec<Reg>,
}

impl View for RegPool {
    type V = Seq<Reg>;

    closed spec fn view(&self) -> Seq<Reg> {
        self.free@
    }
}

/// All value registers free, xmm4 to be taken first.
pub open spec fn all_free() -> Seq<Reg> {
    Seq::new(8, |i: int| Reg((11 - i) as u8))
}

impl RegPool {
    /// All value registers free.
    pub fn new() -> (p: RegPool)
        ensures
            p@ == all_free(),
    {
        let mut free: Vec<Reg> = Vec::new();
        let mut r: u8 = X86_MAX_VALUE_REG;
        while r >= SCRATCH_BASE
            invariant
                3 <= r <= 11,
                free@.len() == 11 - r,
                forall|i: int| 0 <= i < free@.len() ==> #[trigger] free@[i] == Reg((11 - i) as u8),
            decreases r,
        {
            free.push(Reg(r));
            r = r - 1;
        }
        assert(free@ =~= all_free());
        RegPool { free }
    }

    /// Take a register.
    pub fn take_reg(&mut self) -> (r: Result<Reg, &'static str>)
        ensures
            if old(self)@.len() > 0 {
                r == Ok::<Reg, &'static str>(old(self)@.last()) && final(self)@ == old(
                    self)@.drop_last()
            } else {
                r == Err::<Reg, &'static str>(out_of_registers()) && final(self)@ == old(self)@
            },
    {
        match self.free.pop() {
            Some(r) => Ok(r),
            None => Err("x86 JIT: out of registers for jet (expression too complex)"),
        }
    }

    /// Give a register back. Input and scratch registers are left out.
    pub fn free_reg(&mut self, r: Reg)
        ensures
            final(self)@ == (Progress { insts: Seq::empty(), free: old(self)@ }).given(r).free,
    {
        if r.0 < SCRATCH_BASE || r.0 > X86_MAX_VALUE_REG {
            return;
        }
        let mut i: usize = 0;
        while i < self.free.len()
            invariant
                i <= self.free@.len(),
                self.free@ == old(self).free@,
                forall|k: int| 0 <= k < i ==> self.free@[k] != r,
                SCRATCH_BASE <= r.0 <= X86_MAX_VALUE_REG,
            decreases self.free@.len() - i,
        {
            if self.free[i].0 == r.0 {
                assert(self.free@[i as int] == r);
                return;
            }
            i += 1;
        }
        self.free.push(r);
    }

    /// Give back all registers of a jet.
    pub fn free_jet(&mut self, jet: &Jet)
        ensures
            final(self)@ == (Progress { insts: Seq::empty(), free: old(self)@ }).given_jet(jet@).free,
    {
        self.free_reg(jet.val);
        let ghost p = (Progress { insts: Seq::empty(), free: old(self)@ }).given(jet.val);
        let mut k: usize = 0;
        while k < jet.partials.len()
            invariant
                k <= jet.partials@.len(),
                p.insts == Seq::<Inst>::empty(),
                self@ == p.given_partials(jet.partials@, k as int).free,
                p.given_partials(jet.partials@, k as int).insts == Seq::<Inst>::empty(),
            decreases jet.partials@.len() - k,
        {
            if let Partial::Reg(r) = jet.partials[k] {
                self.free_reg(r);
            }
            k += 1;
        }
    }
}

/// Scratch register of the product and square root rules.
pub open spec fn jet_scratch() -> Reg {
    Reg(12)
}

/// Scratch registers of unary operations.
pub open spec fn jet_unary_scratch() -> [Reg; 4] {
    [Reg(13), Reg(14), Reg(15), Reg(15)]
}

/// How partials are combined.
#[derive(Copy, Clone, Debug)]
pub enum Rule {
    /// Of a negation.
    Negated,
    /// By the factor in the scratch register.
    Scaled,
    /// Of a sum, or of a difference.
    Summed(bool),
    /// Of a product.
    Product,
}

/// A unary instruction of a jet.
pub open spec fn negation(dst: Reg, src: Reg) -> Inst {
    Inst::Unary(OpKind::Neg, dst, src, jet_unary_scratch())
}

/// The `j`-th partial under a rule, from the jets of the operands. For one
/// operand both are the same.
pub open spec fn partial_of(rule: Rule, l: JetModel, r: JetModel, j: int, st: Progress) -> Outcome<
    (Partial, Progress),
> {
    let d = st.free.last();
    let some = st.free.len() > 0;
    let st1 = st.taken();
    let a = l.partials[j];
    let b = match rule {
        Rule::Negated | Rule::Scaled => Partial::Zero,
        _ => r.partials[j],
    };
    match (a, b) {
        (Partial::Zero, Partial::Zero) => Outcome::Done((Partial::Zero, st)),
        (Partial::Reg(ra), Partial::Zero) => if some {
            Outcome::Done(
                (
                    Partial::Reg(d),
                    match rule {
                        Rule::Negated => st1.then_inst(negation(d, ra)),
                        Rule::Scaled => st1.then_inst(Inst::Copy(d, ra)).then_inst(
                            Inst::Binary(OpKind::Mul, d, d, jet_scratch()),
                        ),
                        Rule::Summed(_) => st1.then_inst(Inst::Copy(d, ra)),
                        Rule::Product => st1.then_inst(Inst::Copy(d, ra)).then_inst(
                            Inst::Binary(OpKind::Mul, d, d, r.val),
                        ),
                    },
                ),
            )
        } else {
            Outcome::Fail(out_of_registers())
        },
        (Partial::Zero, Partial::Reg(rb)) => if some {
            Outcome::Done(
                (
                    Partial::Reg(d),
                    match rule {
                        Rule::Summed(sub) => if sub {
                            st1.then_inst(Inst::Copy(d, rb)).then_inst(negation(d, d))
                        } else {
                            st1.then_inst(Inst::Copy(d, rb))
                        },
                        _ => st1.then_inst(Inst::Copy(d, l.val)).then_inst(
                            Inst::Binary(OpKind::Mul, d, d, rb),
                        ),
                    },
                ),
            )
        } else {
            Outcome::Fail(out_of_registers())
        },
        (Partial::Reg(ra), Partial::Reg(rb)) => if some {
            Outcome::Done(
                (
                    Partial::Reg(d),
                    match rule {
                        Rule::Summed(sub) => st1.then_inst(Inst::Copy(d, ra)).then_inst(
                            Inst::Binary(
                                if sub {
                                    OpKind::Sub
                                } else {
                                    OpKind::Add
                                },
                                d,
                                d,
                                rb,
                            ),
                        ),
                        _ => st1.then_inst(Inst::Copy(d, l.val)).then_inst(
                            Inst::Binary(OpKind::Mul, d, d, rb),
                        ).then_inst(Inst::Copy(jet_scratch(), ra)).then_inst(
                            Inst::Binary(OpKind::Mul, jet_scratch(), jet_scratch(), r.val),
                        ).then_inst(Inst::Binary(OpKind::Add, d, d, jet_scratch())),
                    },
                ),
            )
        } else {
            Outcome::Fail(out_of_registers())
        },
    }
}

/// The first `k` partials under a rule.
pub open spec fn partials_of(rule: Rule, l: JetModel, r: JetModel, k: int, st: Progress) -> Outcome<
    (Seq<Partial>, Progress),
>
    decreases k,
{
    if k <= 0 {
        Outcome::Done((Seq::empty(), st))
    } else {
        match partials_of(rule, l, r, k - 1, st) {
            Outcome::Done((ps, st)) => match partial_of(rule, l, r, k - 1, st) {
                Outcome::Done((p, st)) => Outcome::Done((ps.push(p), st)),
                Outcome::Fail(e) => Outcome::Fail(e),
                Outcome::Refused => Outcome::Refused,
            },
            x => x,
        }
    }
}

/// The partials of a variable: one with respect to itself.
pub open spec fn seeds_of(i: u8, seed: Seq<u8>, k: int, st: Progress) -> Outcome<
    (Seq<Partial>, Progress),
>
    decreases k,
{
    if k <= 0 {
        Outcome::Done((Seq::empty(), st))
    } else {
        match seeds_of(i, seed, k - 1, st) {
            Outcome::Done((ps, st)) => if seed[k - 1] != i {
                Outcome::Done((ps.push(Partial::Zero), st))
            } else if st.free.len() > 0 {
                let d = st.free.last();
                Outcome::Done(
                    (ps.push(Partial::Reg(d)), st.taken().then_inst(Inst::Load(d, 0x3F800000))),
                )
            } else {
                Outcome::Fail(out_of_registers())
            },
            x => x,
        }
    }
}

/// As many zero partials as seeds.
pub open spec fn zeros(seed: Seq<u8>) -> Seq<Partial> {
    Seq::new(seed.len(), |j: int| Partial::Zero)
}

/// The rule of a unary operation, the instructions of its value in `d`, and
/// whether it is supported.
pub open spec fn unary_rule(op: OpKind, d: Reg, src: Reg, st: Progress) -> Option<
    (Option<Rule>, Progress),
> {
    let st = st.taken().then_inst(Inst::Unary(op, d, src, jet_unary_scratch()));
    match op {
        OpKind::Neg => Some((Some(Rule::Negated), st)),
        OpKind::Sqrt => Some(
            (
                Some(Rule::Scaled),
                st.then_inst(Inst::Load(jet_scratch(), 0x3F000000)).then_inst(
                    Inst::Binary(OpKind::Div, jet_scratch(), jet_scratch(), d),
                ),
            ),
        ),
        OpKind::Floor => Some((None, st)),
        _ => None,
    }
}

/// The rule of a binary operation, if it is supported.
pub open spec fn binary_rule(op: OpKind) -> Option<Rule> {
    match op {
        OpKind::Add => Some(Rule::Summed(false)),
        OpKind::Sub => Some(Rule::Summed(true)),
        OpKind::Mul => Some(Rule::Product),
        _ => None,
    }
}

/// The jet of an expression.
pub open spec fn jet_of(t: Term, seed: Seq<u8>, st: Progress) -> Outcome<(JetModel, Progress)>
    decreases t,
{
    let n = seed.len() as int;
    match t.head {
        Head::Var(i) => if i >= 4 {
            Outcome::Fail("variable index out of range")
        } else {
            match seeds_of(i, seed, n, st) {
                Outcome::Done((partials, st)) => Outcome::Done(
                    (JetModel { val: Reg(i), partials }, st),
                ),
                Outcome::Fail(e) => Outcome::Fail(e),
                Outcome::Refused => Outcome::Refused,
            }
        },
        Head::Const(bits) => if st.free.len() > 0 {
            let d = st.free.last();
            Outcome::Done(
                (
                    JetModel { val: d, partials: zeros(seed) },
                    st.taken().then_inst(Inst::Load(d, bits)),
                ),
            )
        } else {
            Outcome::Fail(out_of_registers())
        },
        Head::Unary(op) => if t.kids.len() == 1 {
            match jet_of(t.kids[0], seed, st) {
                Outcome::Done((c, st)) => match unary_rule(op, st.free.last(), c.val, st) {
                    None => Outcome::Fail("x86 JIT jet: unary op not yet supported"),
                    Some((rule, next)) => if st.free.len() == 0 {
                        Outcome::Fail(out_of_registers())
                    } else {
                        let val = st.free.last();
                        match rule {
                            None => Outcome::Done(
                                (JetModel { val, partials: zeros(seed) }, next.given_jet(c)),
                            ),
                            Some(rule) => match partials_of(rule, c, c, n, next) {
                                Outcome::Done((partials, st)) => Outcome::Done(
                                    (JetModel { val, partials }, st.given_jet(c)),
                                ),
                                Outcome::Fail(e) => Outcome::Fail(e),
                                Outcome::Refused => Outcome::Refused,
                            },
                        }
                    },
                },
                x => x,
            }
        } else {
            Outcome::Refused
        },
        Head::Binary(op) => if t.kids.len() == 2 {
            match jet_of(t.kids[0], seed, st) {
                Outcome::Done((l, st)) => match jet_of(t.kids[1], seed, st) {
                    Outcome::Done((r, st)) => match binary_rule(op) {
                        None => Outcome::Fail("x86 JIT jet: binary op not yet supported"),
                        Some(rule) => if st.free.len() == 0 {
                            Outcome::Fail(out_of_registers())
                        } else {
                            let val = st.free.last();
                            let next = st.taken().then_inst(Inst::Copy(val, l.val)).then_inst(
                                Inst::Binary(op, val, val, r.val),
                            );
                            match partials_of(rule, l, r, n, next) {
                                Outcome::Done((partials, st)) => Outcome::Done(
                                    (
                                        JetModel { val, partials },
                                        st.given_jet(l).given_jet(r),
                                    ),
                                ),
                                Outcome::Fail(e) => Outcome::Fail(e),
                                Outcome::Refused => Outcome::Refused,
                            }
                        },
                    },
                    x => x,
                },
                x => x,
            }
        } else {
            Outcome::Refused
        },
        Head::Ternary(_) => Outcome::Fail("x86 JIT jet: ternary not yet supported"),
        Head::Param(_) => Outcome::Fail("Param not supported directly here"),
        Head::Nary(_) => Outcome::Fail("Nary not supported in JIT"),
        _ => Outcome::Refused,
    }
}

/// The free registers after giving a jet's back do not depend on instructions.
proof fn lemma_given_free(a: Progress, b: Progress, j: JetModel)
    requires
        a.free == b.free,
    ensures
        a.given_jet(j).free == b.given_jet(j).free,
        a.given_jet(j).insts == a.insts,
{
    lemma_given_partials_free(
        a.given(j.val),
        b.given(j.val),
        j.partials,
        j.partials.len() as int,
    );
}

proof fn lemma_given_partials_free(a: Progress, b: Progress, ps: Seq<Partial>, k: int)
    requires
        a.free == b.free,
    ensures
        a.given_partials(ps, k).free == b.given_partials(ps, k).free,
        a.given_partials(ps, k).insts == a.insts,
    decreases k,
{
    if k > 0 {
        lemma_given_partials_free(a, b, ps, k - 1);
    }
}

/// Code and free registers stand for the progress of an emission that started
/// from `code0`.
pub open spec fn stands_for(code0: Seq<u8>, code: Seq<u8>, free: Seq<Reg>, st: Progress) -> bool {
    code == encoded_all(code0, st.insts) && free == st.free
}

/// Emit a copy.
fn emit_copy(code: &mut Vec<u8>, dst: Reg, src: Reg)
    ensures
        final(code)@ == encoded(old(code)@, Inst::Copy(dst, src)),
{
    proof {
        reveal(encoded);
    }
    x86_64::emit_movaps(code, dst, src);
}

/// Emit a negation.
fn emit_negation(code: &mut Vec<u8>, dst: Reg, src: Reg)
    ensures
        final(code)@ == encoded(old(code)@, negation(dst, src)),
{
    emit_unary(code, OpKind::Neg, dst, src, [Reg(13), Reg(14), Reg(15), Reg(15)]);
}

/// Emit a partial under a rule.
fn emit_partial(
    rule: Rule,
    l: &Jet,
    r: &Jet,
    j: usize,
    pool: &mut RegPool,
    code: &mut Vec<u8>,
    Ghost(code0): Ghost<Seq<u8>>,
    Ghost(st): Ghost<Progress>,
) -> (p: Result<Partial, &'static str>)
    requires
        j < l.partials@.len(),
        j < r.partials@.len(),
        stands_for(code0, old(code)@, old(pool)@, st),
    ensures
        match partial_of(rule, l@, r@, j as int, st) {
            Outcome::Done((q, after)) => p == Ok::<Partial, &'static str>(q) && stands_for(
                code0,
                final(code)@,
                final(pool)@,
                after,
            ),
            Outcome::Fail(e) => p == Err::<Partial, &'static str>(e),
            Outcome::Refused => false,
        },
{
    let a: Partial = l.partials[j];
    let b: Partial = match rule {
        Rule::Negated | Rule::Scaled => Partial::Zero,
        _ => r.partials[j],
    };
    if let (Partial::Zero, Partial::Zero) = (a, b) {
        return Ok(Partial::Zero);
    }
    let d: Reg = match pool.take_reg() {
        Ok(d) => d,
        Err(e) => return Err(e),
    };
    let ghost s1 = st.taken();
    match (a, b) {
        (Partial::Reg(ra), Partial::Zero) => {
            match rule {
                Rule::Negated => {
                    emit_negation(code, d, ra);
                    proof {
                        lemma_encoded_push(code0, s1.insts, negation(d, ra));
                    }
                },
                Rule::Scaled => {
                    emit_copy(code, d, ra);
                    emit_binary(code, OpKind::Mul, d, d, Reg(12));
                    proof {
                        lemma_encoded_push(code0, s1.insts, Inst::Copy(d, ra));
                        lemma_encoded_push(
                            code0,
                            s1.insts.push(Inst::Copy(d, ra)),
                            Inst::Binary(OpKind::Mul, d, d, jet_scratch()),
                        );
                    }
                },
                Rule::Summed(_) => {
                    emit_copy(code, d, ra);
                    proof {
                        lemma_encoded_push(code0, s1.insts, Inst::Copy(d, ra));
                    }
                },
                Rule::Product => {
                    emit_copy(code, d, ra);
                    emit_binary(code, OpKind::Mul, d, d, r.val);
                    proof {
                        lemma_encoded_push(code0, s1.insts, Inst::Copy(d, ra));
                        lemma_encoded_push(
                            code0,
                            s1.insts.push(Inst::Copy(d, ra)),
                            Inst::Binary(OpKind::Mul, d, d, r.val),
                        );
                    }
                },
            }
        },
        (Partial::Zero, Partial::Reg(rb)) => {
            match rule {
                Rule::Summed(sub) => {
                    emit_copy(code, d, rb);
                    proof {
                        lemma_encoded_push(code0, s1.insts, Inst::Copy(d, rb));
                    }
                    if sub {
                        emit_negation(code, d, d);
                        proof {
                            lemma_encoded_push(
                                code0,
                                s1.insts.push(Inst::Copy(d, rb)),
                                negation(d, d),
                            );
                        }
                    }
                },
                _ => {
                    emit_copy(code, d, l.val);
                    emit_binary(code, OpKind::Mul, d, d, rb);
                    proof {
                        lemma_encoded_push(code0, s1.insts, Inst::Copy(d, l.val));
                        lemma_encoded_push(
                            code0,
                            s1.insts.push(Inst::Copy(d, l.val)),
                            Inst::Binary(OpKind::Mul, d, d, rb),
                        );
                    }
                },
            }
        },
        (Partial::Reg(ra), Partial::Reg(rb)) => {
            match rule {
                Rule::Summed(sub) => {
                    let op: OpKind = if sub {
                        OpKind::Sub
                    } else {
                        OpKind::Add
                    };
                    emit_copy(code, d, ra);
                    emit_binary(code, op, d, d, rb);
                    proof {
                        lemma_encoded_push(code0, s1.insts, Inst::Copy(d, ra));
                        lemma_encoded_push(
                            code0,
                            s1.insts.push(Inst::Copy(d, ra)),
                            Inst::Binary(op, d, d, rb),
                        );
                    }
                },
                _ => {
                    emit_copy(code, d, l.val);
                    emit_binary(code, OpKind::Mul, d, d, rb);
                    emit_copy(code, Reg(12), ra);
                    emit_binary(code, OpKind::Mul, Reg(12), Reg(12), r.val);
                    emit_binary(code, OpKind::Add, d, d, Reg(12));
                    proof {
                        let i1 = Inst::Copy(d, l.val);
                        let i2 = Inst::Binary(OpKind::Mul, d, d, rb);
                        let i3 = Inst::Copy(jet_scratch(), ra);
                        let i4 = Inst::Binary(OpKind::Mul, jet_scratch(), jet_scratch(), r.val);
                        let i5 = Inst::Binary(OpKind::Add, d, d, jet_scratch());
                        lemma_encoded_push(code0, s1.insts, i1);
                        lemma_encoded_push(code0, s1.insts.push(i1), i2);
                        lemma_encoded_push(code0, s1.insts.push(i1).push(i2), i3);
                        lemma_encoded_push(code0, s1.insts.push(i1).push(i2).push(i3), i4);
                        lemma_encoded_push(
                            code0,
                            s1.insts.push(i1).push(i2).push(i3).push(i4),
                            i5,
                        );
                    }
                },
            }
        },
        (Partial::Zero, Partial::Zero) => {},
    }
    Ok(Partial::Reg(d))
}

/// Emit all partials under a rule.
fn emit_partials(
    rule: Rule,
    l: &Jet,
    r: &Jet,
    k: usize,
    pool: &mut RegPool,
    code: &mut Vec<u8>,
    Ghost(code0): Ghost<Seq<u8>>,
    Ghost(st): Ghost<Progress>,
) -> (res: Result<Vec<Partial>, &'static str>)
    requires
        k == l.partials@.len(),
        k == r.partials@.len(),
        stands_for(code0, old(code)@, old(pool)@, st),
    ensures
        match partials_of(rule, l@, r@, k as int, st) {
            Outcome::Done((ps, after)) => res matches Ok(v) && v@ == ps && stands_for(
                code0,
                final(code)@,
                final(pool)@,
                after,
            ) && ps.len() == k,
            Outcome::Fail(e) => res matches Err(f) && f == e,
            Outcome::Refused => false,
        },
{
    let mut ps: Vec<Partial> = Vec::new();
    let ghost mut now = st;
    let mut j: usize = 0;
    assert(ps@ =~= Seq::<Partial>::empty());
    while j < k
        invariant
            j <= k,
            k == l.partials@.len(),
            k == r.partials@.len(),
            ps@.len() == j,
            stands_for(code0, code@, pool@, now),
            partials_of(rule, l@, r@, j as int, st) == Outcome::Done((ps@, now)),
        decreases k - j,
    {
        let p: Partial = match emit_partial(
            rule,
            l,
            r,
            j,
            pool,
            code,
            Ghost(code0),
            Ghost(now),
        ) {
            Ok(p) => p,
            Err(e) => {
                proof {
                    lemma_partials_fail(rule, l@, r@, j as int, k as int, st, e);
                }
                return Err(e);
            },
        };
        proof {
            now = partial_of(rule, l@, r@, j as int, now)->Done_0.1;
        }
        ps.push(p);
        j += 1;
    }
    Ok(ps)
}

proof fn lemma_partials_fail(
    rule: Rule,
    l: JetModel,
    r: JetModel,
    j: int,
    k: int,
    st: Progress,
    e: &'static str,
)
    requires
        0 <= j < k,
        partials_of(rule, l, r, j, st) is Done,
        partial_of(rule, l, r, j, partials_of(rule, l, r, j, st)->Done_0.1) == Outcome::<
            (Partial, Progress),
        >::Fail(e),
    ensures
        partials_of(rule, l, r, k, st) == Outcome::<(Seq<Partial>, Progress)>::Fail(e),
    decreases k,
{
    if j < k - 1 {
        lemma_partials_fail(rule, l, r, j, k - 1, st, e);
    }
}

proof fn lemma_seeds_fail(i: u8, seed: Seq<u8>, j: int, k: int, st: Progress)
    requires
        0 <= j <= k,
        seeds_of(i, seed, j, st) is Fail,
    ensures
        seeds_of(i, seed, k, st) == seeds_of(i, seed, j, st),
    decreases k,
{
    if j < k {
        lemma_seeds_fail(i, seed, j, k - 1, st);
    }
}

/// Emit the partials of a variable.
fn emit_seeds(
    i: u8,
    seed: &[u8],
    pool: &mut RegPool,
    code: &mut Vec<u8>,
    Ghost(code0): Ghost<Seq<u8>>,
    Ghost(st): Ghost<Progress>,
) -> (res: Result<Vec<Partial>, &'static str>)
    requires
        stands_for(code0, old(code)@, old(pool)@, st),
    ensures
        match seeds_of(i, seed@, seed@.len() as int, st) {
            Outcome::Done((ps, after)) => res matches Ok(v) && v@ == ps && stands_for(
                code0,
                final(code)@,
                final(pool)@,
                after,
            ) && ps.len() == seed@.len(),
            Outcome::Fail(e) => res matches Err(f) && f == e,
            Outcome::Refused => false,
        },
{
    let mut ps: Vec<Partial> = Vec::new();
    let ghost mut now = st;
    let mut j: usize = 0;
    assert(ps@ =~= Seq::<Partial>::empty());
    while j < seed.len()
        invariant
            j <= seed@.len(),
            ps@.len() == j,
            stands_for(code0, code@, pool@, now),
            seeds_of(i, seed@, j as int, st) == Outcome::Done((ps@, now)),
        decreases seed@.len() - j,
    {
        if seed[j] == i {
            let d: Reg = match pool.take_reg() {
                Ok(d) => d,
                Err(e) => {
                    proof {
                        lemma_seeds_fail(i, seed@, j + 1, seed@.len() as int, st);
                    }
                    return Err(e);
                },
            };
            emit_load(code, d, 0x3F800000);
            proof {
                lemma_encoded_push(code0, now.insts, Inst::Load(d, 0x3F800000));
                now = now.taken().then_inst(Inst::Load(d, 0x3F800000));
            }
            ps.push(Partial::Reg(d));
        } else {
            ps.push(Partial::Zero);
        }
        j += 1;
    }
    Ok(ps)
}

/// As many zero partials as seeds.
fn zero_partials(seed: &[u8]) -> (ps: Vec<Partial>)
    ensures
        ps@ == zeros(seed@),
{
    let mut ps: Vec<Partial> = Vec::new();
    while ps.len() < seed.len()
        invariant
            ps@.len() <= seed@.len(),
            forall|j: int| 0 <= j < ps@.len() ==> #[trigger] ps@[j] == Partial::Zero,
        decreases seed@.len() - ps@.len(),
    {
        ps.push(Partial::Zero);
    }
    assert(ps@ =~= zeros(seed@));
    ps
}

/// Emit the jet of the expression at `id`.
pub(crate) fn emit_jet(
    arena: &ExprArena,
    id: ExprId,
    seed: &[u8],
    pool: &mut RegPool,
    code: &mut Vec<u8>,
    Ghost(code0): Ghost<Seq<u8>>,
    Ghost(st): Ghost<Progress>,
) -> (r: Outcome<Jet>)
    requires
        arena@.wf(),
        arena@.has(id),
        stands_for(code0, old(code)@, old(pool)@, st),
    ensures
        match jet_of(arena@.term(id.0 as int), seed@, st) {
            Outcome::Done((jet, after)) => {
                &&& r matches Outcome::Done(j) && j@ == jet
                &&& stands_for(code0, final(code)@, final(pool)@, after)
                &&& jet.partials.len() == seed@.len()
            },
            Outcome::Fail(e) => r matches Outcome::Fail(f) && f == e,
            Outcome::Refused => r is Refused,
        },
    decreases id.0,
{
    let ghost m = arena@;
    let ghost t = m.term(id.0 as int);
    proof {
        lemma_term_kids(m, id.0 as int);
    }
    match *arena.node(id) {
        ExprNode::Var(i) => {
            if i as usize >= INPUT_REGS.len() {
                return Outcome::Fail("variable index out of range");
            }
            let partials = match emit_seeds(i, seed, pool, code, Ghost(code0), Ghost(st)) {
                Ok(p) => p,
                Err(e) => return Outcome::Fail(e),
            };
            Outcome::Done(Jet { val: Reg(INPUT_REGS[i as usize]), partials })
        },
        ExprNode::Const(bits) => {
            let val: Reg = match pool.take_reg() {
                Ok(d) => d,
                Err(e) => return Outcome::Fail(e),
            };
            emit_load(code, val, bits);
            proof {
                lemma_encoded_push(code0, st.insts, Inst::Load(val, bits));
            }
            Outcome::Done(Jet { val, partials: zero_partials(seed) })
        },
        ExprNode::Unary(op, child) => {
            assert(m.kids(id.0 as int)[0] == child);
            assert(t.kids[0] == m.term(child.0 as int));
            let c: Jet = match emit_jet(arena, child, seed, pool, code, Ghost(code0), Ghost(st)) {
                Outcome::Done(c) => c,
                x => return x,
            };
            let ghost s1 = jet_of(t.kids[0], seed@, st)->Done_0.1;
            let rule: Option<Rule> = match op {
                OpKind::Neg => Some(Rule::Negated),
                OpKind::Sqrt => Some(Rule::Scaled),
                OpKind::Floor => None,
                _ => return Outcome::Fail("x86 JIT jet: unary op not yet supported"),
            };
            let val: Reg = match pool.take_reg() {
                Ok(d) => d,
                Err(e) => return Outcome::Fail(e),
            };
            let ghost next = (unary_rule(op, val, c.val, s1)->0).1;
            emit_unary(code, op, val, c.val, [Reg(13), Reg(14), Reg(15), Reg(15)]);
            proof {
                lemma_encoded_push(
                    code0,
                    s1.insts,
                    Inst::Unary(op, val, c.val, jet_unary_scratch()),
                );
            }
            if let OpKind::Sqrt = op {
                emit_load(code, Reg(12), 0x3F000000);
                emit_binary(code, OpKind::Div, Reg(12), Reg(12), val);
                proof {
                    let i1 = Inst::Unary(op, val, c.val, jet_unary_scratch());
                    let i2 = Inst::Load(jet_scratch(), 0x3F000000);
                    let i3 = Inst::Binary(OpKind::Div, jet_scratch(), jet_scratch(), val);
                    lemma_encoded_push(code0, s1.insts.push(i1), i2);
                    lemma_encoded_push(code0, s1.insts.push(i1).push(i2), i3);
                }
            }
            assert(stands_for(code0, code@, pool@, next));
            match rule {
                None => {
                    proof {
                        lemma_given_free(
                            next,
                            (Progress { insts: Seq::empty(), free: pool@ }),
                            c@,
                        );
                    }
                    pool.free_jet(&c);
                    Outcome::Done(Jet { val, partials: zero_partials(seed) })
                },
                Some(rule) => {
                    let partials = match emit_partials(
                        rule,
                        &c,
                        &c,
                        seed.len(),
                        pool,
                        code,
                        Ghost(code0),
                        Ghost(next),
                    ) {
                        Ok(p) => p,
                        Err(e) => return Outcome::Fail(e),
                    };
                    proof {
                        let s2 = partials_of(rule, c@, c@, seed@.len() as int, next)->Done_0.1;
                        lemma_given_free(
                            s2,
                            (Progress { insts: Seq::empty(), free: pool@ }),
                            c@,
                        );
                    }
                    pool.free_jet(&c);
                    Outcome::Done(Jet { val, partials })
                },
            }
        },
        ExprNode::Binary(op, left, right) => {
            assert(m.kids(id.0 as int)[0] == left && m.kids(id.0 as int)[1] == right);
            assert(t.kids[0] == m.term(left.0 as int) && t.kids[1] == m.term(right.0 as int));
            let l: Jet = match emit_jet(arena, left, seed, pool, code, Ghost(code0), Ghost(st)) {
                Outcome::Done(c) => c,
                x => return x,
            };
            let ghost s1 = jet_of(t.kids[0], seed@, st)->Done_0.1;
            let r: Jet = match emit_jet(arena, right, seed, pool, code, Ghost(code0), Ghost(s1)) {
                Outcome::Done(c) => c,
                x => return x,
            };
            let ghost s2 = jet_of(t.kids[1], seed@, s1)->Done_0.1;
            let rule: Rule = match op {
                OpKind::Add => Rule::Summed(false),
                OpKind::Sub => Rule::Summed(true),
                OpKind::Mul => Rule::Product,
                _ => return Outcome::Fail("x86 JIT jet: binary op not yet supported"),
            };
            let val: Reg = match pool.take_reg() {
                Ok(d) => d,
                Err(e) => return Outcome::Fail(e),
            };
            emit_copy(code, val, l.val);
            emit_binary(code, op, val, val, r.val);
            let ghost next = s2.taken().then_inst(Inst::Copy(val, l.val)).then_inst(
                Inst::Binary(op, val, val, r.val),
            );
            proof {
                let i1 = Inst::Copy(val, l.val);
                lemma_encoded_push(code0, s2.insts, i1);
                lemma_encoded_push(code0, s2.insts.push(i1), Inst::Binary(op, val, val, r.val));
            }
            let partials = match emit_partials(
                rule,
                &l,
                &r,
                seed.len(),
                pool,
                code,
                Ghost(code0),
                Ghost(next),
            ) {
                Ok(p) => p,
                Err(e) => return Outcome::Fail(e),
            };
            let ghost s3 = partials_of(rule, l@, r@, seed@.len() as int, next)->Done_0.1;
            proof {
                lemma_given_free(s3, (Progress { insts: Seq::empty(), free: pool@ }), l@);
            }
            pool.free_jet(&l);
            proof {
                lemma_given_free(
                    s3.given_jet(l@),
                    (Progress { insts: Seq::empty(), free: pool@ }),
                    r@,
                );
            }
            pool.free_jet(&r);
            Outcome::Done(Jet { val, partials })
        },
        ExprNode::Ternary(_, _, _, _) => Outcome::Fail("x86 JIT jet: ternary not yet supported"),
        ExprNode::Param(_) => Outcome::Fail("Param not supported directly here"),
        ExprNode::Nary(_, _, _) => Outcome::Fail("Nary not supported in JIT"),
        _ => Outcome::Refused,
    }
}

/// Which component of a jet a kernel returns.
#[derive(Clone, Copy, Debug, PartialEq, Eq, Structural)]
pub enum JetOutput {
    /// The value.
    Value,
    /// The partial with respect to the variable at this place of the seed.
    Partial(usize),
}

/// The component of a jet that is returned.
pub open spec fn component(jet: JetModel, output: JetOutput) -> Partial {
    match output {
        JetOutput::Value => Partial::Reg(jet.val),
        JetOutput::Partial(j) => jet.partials[j as int],
    }
}

/// Code that returns a component.
pub open spec fn returned(code: Seq<u8>, p: Partial) -> Seq<u8> {
    match p {
        Partial::Reg(r) => x86_64::copy_code(code, Reg(0), r).byte(0xC3),
        Partial::Zero => code.constant(Reg(0), 0).byte(0xC3),
    }
}

/// Before any instruction.
pub open spec fn fresh() -> Progress {
    Progress { insts: Seq::empty(), free: all_free() }
}

/// The kernel of one component of an expression's jet.
pub open spec fn jet_kernel(m: ArenaModel, root: ExprId, seed: Seq<u8>, output: JetOutput) -> Result<
    Kernel,
    &'static str,
> {
    let e = expanded(m, root);
    let t = e.0.term((e.1).0 as int);
    if t.depth() > MAX_DEPTH {
        Err("expression too deep")
    } else if output matches JetOutput::Partial(j) && j >= seed.len() {
        Err("jet output: partial index out of range for seed")
    } else {
        match jet_of(t, seed, fresh()) {
            Outcome::Done((jet, st)) => Ok(
                Kernel {
                    code: returned(encoded_all(Seq::empty(), st.insts), component(jet, output)),
                    spill_count: 0,
                    spill_bytes: 0,
                },
            ),
            Outcome::Fail(e) => Err(e),
            Outcome::Refused => arbitrary(),
        }
    }
}

/// The expression's jet can be compiled: its expansion fits an arena, and no
/// leaf is reached that is not a plain value.
pub open spec fn jet_ok(m: ArenaModel, root: ExprId, seed: Seq<u8>, output: JetOutput) -> bool {
    let e = expanded(m, root);
    let t = e.0.term((e.1).0 as int);
    &&& expands(m, root)
    &&& t.depth() <= MAX_DEPTH && !(output matches JetOutput::Partial(j) && j >= seed.len())
        ==> !(jet_of(t, seed, fresh()) is Refused)
}

/// Compile one component of the forward-mode jet of an expression, if it can be
/// compiled: see [`compile_arena_dag_jet`].
pub fn try_compile_arena_dag_jet(
    arena: &ExprArena,
    root: ExprId,
    seed: &[u8],
    output: JetOutput,
) -> (r: Outcome<CompileResult>)
    requires
        arena@.wf(),
        arena@.has(root),
    ensures
        delivers(
            r,
            outcome_of(
                jet_ok(arena@, root, seed@, output),
                jet_kernel(arena@, root, seed@, output),
            ),
            22,
        ),
{
    let (arena, root) = match try_expand_transcendentals_owned(arena, root) {
        Some(x) => x,
        None => return Outcome::Refused,
    };
    if arena.depth(root) > MAX_DEPTH {
        return Outcome::Fail("expression too deep");
    }
    if let JetOutput::Partial(j) = output {
        if j >= seed.len() {
            return Outcome::Fail("jet output: partial index out of range for seed");
        }
    }
    let mut pool = RegPool::new();
    let mut code: Vec<u8> = Vec::new();
    let ghost code0 = code@;
    assert(code0 =~= Seq::<u8>::empty());
    let jet: Jet = match emit_jet(
        &arena,
        root,
        seed,
        &mut pool,
        &mut code,
        Ghost(code0),
        Ghost(fresh()),
    ) {
        Outcome::Done(j) => j,
        Outcome::Fail(e) => return Outcome::Fail(e),
        Outcome::Refused => return Outcome::Refused,
    };
    let src: Partial = match output {
        JetOutput::Value => Partial::Reg(jet.val),
        JetOutput::Partial(j) => jet.partials[j],
    };
    match src {
        Partial::Reg(r) => {
            if r.0 != 0 {
                x86_64::emit_movaps(&mut code, Reg(0), r);
            }
        },
        Partial::Zero => x86_64::emit_const(
            &mut code,
            Reg(0),
            0,
            [Reg(13), Reg(14), Reg(15), Reg(15)],
        ),
    }
    code.push(0xC3);
    Outcome::Done(
        CompileResult {
            code,
            spill_count: 0,
            spill_bytes: 0,
            max_regs: EmitCtx::default().max_regs,
        },
    )
}

/// Compile one component of the forward-mode jet of an expression: its value, or
/// its partial derivative with respect to a seeded variable. Transcendentals are
/// expanded first.
pub fn compile_arena_dag_jet(arena: &ExprArena, root: ExprId, seed: &[u8], output: JetOutput) -> (r:
    Result<CompileResult, &'static str>)
    requires
        jet_ok(arena@, root, seed@, output),
    ensures
        match jet_kernel(arena@, root, seed@, output) {
            Ok(k) => r matches Ok(c) && c@ == k && c.max_regs == 22,
            Err(e) => r matches Err(f) && f == e,
        },
{
    try_compile_arena_dag_jet(arena, root, seed, output).into_result()
}

} // verus!
