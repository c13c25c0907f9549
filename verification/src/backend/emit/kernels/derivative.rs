//! What jets compute: the expression and its derivatives.

use crate::arena::model::{Head, Term};
use crate::backend::emit::kernels::jets::{
    binary_rule, fresh, jet_of, jet_scratch, jet_unary_scratch, negation, partial_of, partials_of,
    seeds_of, unary_rule, JetModel, Partial, Progress, Rule,
};
use crate::backend::emit::kernels::tree::{inputs_in, lemma_insts_push, Inst};
use crate::backend::emit::plan::meaning::{Algebra, Machine};
use crate::backend::emit::Reg;
use crate::kind::OpKind;
use crate::variance::mentions;
use vstd::prelude::*;

verus! {

impl Algebra {
    /// A derivative under a rule, from the values `x` and `y` of the operands,
    /// their derivatives, and a factor. `None` is a derivative that is zero
    /// whatever the inputs.
    pub open spec fn combined(
        self,
        rule: Rule,
        x: int,
        dx: Option<int>,
        y: int,
        dy: Option<int>,
        factor: int,
    ) -> Option<int> {
        match rule {
            Rule::Negated => match dx {
                None => None,
                Some(a) => Some((self.unary)(OpKind::Neg, a)),
            },
            Rule::Scaled => match dx {
                None => None,
                Some(a) => Some((self.binary)(OpKind::Mul, a, factor)),
            },
            Rule::Summed(sub) => match (dx, dy) {
                (None, None) => None,
                (Some(a), None) => Some(a),
                (None, Some(b)) => Some(
                    if sub {
                        (self.unary)(OpKind::Neg, b)
                    } else {
                        b
                    },
                ),
                (Some(a), Some(b)) => Some(
                    (self.binary)(
                        if sub {
                            OpKind::Sub
                        } else {
                            OpKind::Add
                        },
                        a,
                        b,
                    ),
                ),
            },
            Rule::Product => match (dx, dy) {
                (None, None) => None,
                (Some(a), None) => Some((self.binary)(OpKind::Mul, a, y)),
                (None, Some(b)) => Some((self.binary)(OpKind::Mul, x, b)),
                (Some(a), Some(b)) => Some(
                    (self.binary)(
                        OpKind::Add,
                        (self.binary)(OpKind::Mul, x, b),
                        (self.binary)(OpKind::Mul, a, y),
                    ),
                ),
            },
        }
    }

    /// One half over a square root.
    pub open spec fn half_over(self, root: int) -> int {
        (self.binary)(OpKind::Div, (self.constant)(0x3F000000), root)
    }

    /// The derivative of an expression with respect to a variable, by the chain
    /// rule. `None` is a derivative that is zero whatever the inputs. Rounding
    /// down counts as constant.
    pub open spec fn derivative(self, t: Term, v: u8, inputs: spec_fn(u8) -> int) -> Option<int>
        decreases t,
    {
        match t.head {
            Head::Var(i) => if i == v {
                Some((self.constant)(0x3F800000))
            } else {
                None
            },
            Head::Unary(op) => if t.kids.len() == 1 {
                let dx = self.derivative(t.kids[0], v, inputs);
                match op {
                    OpKind::Neg => self.combined(Rule::Negated, 0, dx, 0, None, 0),
                    OpKind::Sqrt => self.combined(
                        Rule::Scaled,
                        0,
                        dx,
                        0,
                        None,
                        self.half_over(self.value(t, inputs)),
                    ),
                    _ => None,
                }
            } else {
                None
            },
            Head::Binary(op) => if t.kids.len() == 2 {
                match binary_rule(op) {
                    None => None,
                    Some(rule) => self.combined(
                        rule,
                        self.value(t.kids[0], inputs),
                        self.derivative(t.kids[0], v, inputs),
                        self.value(t.kids[1], inputs),
                        self.derivative(t.kids[1], v, inputs),
                        0,
                    ),
                }
            } else {
                None
            },
            _ => None,
        }
    }
}

/// Register `r` holds a value that is in use: it is neither free nor scratch.
pub open spec fn in_use(free: Seq<Reg>, r: Reg) -> bool {
    r.0 < 12 && !free.contains(r)
}

/// Registers in use hold the same in both machines.
pub open spec fn kept(free: Seq<Reg>, m: Machine, after: Machine) -> bool {
    forall|r: Reg| in_use(free, r) ==> #[trigger] after.regs[r] == m.regs[r]
}

/// Free registers are value registers, each listed once.
pub open spec fn pool_ok(free: Seq<Reg>) -> bool {
    &&& free.no_duplicates()
    &&& forall|r: Reg| #[trigger] free.contains(r) ==> 4 <= r.0 <= 11
}

/// The partial holds this derivative.
pub open spec fn holds(m: Machine, p: Partial, x: Option<int>) -> bool {
    match p {
        Partial::Zero => x is None,
        Partial::Reg(r) => x == Some(m.regs[r]),
    }
}

/// All registers of the partials are in use.
pub open spec fn partials_in_use(ps: Seq<Partial>, free: Seq<Reg>) -> bool {
    forall|j: int| 0 <= j < ps.len() ==> (#[trigger] ps[j] matches Partial::Reg(r) ==> in_use(free, r))
}

/// All registers of the partials are among these.
pub open spec fn partials_among(ps: Seq<Partial>, regs: Seq<Reg>) -> bool {
    forall|j: int| 0 <= j < ps.len() ==> (#[trigger] ps[j] matches Partial::Reg(r) ==> regs.contains(r))
}

/// The jet holds the value of an expression and its derivatives, in registers in
/// use that were input registers or free at first.
pub open spec fn jet_holds(
    alg: Algebra,
    m: Machine,
    jet: JetModel,
    t: Term,
    seed: Seq<u8>,
    inputs: spec_fn(u8) -> int,
) -> bool {
    &&& m.regs[jet.val] == alg.value(t, inputs)
    &&& jet.partials.len() == seed.len()
    &&& forall|j: int|
        0 <= j < seed.len() ==> holds(
            m,
            #[trigger] jet.partials[j],
            alg.derivative(t, seed[j], inputs),
        )
}

/// The machine after the instructions so far.
pub open spec fn at(alg: Algebra, m: Machine, st: Progress) -> Machine {
    alg.insts(m, st.insts)
}

/// What holds of a step from `before` to `after`: registers in use are kept, no
/// register becomes free that was not.
pub open spec fn fair(alg: Algebra, m: Machine, before: Progress, after: Progress) -> bool {
    &&& kept(before.free, at(alg, m, before), at(alg, m, after))
    &&& pool_ok(after.free)
    &&& forall|r: Reg| #[trigger] after.free.contains(r) ==> before.free.contains(r)
}

proof fn lemma_taken(st: Progress)
    requires
        pool_ok(st.free),
        st.free.len() > 0,
    ensures
        pool_ok(st.taken().free),
        st.free.contains(st.free.last()),
        !st.taken().free.contains(st.free.last()),
        forall|r: Reg| #[trigger]
            st.taken().free.contains(r) <==> st.free.contains(r) && r != st.free.last(),
{
    let f = st.free;
    let g = st.taken().free;
    assert(f.contains(f[f.len() - 1]));
    assert forall|r: Reg| #[trigger] g.contains(r) <==> f.contains(r) && r != f.last() by {
        if g.contains(r) {
            let i = choose|i: int| 0 <= i < g.len() && g[i] == r;
            assert(f[i] == r);
        }
        if f.contains(r) && r != f.last() {
            let i = choose|i: int| 0 <= i < f.len() && f[i] == r;
            assert(g[i] == r);
        }
    }
    assert(g.no_duplicates());
}

proof fn lemma_given(st: Progress, r: Reg)
    requires
        pool_ok(st.free),
    ensures
        pool_ok(st.given(r).free),
        st.given(r).insts == st.insts,
        forall|x: Reg| #[trigger]
            st.given(r).free.contains(x) <==> st.free.contains(x) || (x == r && 4 <= r.0 <= 11),
{
    let f = st.free;
    let g = st.given(r).free;
    if 4 <= r.0 <= 11 && !f.contains(r) {
        assert(g == f.push(r));
        assert forall|x: Reg| #[trigger] g.contains(x) <==> f.contains(x) || x == r by {
            if f.contains(x) {
                let i = choose|i: int| 0 <= i < f.len() && f[i] == x;
                assert(g[i] == x);
            }
            if x == r {
                assert(g[f.len() as int] == x);
            }
        }
    }
}

proof fn lemma_given_partials(st: Progress, ps: Seq<Partial>, k: int)
    requires
        pool_ok(st.free),
        k <= ps.len(),
    ensures
        pool_ok(st.given_partials(ps, k).free),
        st.given_partials(ps, k).insts == st.insts,
        forall|x: Reg| #[trigger]
            st.given_partials(ps, k).free.contains(x) ==> st.free.contains(x) || exists|j: int|
                0 <= j < k && #[trigger] ps[j] == Partial::Reg(x),
    decreases k,
{
    if k > 0 {
        lemma_given_partials(st, ps, k - 1);
        if let Partial::Reg(r) = ps[k - 1] {
            lemma_given(st.given_partials(ps, k - 1), r);
        }
    }
}

/// Only registers of the jet become free.
proof fn lemma_given_jet(st: Progress, jet: JetModel)
    requires
        pool_ok(st.free),
    ensures
        pool_ok(st.given_jet(jet).free),
        st.given_jet(jet).insts == st.insts,
        forall|x: Reg| #[trigger]
            st.given_jet(jet).free.contains(x) ==> st.free.contains(x) || (x == jet.val && x.0 >= 4)
                || exists|j: int| 0 <= j < jet.partials.len() && #[trigger] jet.partials[j]
                == Partial::Reg(x),
{
    lemma_given(st, jet.val);
    lemma_given_partials(st.given(jet.val), jet.partials, jet.partials.len() as int);
}

/// One partial: its instructions combine the operands' derivatives.
proof fn lemma_partial(
    alg: Algebra,
    m: Machine,
    rule: Rule,
    l: JetModel,
    r: JetModel,
    j: int,
    st: Progress,
    dx: Option<int>,
    dy: Option<int>,
)
    requires
        pool_ok(st.free),
        0 <= j < l.partials.len(),
        0 <= j < r.partials.len(),
        in_use(st.free, l.val),
        in_use(st.free, r.val),
        partials_in_use(l.partials, st.free),
        partials_in_use(r.partials, st.free),
        holds(at(alg, m, st), l.partials[j], dx),
        holds(at(alg, m, st), r.partials[j], dy),
        partial_of(rule, l, r, j, st) is Done,
    ensures
        ({
            let (p, after) = partial_of(rule, l, r, j, st)->Done_0;
            let m0 = at(alg, m, st);
            let m1 = at(alg, m, after);
            &&& fair(alg, m, st, after)
            &&& holds(
                m1,
                p,
                alg.combined(rule, m0.regs[l.val], dx, m0.regs[r.val], dy, m0.regs[jet_scratch()]),
            )
            &&& p matches Partial::Reg(d) ==> in_use(after.free, d) && st.free.contains(d)
            &&& rule is Scaled ==> m1.regs[jet_scratch()] == m0.regs[jet_scratch()]
        }),
{
    let (p, after) = partial_of(rule, l, r, j, st)->Done_0;
    let m0 = at(alg, m, st);
    let a = l.partials[j];
    let b = match rule {
        Rule::Negated | Rule::Scaled => Partial::Zero,
        _ => r.partials[j],
    };
    if !(a is Zero && b is Zero) {
        lemma_taken(st);
        let d = st.free.last();
        let s1 = st.taken();
        assert(s1.insts == st.insts);
        let is = after.insts;
        let i0 = st.insts;
        assert(in_use(st.free, l.val) && in_use(st.free, r.val));
        assert(4 <= d.0 <= 11);
        match (a, b) {
            (Partial::Reg(ra), Partial::Zero) => {
                assert(in_use(st.free, ra));
                match rule {
                    Rule::Negated => {
                        lemma_insts_push(alg, m, i0, negation(d, ra));
                    },
                    Rule::Scaled => {
                        let i1 = Inst::Copy(d, ra);
                        lemma_insts_push(alg, m, i0, i1);
                        lemma_insts_push(
                            alg,
                            m,
                            i0.push(i1),
                            Inst::Binary(OpKind::Mul, d, d, jet_scratch()),
                        );
                    },
                    Rule::Summed(_) => {
                        lemma_insts_push(alg, m, i0, Inst::Copy(d, ra));
                    },
                    Rule::Product => {
                        let i1 = Inst::Copy(d, ra);
                        lemma_insts_push(alg, m, i0, i1);
                        lemma_insts_push(
                            alg,
                            m,
                            i0.push(i1),
                            Inst::Binary(OpKind::Mul, d, d, r.val),
                        );
                    },
                }
            },
            (Partial::Zero, Partial::Reg(rb)) => {
                assert(in_use(st.free, rb));
                match rule {
                    Rule::Summed(sub) => {
                        let i1 = Inst::Copy(d, rb);
                        lemma_insts_push(alg, m, i0, i1);
                        lemma_insts_push(alg, m, i0.push(i1), negation(d, d));
                    },
                    _ => {
                        let i1 = Inst::Copy(d, l.val);
                        lemma_insts_push(alg, m, i0, i1);
                        lemma_insts_push(alg, m, i0.push(i1), Inst::Binary(OpKind::Mul, d, d, rb));
                    },
                }
            },
            (Partial::Reg(ra), Partial::Reg(rb)) => {
                assert(in_use(st.free, ra));
                assert(in_use(st.free, rb));
                match rule {
                    Rule::Summed(sub) => {
                        let op = if sub {
                            OpKind::Sub
                        } else {
                            OpKind::Add
                        };
                        let i1 = Inst::Copy(d, ra);
                        lemma_insts_push(alg, m, i0, i1);
                        lemma_insts_push(alg, m, i0.push(i1), Inst::Binary(op, d, d, rb));
                    },
                    _ => {
                        let x = jet_scratch();
                        let i1 = Inst::Copy(d, l.val);
                        let i2 = Inst::Binary(OpKind::Mul, d, d, rb);
                        let i3 = Inst::Copy(x, ra);
                        let i4 = Inst::Binary(OpKind::Mul, x, x, r.val);
                        let i5 = Inst::Binary(OpKind::Add, d, d, x);
                        lemma_insts_push(alg, m, i0, i1);
                        lemma_insts_push(alg, m, i0.push(i1), i2);
                        lemma_insts_push(alg, m, i0.push(i1).push(i2), i3);
                        lemma_insts_push(alg, m, i0.push(i1).push(i2).push(i3), i4);
                        lemma_insts_push(alg, m, i0.push(i1).push(i2).push(i3).push(i4), i5);
                    },
                }
            },
            _ => {},
        }
    }
}

/// What the first `k` partials under a rule hold.
proof fn lemma_partials(
    alg: Algebra,
    m: Machine,
    rule: Rule,
    l: JetModel,
    r: JetModel,
    k: int,
    st: Progress,
    dx: spec_fn(int) -> Option<int>,
    dy: spec_fn(int) -> Option<int>,
)
    requires
        pool_ok(st.free),
        0 <= k <= l.partials.len(),
        k <= r.partials.len(),
        in_use(st.free, l.val),
        in_use(st.free, r.val),
        partials_in_use(l.partials, st.free),
        partials_in_use(r.partials, st.free),
        forall|j: int| 0 <= j < k ==> holds(at(alg, m, st), #[trigger] l.partials[j], dx(j)),
        forall|j: int| 0 <= j < k ==> holds(at(alg, m, st), #[trigger] r.partials[j], dy(j)),
        partials_of(rule, l, r, k, st) is Done,
    ensures
        ({
            let (ps, after) = partials_of(rule, l, r, k, st)->Done_0;
            let m0 = at(alg, m, st);
            let m1 = at(alg, m, after);
            &&& fair(alg, m, st, after)
            &&& ps.len() == k
            &&& forall|j: int|
                0 <= j < k ==> holds(
                    m1,
                    #[trigger] ps[j],
                    alg.combined(
                        rule,
                        m0.regs[l.val],
                        dx(j),
                        m0.regs[r.val],
                        dy(j),
                        m0.regs[jet_scratch()],
                    ),
                )
            &&& partials_in_use(ps, after.free)
            &&& partials_among(ps, st.free)
            &&& rule is Scaled ==> m1.regs[jet_scratch()] == m0.regs[jet_scratch()]
        }),
    decreases k,
{
    if k > 0 {
        lemma_partials(alg, m, rule, l, r, k - 1, st, dx, dy);
        let (ps, mid) = partials_of(rule, l, r, k - 1, st)->Done_0;
        let m0 = at(alg, m, st);
        let m1 = at(alg, m, mid);
        assert(holds(m0, l.partials[k - 1], dx(k - 1)));
        assert(holds(m0, r.partials[k - 1], dy(k - 1)));
        assert(partials_in_use(l.partials, mid.free)) by {
            assert forall|j: int| 0 <= j < l.partials.len() implies (#[trigger] l.partials[j] matches Partial::Reg(x)
                ==> in_use(mid.free, x)) by {}
        }
        assert(partials_in_use(r.partials, mid.free)) by {
            assert forall|j: int| 0 <= j < r.partials.len() implies (#[trigger] r.partials[j] matches Partial::Reg(x)
                ==> in_use(mid.free, x)) by {}
        }
        assert(m1.regs[l.val] == m0.regs[l.val] && m1.regs[r.val] == m0.regs[r.val]);
        lemma_partial(alg, m, rule, l, r, k - 1, mid, dx(k - 1), dy(k - 1));
        let (p, after) = partial_of(rule, l, r, k - 1, mid)->Done_0;
        let m2 = at(alg, m, after);
        let all = ps.push(p);
        assert forall|j: int| 0 <= j < k implies holds(
            m2,
            #[trigger] all[j],
            alg.combined(
                rule,
                m0.regs[l.val],
                dx(j),
                m0.regs[r.val],
                dy(j),
                m0.regs[jet_scratch()],
            ),
        ) by {
            if j < k - 1 {
                assert(all[j] == ps[j]);
                if let Partial::Reg(x) = ps[j] {
                    assert(in_use(mid.free, x));
                    assert(m2.regs[x] == m1.regs[x]);
                }
            }
        }
        assert forall|j: int| 0 <= j < k implies (#[trigger] all[j] matches Partial::Reg(x)
            ==> in_use(after.free, x) && st.free.contains(x)) by {
            if j < k - 1 {
                assert(all[j] == ps[j]);
            }
        }
        assert(kept(st.free, m0, m2)) by {
            assert forall|x: Reg| in_use(st.free, x) implies #[trigger] m2.regs[x] == m0.regs[x] by {
                assert(in_use(mid.free, x));
                assert(m1.regs[x] == m0.regs[x]);
            }
        }
    } else {
        assert(kept(st.free, at(alg, m, st), at(alg, m, st)));
    }
}

/// What the first `k` partials of a variable hold.
proof fn lemma_seeds(alg: Algebra, m: Machine, i: u8, seed: Seq<u8>, k: int, st: Progress)
    requires
        pool_ok(st.free),
        0 <= k <= seed.len(),
        seeds_of(i, seed, k, st) is Done,
    ensures
        ({
            let (ps, after) = seeds_of(i, seed, k, st)->Done_0;
            &&& fair(alg, m, st, after)
            &&& ps.len() == k
            &&& forall|j: int|
                0 <= j < k ==> holds(
                    at(alg, m, after),
                    #[trigger] ps[j],
                    if i == seed[j] {
                        Some((alg.constant)(0x3F800000))
                    } else {
                        None
                    },
                )
            &&& partials_in_use(ps, after.free)
            &&& partials_among(ps, st.free)
        }),
    decreases k,
{
    if k > 0 {
        lemma_seeds(alg, m, i, seed, k - 1, st);
        let (ps, mid) = seeds_of(i, seed, k - 1, st)->Done_0;
        let (all, after) = seeds_of(i, seed, k, st)->Done_0;
        let m0 = at(alg, m, st);
        let m1 = at(alg, m, mid);
        let m2 = at(alg, m, after);
        if seed[k - 1] == i {
            lemma_taken(mid);
            lemma_insts_push(alg, m, mid.insts, Inst::Load(mid.free.last(), 0x3F800000));
        }
        assert forall|x: Reg| in_use(mid.free, x) implies #[trigger] m2.regs[x] == m1.regs[x] by {}
        assert forall|j: int| 0 <= j < k - 1 implies all[j] == #[trigger] ps[j] && (
        ps[j] matches Partial::Reg(x) ==> m2.regs[x] == m1.regs[x] && in_use(after.free, x)
            && st.free.contains(x)) by {
            if let Partial::Reg(x) = ps[j] {
                assert(in_use(mid.free, x));
            }
        }
        assert forall|j: int| 0 <= j < k implies holds(
            m2,
            #[trigger] all[j],
            if i == seed[j] {
                Some((alg.constant)(0x3F800000))
            } else {
                None
            },
        ) by {
            if j < k - 1 {
                assert(all[j] == ps[j]);
            }
        }
        assert forall|j: int| 0 <= j < k implies (#[trigger] all[j] matches Partial::Reg(x)
            ==> in_use(after.free, x) && st.free.contains(x)) by {
            if j < k - 1 {
                assert(all[j] == ps[j]);
            }
        }
        assert(kept(st.free, m0, m2)) by {
            assert forall|x: Reg| in_use(st.free, x) implies #[trigger] m2.regs[x] == m0.regs[x] by {
                assert(in_use(mid.free, x));
                assert(m1.regs[x] == m0.regs[x]);
            }
        }
    } else {
        assert(kept(st.free, at(alg, m, st), at(alg, m, st)));
    }
}

/// The jet's registers are in use, and each was an input register or free before.
pub open spec fn placed(jet: JetModel, before: Seq<Reg>, after: Seq<Reg>) -> bool {
    &&& in_use(after, jet.val)
    &&& jet.val.0 < 4 || before.contains(jet.val)
    &&& partials_in_use(jet.partials, after)
    &&& partials_among(jet.partials, before)
}

/// Giving back the registers of an operand: none of the result's is among them.
proof fn lemma_give_operand(
    alg: Algebra,
    m: Machine,
    before: Progress,
    st: Progress,
    operand: JetModel,
    jet: JetModel,
    taken_from: Seq<Reg>,
)
    requires
        pool_ok(before.free),
        fair(alg, m, before, st),
        operand.val.0 < 4 || before.free.contains(operand.val),
        partials_among(operand.partials, before.free),
        in_use(taken_from, operand.val),
        partials_in_use(operand.partials, taken_from),
        in_use(st.free, jet.val),
        taken_from.contains(jet.val),
        partials_in_use(jet.partials, st.free),
        partials_among(jet.partials, taken_from),
    ensures
        fair(alg, m, before, st.given_jet(operand)),
        st.given_jet(operand).insts == st.insts,
        in_use(st.given_jet(operand).free, jet.val),
        partials_in_use(jet.partials, st.given_jet(operand).free),
{
    lemma_given_jet(st, operand);
    let f = st.given_jet(operand).free;
    assert forall|x: Reg| #[trigger] f.contains(x) implies before.free.contains(x) by {}
    assert forall|x: Reg| taken_from.contains(x) && in_use(st.free, x) implies #[trigger] in_use(f, x) by {
        if f.contains(x) {
            assert(x != operand.val);
        }
    }
    assert forall|j: int| 0 <= j < jet.partials.len() implies (#[trigger] jet.partials[j] matches Partial::Reg(x)
        ==> in_use(f, x)) by {
        if let Partial::Reg(x) = jet.partials[j] {
            assert(taken_from.contains(x) && in_use(st.free, x));
        }
    }
}

/// A jet's code differentiates: with the inputs in their registers, it leaves the
/// value of the expression in the register of the value, and the derivative with
/// respect to each seeded variable in the register of that partial. A partial
/// without register is a derivative that is zero whatever the inputs. No register
/// in use is changed, and registers free afterwards were free before.
pub proof fn jets_differentiate(
    alg: Algebra,
    m: Machine,
    t: Term,
    seed: Seq<u8>,
    st: Progress,
    inputs: spec_fn(u8) -> int,
)
    requires
        pool_ok(st.free),
        inputs_in(at(alg, m, st), inputs),
        jet_of(t, seed, st) is Done,
    ensures
        ({
            let (jet, after) = jet_of(t, seed, st)->Done_0;
            &&& jet_holds(alg, at(alg, m, after), jet, t, seed, inputs)
            &&& placed(jet, st.free, after.free)
            &&& fair(alg, m, st, after)
        }),
    decreases t, 1nat,
{
    let n = seed.len() as int;
    let (jet, after) = jet_of(t, seed, st)->Done_0;
    let m0 = at(alg, m, st);
    match t.head {
        Head::Var(i) => {
            lemma_seeds(alg, m, i, seed, n, st);
            assert(in_use(st.free, Reg(i)));
            assert(m0.regs[Reg(i)] == inputs(i));
            assert(at(alg, m, after).regs[Reg(i)] == m0.regs[Reg(i)]);
        },
        Head::Const(bits) => {
            lemma_taken(st);
            lemma_insts_push(alg, m, st.insts, Inst::Load(st.free.last(), bits));
        },
        Head::Unary(op) => {
            lemma_unary(alg, m, t, seed, st, inputs);
        },
        Head::Binary(op) => {
            lemma_binary(alg, m, t, seed, st, inputs);
        },
        _ => {},
    }
}

proof fn lemma_unary(
    alg: Algebra,
    m: Machine,
    t: Term,
    seed: Seq<u8>,
    st: Progress,
    inputs: spec_fn(u8) -> int,
)
    requires
        pool_ok(st.free),
        inputs_in(at(alg, m, st), inputs),
        jet_of(t, seed, st) is Done,
        t.head is Unary,
    ensures
        ({
            let (jet, after) = jet_of(t, seed, st)->Done_0;
            &&& jet_holds(alg, at(alg, m, after), jet, t, seed, inputs)
            &&& placed(jet, st.free, after.free)
            &&& fair(alg, m, st, after)
        }),
    decreases t, 0nat,
{
    let n = seed.len() as int;
    let (jet, after) = jet_of(t, seed, st)->Done_0;
    let m0 = at(alg, m, st);
    let op = t.head->Unary_0;
    let kid = t.kids[0];
    jets_differentiate(alg, m, kid, seed, st, inputs);
    let (c, s1) = jet_of(kid, seed, st)->Done_0;
    let m1 = at(alg, m, s1);
    let val = s1.free.last();
    let (rule, next) = unary_rule(op, val, c.val, s1)->0;
    let i1 = Inst::Unary(op, val, c.val, jet_unary_scratch());
    lemma_taken(s1);
    lemma_insts_push(alg, m, s1.insts, i1);
    if op is Sqrt {
        let i2 = Inst::Load(jet_scratch(), 0x3F000000);
        let i3 = Inst::Binary(OpKind::Div, jet_scratch(), jet_scratch(), val);
        lemma_insts_push(alg, m, s1.insts.push(i1), i2);
        lemma_insts_push(alg, m, s1.insts.push(i1).push(i2), i3);
    }
    let m2 = at(alg, m, next);
    assert(m2.regs[val] == alg.value(t, inputs));
    assert(kept(s1.free, m1, m2));
    assert(in_use(next.free, c.val));
    assert(partials_in_use(c.partials, next.free));
    assert(fair(alg, m, st, next)) by {
        assert forall|x: Reg| in_use(st.free, x) implies #[trigger] m2.regs[x] == m0.regs[x] by {
            assert(in_use(s1.free, x));
            assert(m1.regs[x] == m0.regs[x]);
        }
    }
    match rule {
        None => {
            lemma_give_operand(alg, m, st, next, c, jet, s1.free);
        },
        Some(rule) => {
            let d = |j: int| alg.derivative(kid, seed[j], inputs);
            assert forall|j: int| 0 <= j < n implies holds(m2, #[trigger] c.partials[j], d(j)) by {
                assert(holds(m1, c.partials[j], alg.derivative(kid, seed[j], inputs)));
                if let Partial::Reg(x) = c.partials[j] {
                    assert(in_use(s1.free, x));
                }
            }
            lemma_partials(alg, m, rule, c, c, n, next, d, d);
            let (ps, s3) = partials_of(rule, c, c, n, next)->Done_0;
            let m3 = at(alg, m, s3);
            assert(in_use(next.free, val));
            assert(m3.regs[val] == m2.regs[val]);
            assert(fair(alg, m, st, s3)) by {
                assert forall|x: Reg| in_use(st.free, x) implies #[trigger] m3.regs[x] == m0.regs[x] by {
                    assert(in_use(next.free, x));
                    assert(m2.regs[x] == m0.regs[x]);
                }
            }
            assert(partials_among(ps, s1.free));
            lemma_give_operand(alg, m, st, s3, c, jet, s1.free);
            assert forall|j: int| 0 <= j < n implies holds(
                m3,
                #[trigger] jet.partials[j],
                alg.derivative(t, seed[j], inputs),
            ) by {
                assert(jet.partials[j] == ps[j]);
                assert(d(j) == alg.derivative(kid, seed[j], inputs));
            }
        },
    }
}

proof fn lemma_binary(
    alg: Algebra,
    m: Machine,
    t: Term,
    seed: Seq<u8>,
    st: Progress,
    inputs: spec_fn(u8) -> int,
)
    requires
        pool_ok(st.free),
        inputs_in(at(alg, m, st), inputs),
        jet_of(t, seed, st) is Done,
        t.head is Binary,
    ensures
        ({
            let (jet, after) = jet_of(t, seed, st)->Done_0;
            &&& jet_holds(alg, at(alg, m, after), jet, t, seed, inputs)
            &&& placed(jet, st.free, after.free)
            &&& fair(alg, m, st, after)
        }),
    decreases t, 0nat,
{
    let n = seed.len() as int;
    let (jet, after) = jet_of(t, seed, st)->Done_0;
    let m0 = at(alg, m, st);
    let op = t.head->Binary_0;
    let left = t.kids[0];
    let right = t.kids[1];
    jets_differentiate(alg, m, left, seed, st, inputs);
    let (l, s1) = jet_of(left, seed, st)->Done_0;
    let m1 = at(alg, m, s1);
    assert forall|i: u8| i < 4 implies #[trigger] m1.regs[Reg(i)] == inputs(i) by {
        assert(in_use(st.free, Reg(i)));
        assert(m0.regs[Reg(i)] == inputs(i));
    }
    jets_differentiate(alg, m, right, seed, s1, inputs);
    let (r, s2) = jet_of(right, seed, s1)->Done_0;
    let m2 = at(alg, m, s2);
    let val = s2.free.last();
    let rule = binary_rule(op)->0;
    let i1 = Inst::Copy(val, l.val);
    let i2 = Inst::Binary(op, val, val, r.val);
    let next = s2.taken().then_inst(i1).then_inst(i2);
    lemma_taken(s2);
    lemma_insts_push(alg, m, s2.insts, i1);
    lemma_insts_push(alg, m, s2.insts.push(i1), i2);
    let m3 = at(alg, m, next);
    assert(in_use(s2.free, l.val));
    assert(m2.regs[l.val] == m1.regs[l.val]);
    assert(m3.regs[val] == alg.value(t, inputs));
    assert(kept(s2.free, m2, m3));
    assert(in_use(next.free, l.val) && in_use(next.free, r.val));
    assert forall|x: Reg| in_use(s1.free, x) implies #[trigger] m3.regs[x] == m1.regs[x] && in_use(
        s2.free,
        x,
    ) && in_use(next.free, x) by {
        assert(in_use(s2.free, x));
        assert(m2.regs[x] == m1.regs[x]);
    }
    assert(partials_in_use(l.partials, s2.free)) by {
        assert forall|j: int| 0 <= j < n implies (#[trigger] l.partials[j] matches Partial::Reg(x)
            ==> in_use(s2.free, x)) by {
            if let Partial::Reg(x) = l.partials[j] {
                assert(in_use(s1.free, x));
                assert(m3.regs[x] == m1.regs[x]);
            }
        }
    }
    assert(partials_in_use(l.partials, next.free));
    assert(partials_in_use(r.partials, next.free));
    let dx = |j: int| alg.derivative(left, seed[j], inputs);
    let dy = |j: int| alg.derivative(right, seed[j], inputs);
    assert forall|j: int| 0 <= j < n implies holds(m3, #[trigger] l.partials[j], dx(j)) by {
        assert(holds(m1, l.partials[j], alg.derivative(left, seed[j], inputs)));
        if let Partial::Reg(x) = l.partials[j] {
            assert(in_use(s1.free, x));
        }
    }
    assert forall|j: int| 0 <= j < n implies holds(m3, #[trigger] r.partials[j], dy(j)) by {
        assert(holds(m2, r.partials[j], alg.derivative(right, seed[j], inputs)));
        if let Partial::Reg(x) = r.partials[j] {
            assert(in_use(s2.free, x));
        }
    }
    lemma_partials(alg, m, rule, l, r, n, next, dx, dy);
    let (ps, s4) = partials_of(rule, l, r, n, next)->Done_0;
    let m4 = at(alg, m, s4);
    assert(in_use(next.free, val));
    assert(m4.regs[val] == m3.regs[val]);
    assert(fair(alg, m, st, s4)) by {
        assert forall|x: Reg| in_use(st.free, x) implies #[trigger] m4.regs[x] == m0.regs[x] by {
            assert(in_use(s1.free, x));
            assert(m1.regs[x] == m0.regs[x]);
            assert(m3.regs[x] == m1.regs[x]);
            assert(in_use(next.free, x));
        }
    }
    assert(partials_among(ps, s2.free));
    lemma_give_operand(alg, m, st, s4, l, jet, s2.free);
    let s5 = s4.given_jet(l);
    assert(at(alg, m, s5) == m4);
    lemma_give_operand(alg, m, st, s5, r, jet, s2.free);
    assert forall|j: int| 0 <= j < n implies holds(
        m4,
        #[trigger] jet.partials[j],
        alg.derivative(t, seed[j], inputs),
    ) by {
        assert(jet.partials[j] == ps[j]);
        assert(dx(j) == alg.derivative(left, seed[j], inputs));
        assert(dy(j) == alg.derivative(right, seed[j], inputs));
    }
}

/// A kernel's jet differentiates: with the inputs in their registers, its
/// instructions leave the value of the expression and its derivatives in the
/// registers of the jet.
pub proof fn jet_kernels_differentiate(
    alg: Algebra,
    m: Machine,
    t: Term,
    seed: Seq<u8>,
    inputs: spec_fn(u8) -> int,
)
    requires
        inputs_in(m, inputs),
        jet_of(t, seed, fresh()) is Done,
    ensures
        ({
            let (jet, after) = jet_of(t, seed, fresh())->Done_0;
            jet_holds(alg, alg.insts(m, after.insts), jet, t, seed, inputs)
        }),
{
    let f = fresh().free;
    assert forall|i: int, j: int| 0 <= i < f.len() && 0 <= j < f.len() && i != j implies f[i]
        != f[j] by {}
    assert(at(alg, m, fresh()) == m);
    jets_differentiate(alg, m, t, seed, fresh(), inputs);
}

/// The derivative with respect to a variable that an expression does not mention
/// is zero whatever the inputs.
pub proof fn unmentioned_variables_have_no_derivative(
    alg: Algebra,
    t: Term,
    v: u8,
    inputs: spec_fn(u8) -> int,
)
    requires
        !mentions(t, v),
    ensures
        alg.derivative(t, v, inputs) is None,
    decreases t,
{
    assert forall|j: int| 0 <= j < t.kids.len() implies alg.derivative(
        #[trigger] t.kids[j],
        v,
        inputs,
    ) is None by {
        assert(!mentions(t.kids[j], v));
        unmentioned_variables_have_no_derivative(alg, t.kids[j], v, inputs);
    }
}

} // verus!
