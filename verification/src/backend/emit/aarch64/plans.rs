//! The NEON code of a plan does what the plan does.

use crate::arena::model::ArenaModel;
use crate::arena::ExprId;
use crate::backend::emit::aarch64::effects::{
    binary_code_computes, computes, const_code_computes, fma_code_computes, hypot_code_computes,
    load_code_computes, mov_code_computes, pool_loaded, select_code_computes, sets,
    shift_code_computes, store_code_computes, unary_code_computes,
};
use crate::backend::emit::aarch64::model::{does, lemma_does, lemma_idle, Cpu};
use crate::backend::emit::aarch64::ops;
use crate::backend::emit::driver::meaning::{plans_evaluate_the_expression, ran, runnable};
use crate::backend::emit::driver::{input_places, places_of, plan_at, short_ops, turn, walk, Job, Walk};
use crate::backend::emit::isa::neon::neon_scratch;
use crate::backend::emit::isa::{
    late_code, main_code, plan_code, plan_slots, reload_code, slot, Aarch64Backend, IsaBackend,
};
use crate::backend::emit::kernels::tree::inputs_in;
use crate::backend::emit::lane::{Dialect, Lanes};
use crate::backend::emit::plan::meaning::{Algebra, Machine};
use crate::backend::emit::plan::{DeferredReload, Plan, Reload, ResolvedOp};
use crate::backend::emit::pool::pool_ok;
use crate::backend::emit::schedule::{schedulable, schedule_of};
use crate::backend::emit::Reg;
use crate::kind::OpKind;
use vstd::prelude::*;

verus! {

/// What the operations compute on a machine with such lanes.
pub open spec fn neon_algebra(l: Lanes<int>) -> Algebra {
    Algebra {
        constant: l.constant,
        unary: |op: OpKind, x: int| l.unary(Dialect::Neon, op, x),
        shift: |op: OpKind, x: int, n: u8|
            if op is Shl {
                (l.shl)(x, n)
            } else {
                (l.shr)(x, n)
            },
        binary: |op: OpKind, x: int, y: int| l.binary(Dialect::Neon, op, x, y),
        fused: l.fused,
        select: l.select,
    }
}

/// A vector register that no operation uses for itself.
pub open spec fn usable(r: Reg) -> bool {
    r.0 < 28
}

/// The registers and the stack hold the same on both machines.
pub open spec fn agrees(m: Machine, s: Cpu<int>) -> bool {
    &&& forall|r: u8| r < 28 ==> #[trigger] s.v[r as u32] == m.regs[Reg(r)]
    &&& forall|o: u32| slot(o) ==> s.mem[s.x[31] + o] == #[trigger] m.stack[o]
}

/// The constants are in memory, away from the stack.
pub open spec fn ready(l: Lanes<int>, s: Cpu<int>, pool: Seq<u32>) -> bool {
    &&& pool_ok(pool)
    &&& pool_loaded(l, s, pool)
    &&& forall|o: u32, i: int|
        slot(o) && 0 <= i < pool.len() ==> #[trigger] apart(s.x[31], s.x[17], o, i)
}

/// A slot of the stack is not the place of a constant.
pub open spec fn apart(sp: int, base: int, o: u32, i: int) -> bool {
    sp + o != base + 16 * i
}

/// The code that was appended takes the machine to one that agrees with `m`.
pub open spec fn runs(
    l: Lanes<int>,
    a: Seq<u8>,
    b: Seq<u8>,
    pool: Seq<u32>,
    s: Cpu<int>,
    m: Machine,
) -> bool {
    exists|t: Cpu<int>| #[trigger] does(l, a, b, s, t) && agrees(m, t) && ready(l, t, pool)
}

/// The instruction's registers are usable, and none that it writes early is read late.
pub open spec fn op_ready(op: ResolvedOp) -> bool {
    match op {
        ResolvedOp::Nop => true,
        ResolvedOp::LoadConst { dst, .. } => usable(dst),
        ResolvedOp::Unary { op, dst, src } => usable(dst) && usable(src) && (op is Recip
            || op is Rsqrt ==> dst != src),
        ResolvedOp::ShiftImm { op, dst, src, amount } => usable(dst) && usable(src) && amount < 32
            && (op is Shl || op is Shr) && (op is Shr ==> 1 <= amount),
        ResolvedOp::Binary { op, dst, left, right } => usable(dst) && usable(left) && usable(right)
            && !(op is Pow) && !(op is Atan2) && Aarch64Backend::binary_ok(op) && (op is Hypot ==> dst
            != right),
        ResolvedOp::FusedMulAdd { dst, a, b } => usable(dst) && usable(a) && usable(b),
        ResolvedOp::DecomposedMulAdd { dst, a, b, c, .. } => usable(dst) && usable(a) && usable(b)
            && usable(c),
        ResolvedOp::Select { dst, if_true, if_false } => usable(dst) && usable(if_true) && usable(
            if_false,
        ),
        ResolvedOp::Clamp { dst, val, lo, hi, .. } => usable(dst) && usable(val) && usable(lo)
            && usable(hi),
    }
}

/// The register that a load fills.
pub open spec fn reload_target(r: Reload) -> Reg {
    match r {
        Reload::FromStack { target, .. } => target,
        Reload::Const { target, .. } => target,
    }
}

/// The plan's registers are usable, and its stack slots are slots of a frame.
pub open spec fn plan_ready(p: Plan) -> bool {
    &&& plan_slots(p)
    &&& forall|i: int| 0 <= i < p.reloads.len() ==> usable(reload_target(#[trigger] p.reloads[i]))
    &&& p.setup_mov matches Some(c) ==> usable(c.0) && usable(c.1)
    &&& op_ready(p.op)
    &&& p.store matches Some(s) ==> usable(s.src)
}

/// Code that computes one register.
proof fn lemma_runs(
    l: Lanes<int>,
    a: Seq<u8>,
    b: Seq<u8>,
    pool: Seq<u32>,
    s: Cpu<int>,
    m: Machine,
    d: Reg,
    y: int,
    scratch: Seq<Reg>,
)
    requires
        computes(l, a, b, s, d, y, scratch),
        usable(d),
        forall|r: u8| r < 28 ==> !(#[trigger] scratch.contains(Reg(r))),
        agrees(m, s),
        ready(l, s, pool),
    ensures
        runs(l, a, b, pool, s, m.with_reg(d, y)),
{
    let t = choose|t: Cpu<int>| #[trigger] does(l, a, b, s, t) && sets(s, t, d, y, scratch);
    let n = m.with_reg(d, y);
    assert(t.x[31] == s.x[31] && t.x[17] == s.x[17]);
    assert forall|r: u8| r < 28 implies #[trigger] t.v[r as u32] == n.regs[Reg(r)] by {
        if Reg(r) != d {
            assert(s.v[r as u32] == m.regs[Reg(r)]);
        }
    }
    assert forall|o: u32| slot(o) implies t.mem[t.x[31] + o] == #[trigger] n.stack[o] by {
        assert(m.stack[o] == s.mem[s.x[31] + o]);
    }
    assert(pool_loaded(l, t, pool));
    assert(ready(l, t, pool));
}

/// Code after code.
proof fn lemma_follows(
    l: Lanes<int>,
    a: Seq<u8>,
    b: Seq<u8>,
    c: Seq<u8>,
    pool: Seq<u32>,
    s: Cpu<int>,
    t: Cpu<int>,
    m: Machine,
)
    requires
        does(l, a, b, s, t),
        runs(l, b, c, pool, t, m),
    ensures
        runs(l, a, c, pool, s, m),
{
    let u = choose|u: Cpu<int>| #[trigger] does(l, b, c, t, u) && agrees(m, u) && ready(l, u, pool);
    lemma_does(l, a, b, c, s, t, u);
}

proof fn lemma_stack_load(
    l: Lanes<int>,
    code: Seq<u8>,
    pool: Seq<u32>,
    target: Reg,
    offset: u32,
    m: Machine,
    s: Cpu<int>,
)
    requires
        usable(target),
        slot(offset),
        agrees(m, s),
        ready(l, s, pool),
    ensures
        runs(
            l,
            code,
            Aarch64Backend::load_code(code, target, offset),
            pool,
            s,
            m.with_reg(target, m.stack[offset]),
        ),
{
    load_code_computes(l, code, target, offset, s);
    assert(m.stack[offset] == s.mem[s.x[31] + offset]);
    lemma_runs(
        l,
        code,
        Aarch64Backend::load_code(code, target, offset),
        pool,
        s,
        m,
        target,
        m.stack[offset],
        Seq::empty(),
    );
}

proof fn lemma_constant(
    l: Lanes<int>,
    code: Seq<u8>,
    pool: Seq<u32>,
    target: Reg,
    bits: u32,
    m: Machine,
    s: Cpu<int>,
)
    requires
        usable(target),
        agrees(m, s),
        ready(l, s, pool),
    ensures
        runs(
            l,
            code,
            Aarch64Backend::const_code(code, pool, target, bits),
            pool,
            s,
            m.with_reg(target, (l.constant)(bits)),
        ),
{
    const_code_computes(l, code, pool, target, bits, s);
    lemma_runs(
        l,
        code,
        Aarch64Backend::const_code(code, pool, target, bits),
        pool,
        s,
        m,
        target,
        (l.constant)(bits),
        Seq::empty(),
    );
}

/// The machine after the first `k` loads.
spec fn after(alg: Algebra, m: Machine, rs: Seq<Reload>, k: int) -> Machine
    decreases k,
{
    if k <= 0 {
        m
    } else {
        alg.reload(after(alg, m, rs, k - 1), rs[k - 1])
    }
}

proof fn lemma_after(alg: Algebra, m: Machine, rs: Seq<Reload>, k: int)
    requires
        0 <= k <= rs.len(),
    ensures
        alg.reloads(after(alg, m, rs, k), rs, k) == alg.reloads(m, rs, 0),
    decreases k,
{
    if k > 0 {
        lemma_after(alg, m, rs, k - 1);
    }
}

proof fn lemma_reloads(
    l: Lanes<int>,
    code: Seq<u8>,
    pool: Seq<u32>,
    p: Plan,
    k: int,
    m: Machine,
    s: Cpu<int>,
)
    requires
        plan_ready(p),
        0 <= k <= p.reloads.len(),
        agrees(m, s),
        ready(l, s, pool),
    ensures
        reload_code::<Aarch64Backend>(code, pool, p.reloads, k) matches Ok(c) && runs(
            l,
            code,
            c,
            pool,
            s,
            after(neon_algebra(l), m, p.reloads, k),
        ),
    decreases k,
{
    if k == 0 {
        lemma_idle(l, code, s);
    } else {
        lemma_reloads(l, code, pool, p, k - 1, m, s);
        let b = reload_code::<Aarch64Backend>(code, pool, p.reloads, k - 1)->Ok_0;
        let n = after(neon_algebra(l), m, p.reloads, k - 1);
        let t = choose|t: Cpu<int>| #[trigger]
            does(l, code, b, s, t) && agrees(n, t) && ready(l, t, pool);
        let r = p.reloads[k - 1];
        assert(usable(reload_target(r)));
        match r {
            Reload::FromStack { target, offset } => {
                lemma_stack_load(l, b, pool, target, offset, n, t);
            },
            Reload::Const { target, val_bits } => {
                lemma_constant(l, b, pool, target, val_bits, n, t);
            },
        }
        let c = reload_code::<Aarch64Backend>(code, pool, p.reloads, k)->Ok_0;
        lemma_follows(l, code, b, c, pool, s, t, after(neon_algebra(l), m, p.reloads, k));
    }
}

proof fn lemma_arith(
    l: Lanes<int>,
    code: Seq<u8>,
    pool: Seq<u32>,
    op: OpKind,
    d: Reg,
    a: Reg,
    b: Reg,
    m: Machine,
    s: Cpu<int>,
)
    requires
        l.coherent(),
        ops::binary_code(code, op, d, a, b) is Some,
        usable(d),
        usable(a),
        usable(b),
        agrees(m, s),
        ready(l, s, pool),
    ensures
        runs(
            l,
            code,
            ops::binary_code(code, op, d, a, b)->0,
            pool,
            s,
            m.with_reg(d, l.binary(Dialect::Neon, op, m.regs[a], m.regs[b])),
        ),
{
    assert(s.v[a.0 as u32] == m.regs[a] && s.v[b.0 as u32] == m.regs[b]);
    binary_code_computes(l, code, op, d, a, b, s);
    lemma_runs(
        l,
        code,
        ops::binary_code(code, op, d, a, b)->0,
        pool,
        s,
        m,
        d,
        l.binary(Dialect::Neon, op, m.regs[a], m.regs[b]),
        Seq::empty(),
    );
}

proof fn lemma_late(
    l: Lanes<int>,
    code: Seq<u8>,
    pool: Seq<u32>,
    target: Reg,
    d: Option<DeferredReload>,
    m: Machine,
    s: Cpu<int>,
)
    requires
        usable(target),
        d matches Some(DeferredReload::FromStack(o)) ==> slot(o),
        agrees(m, s),
        ready(l, s, pool),
    ensures
        late_code::<Aarch64Backend>(code, pool, target, d) matches Ok(c) && runs(
            l,
            code,
            c,
            pool,
            s,
            neon_algebra(l).late(m, target, d),
        ),
{
    match d {
        None => {
            lemma_idle(l, code, s);
        },
        Some(DeferredReload::FromStack(offset)) => {
            lemma_stack_load(l, code, pool, target, offset, m, s);
        },
        Some(DeferredReload::Const(bits)) => {
            lemma_constant(l, code, pool, target, bits, m, s);
        },
    }
}

/// Two operations with a late load between them.
proof fn lemma_both(
    l: Lanes<int>,
    code: Seq<u8>,
    pool: Seq<u32>,
    one: OpKind,
    two: OpKind,
    d: Reg,
    a: Reg,
    b: Reg,
    c: Reg,
    late: Option<DeferredReload>,
    m: Machine,
    s: Cpu<int>,
)
    requires
        l.coherent(),
        one is Mul || one is Min,
        two is Add || two is Max,
        usable(d),
        usable(a),
        usable(b),
        usable(c),
        late matches Some(DeferredReload::FromStack(o)) ==> slot(o),
        agrees(m, s),
        ready(l, s, pool),
    ensures
        ({
            let alg = neon_algebra(l);
            let m1 = m.with_reg(d, (alg.binary)(one, m.regs[a], m.regs[b]));
            let m2 = alg.late(m1, c, late);
            let m3 = m2.with_reg(d, (alg.binary)(two, m2.regs[d], m2.regs[c]));
            late_code::<Aarch64Backend>(
                Aarch64Backend::arith_code(code, one, d, a, b),
                pool,
                c,
                late,
            ) matches Ok(e) && runs(
                l,
                code,
                Aarch64Backend::arith_code(e, two, d, d, c),
                pool,
                s,
                m3,
            )
        }),
{
    let alg = neon_algebra(l);
    let m1 = m.with_reg(d, (alg.binary)(one, m.regs[a], m.regs[b]));
    let m2 = alg.late(m1, c, late);
    let m3 = m2.with_reg(d, (alg.binary)(two, m2.regs[d], m2.regs[c]));
    let c1 = Aarch64Backend::arith_code(code, one, d, a, b);
    lemma_arith(l, code, pool, one, d, a, b, m, s);
    let t1 = choose|t: Cpu<int>| #[trigger]
        does(l, code, c1, s, t) && agrees(m1, t) && ready(l, t, pool);
    lemma_late(l, c1, pool, c, late, m1, t1);
    let c2 = late_code::<Aarch64Backend>(c1, pool, c, late)->Ok_0;
    let t2 = choose|t: Cpu<int>| #[trigger]
        does(l, c1, c2, t1, t) && agrees(m2, t) && ready(l, t, pool);
    lemma_arith(l, c2, pool, two, d, d, c, m2, t2);
    let c3 = Aarch64Backend::arith_code(c2, two, d, d, c);
    lemma_follows(l, c1, c2, c3, pool, t1, t2, m3);
    lemma_follows(l, code, c1, c3, pool, s, t1, m3);
}

/// The code of an instruction does what the instruction does.
proof fn lemma_main(
    l: Lanes<int>,
    code: Seq<u8>,
    pool: Seq<u32>,
    op: ResolvedOp,
    m: Machine,
    s: Cpu<int>,
)
    requires
        l.coherent(),
        op_ready(op),
        crate::backend::emit::isa::op_slots(op),
        main_code::<Aarch64Backend>(code, pool, op) is Ok,
        agrees(m, s),
        ready(l, s, pool),
    ensures
        main_code::<Aarch64Backend>(code, pool, op)->Ok_0.1 == pool,
        runs(
            l,
            code,
            main_code::<Aarch64Backend>(code, pool, op)->Ok_0.0,
            pool,
            s,
            neon_algebra(l).op(m, op),
        ),
{
    let c = main_code::<Aarch64Backend>(code, pool, op)->Ok_0.0;
    let alg = neon_algebra(l);
    match op {
        ResolvedOp::Nop => {
            lemma_idle(l, code, s);
        },
        ResolvedOp::LoadConst { dst, val_bits } => {
            lemma_constant(l, code, pool, dst, val_bits, m, s);
        },
        ResolvedOp::Unary { op, dst, src } => {
            let x = s.v[src.0 as u32];
            assert(x == m.regs[src]);
            let scratch = neon_scratch();
            unary_code_computes(l, code, op, dst, src, scratch, s);
            lemma_runs(
                l,
                code,
                c,
                pool,
                s,
                m,
                dst,
                l.unary(Dialect::Neon, op, x),
                seq![scratch[0]],
            );
        },
        ResolvedOp::ShiftImm { op, dst, src, amount } => {
            let x = s.v[src.0 as u32];
            assert(x == m.regs[src]);
            shift_code_computes(l, code, op, dst, src, amount, s);
            lemma_runs(l, code, c, pool, s, m, dst, (alg.shift)(op, x, amount), Seq::empty());
        },
        ResolvedOp::Binary { op, dst, left, right } => {
            if op is Hypot {
                assert(s.v[left.0 as u32] == m.regs[left] && s.v[right.0 as u32] == m.regs[right]);
                hypot_code_computes(l, code, dst, left, right, s);
                lemma_runs(
                    l,
                    code,
                    c,
                    pool,
                    s,
                    m,
                    dst,
                    l.binary(Dialect::Neon, op, m.regs[left], m.regs[right]),
                    Seq::empty(),
                );
            } else {
                lemma_arith(l, code, pool, op, dst, left, right, m, s);
            }
        },
        ResolvedOp::FusedMulAdd { dst, a, b } => {
            assert(s.v[a.0 as u32] == m.regs[a] && s.v[b.0 as u32] == m.regs[b]
                && s.v[dst.0 as u32] == m.regs[dst]);
            fma_code_computes(l, code, dst, a, b, s);
            lemma_runs(
                l,
                code,
                c,
                pool,
                s,
                m,
                dst,
                (l.fused)(m.regs[a], m.regs[b], m.regs[dst]),
                Seq::empty(),
            );
        },
        ResolvedOp::DecomposedMulAdd { dst, a, b, c, c_deferred } => {
            lemma_both(l, code, pool, OpKind::Mul, OpKind::Add, dst, a, b, c, c_deferred, m, s);
        },
        ResolvedOp::Select { dst, if_true, if_false } => {
            assert(s.v[if_true.0 as u32] == m.regs[if_true] && s.v[if_false.0 as u32]
                == m.regs[if_false] && s.v[dst.0 as u32] == m.regs[dst]);
            select_code_computes(l, code, dst, if_true, if_false, s);
            lemma_runs(
                l,
                code,
                c,
                pool,
                s,
                m,
                dst,
                (l.select)(m.regs[dst], m.regs[if_true], m.regs[if_false]),
                Seq::empty(),
            );
        },
        ResolvedOp::Clamp { dst, val, lo, hi, lo_deferred } => {
            lemma_both(l, code, pool, OpKind::Min, OpKind::Max, dst, val, hi, lo, lo_deferred, m, s);
        },
    }
}

proof fn lemma_store(
    l: Lanes<int>,
    code: Seq<u8>,
    pool: Seq<u32>,
    src: Reg,
    offset: u32,
    m: Machine,
    s: Cpu<int>,
)
    requires
        usable(src),
        slot(offset),
        agrees(m, s),
        ready(l, s, pool),
    ensures
        runs(
            l,
            code,
            Aarch64Backend::store_code(code, src, offset),
            pool,
            s,
            (Machine { stack: m.stack.insert(offset, m.regs[src]), ..m }),
        ),
{
    store_code_computes(l, code, src, offset, s);
    let out = Aarch64Backend::store_code(code, src, offset);
    let t = choose|t: Cpu<int>| #[trigger]
        does(l, code, out, s, t) && t.v == s.v && t.mem == s.mem.insert(
            s.x[31] + offset,
            s.v[src.0 as u32],
        ) && forall|r: u32| r != 16 ==> #[trigger] t.x[r] == s.x[r];
    let n = Machine { stack: m.stack.insert(offset, m.regs[src]), ..m };
    assert(t.x[31] == s.x[31] && t.x[17] == s.x[17]);
    assert(s.v[src.0 as u32] == m.regs[src]);
    assert forall|o: u32| slot(o) implies t.mem[t.x[31] + o] == #[trigger] n.stack[o] by {
        if o != offset {
            assert(m.stack[o] == s.mem[s.x[31] + o]);
        }
    }
    assert forall|i: int| 0 <= i < pool.len() implies t.mem[t.x[17] + 16 * i] == (l.constant)(
        #[trigger] pool[i],
    ) by {
        assert(apart(s.x[31], s.x[17], offset, i));
        assert(s.mem[s.x[17] + 16 * i] == (l.constant)(pool[i]));
    }
    assert(agrees(n, t));
    assert(ready(l, t, pool));
}

/// The code of a plan does what the plan does: on a machine whose registers and stack hold
/// what `m` holds, it ends with one whose registers and stack hold what the plan leaves.
pub proof fn the_code_of_a_plan_runs_the_plan(
    l: Lanes<int>,
    code: Seq<u8>,
    pool: Seq<u32>,
    p: Plan,
    m: Machine,
    s: Cpu<int>,
)
    requires
        l.coherent(),
        plan_ready(p),
        plan_code::<Aarch64Backend>(code, pool, p) is Ok,
        agrees(m, s),
        ready(l, s, pool),
    ensures
        plan_code::<Aarch64Backend>(code, pool, p)->Ok_0.1 == pool,
        runs(
            l,
            code,
            plan_code::<Aarch64Backend>(code, pool, p)->Ok_0.0,
            pool,
            s,
            neon_algebra(l).plan(m, p),
        ),
{
    let alg = neon_algebra(l);
    let k = p.reloads.len() as int;
    lemma_reloads(l, code, pool, p, k, m, s);
    lemma_after(alg, m, p.reloads, k);
    let c1 = reload_code::<Aarch64Backend>(code, pool, p.reloads, k)->Ok_0;
    let m1 = after(alg, m, p.reloads, k);
    assert(m1 == alg.reloads(m, p.reloads, 0));
    let t1 = choose|t: Cpu<int>| #[trigger]
        does(l, code, c1, s, t) && agrees(m1, t) && ready(l, t, pool);
    let c2 = match p.setup_mov {
        Some((dst, src)) => Aarch64Backend::mov_code(c1, dst, src),
        None => c1,
    };
    let m2 = match p.setup_mov {
        None => m1,
        Some((dst, src)) => m1.with_reg(dst, m1.regs[src]),
    };
    match p.setup_mov {
        Some((dst, src)) => {
            assert(t1.v[src.0 as u32] == m1.regs[src]);
            mov_code_computes(l, c1, dst, src, t1);
            lemma_runs(l, c1, c2, pool, t1, m1, dst, m1.regs[src], Seq::empty());
        },
        None => {
            lemma_idle(l, c1, t1);
        },
    }
    let t2 = choose|t: Cpu<int>| #[trigger]
        does(l, c1, c2, t1, t) && agrees(m2, t) && ready(l, t, pool);
    lemma_main(l, c2, pool, p.op, m2, t2);
    let c3 = main_code::<Aarch64Backend>(c2, pool, p.op)->Ok_0.0;
    let m3 = alg.op(m2, p.op);
    let t3 = choose|t: Cpu<int>| #[trigger]
        does(l, c2, c3, t2, t) && agrees(m3, t) && ready(l, t, pool);
    let c4 = plan_code::<Aarch64Backend>(code, pool, p)->Ok_0.0;
    let m4 = alg.plan(m, p);
    match p.store {
        None => {
            lemma_idle(l, c3, t3);
        },
        Some(w) => {
            lemma_store(l, c3, pool, w.src, w.offset, m3, t3);
        },
    }
    lemma_follows(l, c2, c3, c4, pool, t2, t3, m4);
    lemma_follows(l, c1, c2, c4, pool, t1, t2, m4);
    lemma_follows(l, code, c1, c4, pool, s, t1, m4);
}

/// The code of a schedule without guards runs the plans of its entries, one after the other.
pub proof fn the_code_of_a_schedule_runs_its_plans(
    l: Lanes<int>,
    job: Job,
    w: Walk,
    k: int,
    m: Machine,
    s: Cpu<int>,
)
    requires
        l.coherent(),
        job.guards.len() == 0,
        0 <= k,
        walk::<Aarch64Backend>(job, w, 0, k) is Ok,
        forall|i: int|
            0 <= i < k ==> ((#[trigger] plan_at::<Aarch64Backend>(job, i)) matches Ok(p)
                ==> plan_ready(p)),
        agrees(m, s),
        ready(l, s, w.pool),
    ensures
        walk::<Aarch64Backend>(job, w, 0, k)->Ok_0.pool == w.pool,
        runs(
            l,
            w.code,
            walk::<Aarch64Backend>(job, w, 0, k)->Ok_0.code,
            w.pool,
            s,
            ran(neon_algebra(l), m, job.sched, job.at, Aarch64Backend::reload_pair(), k),
        ),
    decreases k,
{
    if k == 0 {
        lemma_idle(l, w.code, s);
    } else {
        the_code_of_a_schedule_runs_its_plans(l, job, w, k - 1, m, s);
        let b = walk::<Aarch64Backend>(job, w, 0, k - 1)->Ok_0;
        let n = ran(neon_algebra(l), m, job.sched, job.at, Aarch64Backend::reload_pair(), k - 1);
        let t = choose|t: Cpu<int>| #[trigger]
            does(l, w.code, b.code, s, t) && agrees(n, t) && ready(l, t, w.pool);
        assert(turn::<Aarch64Backend>(job, b, k - 1) == b);
        assert(short_ops(job, k - 1) is None);
        let p = plan_at::<Aarch64Backend>(job, k - 1)->Ok_0;
        the_code_of_a_plan_runs_the_plan(l, b.code, b.pool, p, n, t);
        let c = walk::<Aarch64Backend>(job, w, 0, k)->Ok_0;
        lemma_follows(
            l,
            w.code,
            b.code,
            c.code,
            w.pool,
            s,
            t,
            ran(neon_algebra(l), m, job.sched, job.at, Aarch64Backend::reload_pair(), k),
        );
    }
}

/// The code of an expression without guards computes it: run with the inputs in their
/// registers, it leaves a value of the expression where the root lives.
pub proof fn the_code_of_an_expression_computes_it(
    l: Lanes<int>,
    m: ArenaModel,
    root: ExprId,
    regs: u8,
    job: Job,
    w: Walk,
    before: Machine,
    s: Cpu<int>,
    inputs: spec_fn(u8) -> int,
)
    requires
        l.coherent(),
        m.wf(),
        m.has(root),
        schedulable(m, root.0 as int, true),
        job.sched == schedule_of(m, root, true),
        job.at == places_of(job.sched, input_places(job.sched), regs),
        job.guards.len() == 0,
        runnable(job.sched, regs, Aarch64Backend::reload_pair()),
        walk::<Aarch64Backend>(job, w, 0, job.sched.len() as int) is Ok,
        forall|i: int|
            0 <= i < job.sched.len() ==> ((#[trigger] plan_at::<Aarch64Backend>(job, i)) matches Ok(p)
                ==> plan_ready(p)),
        inputs_in(before, inputs),
        agrees(before, s),
        ready(l, s, w.pool),
    ensures
        exists|t: Cpu<int>, left: Machine, x: int|
            #![trigger does(l, w.code, walk::<Aarch64Backend>(job, w, 0, job.sched.len() as int)->Ok_0.code, s, t), neon_algebra(l).at_home(left, job.at, job.sched.last().0, x)]
            does(
                l,
                w.code,
                walk::<Aarch64Backend>(job, w, 0, job.sched.len() as int)->Ok_0.code,
                s,
                t,
            ) && agrees(left, t) && neon_algebra(l).at_home(left, job.at, job.sched.last().0, x)
                && neon_algebra(l).values(m.term(root.0 as int), true, inputs).contains(x),
{
    let alg = neon_algebra(l);
    let k = job.sched.len() as int;
    let reload = Aarch64Backend::reload_pair();
    the_code_of_a_schedule_runs_its_plans(l, job, w, k, before, s);
    plans_evaluate_the_expression(alg, before, m, root, regs, reload, inputs);
    let left = ran(alg, before, job.sched, job.at, reload, k);
    let out = walk::<Aarch64Backend>(job, w, 0, k)->Ok_0.code;
    let t = choose|t: Cpu<int>| #[trigger]
        does(l, w.code, out, s, t) && agrees(left, t) && ready(l, t, w.pool);
    let x = choose|x: int|
        alg.at_home(left, job.at, job.sched.last().0, x) && #[trigger] alg.values(
            m.term(root.0 as int),
            true,
            inputs,
        ).contains(x);
    assert(does(l, w.code, out, s, t) && alg.at_home(left, job.at, job.sched.last().0, x));
}

} // verus!
