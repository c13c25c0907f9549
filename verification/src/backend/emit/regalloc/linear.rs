//! Linear scan over a schedule.
//!
//! The schedule is walked in order. Registers whose value has been read for the
//! last time are freed; a new value takes the first free register. If there is
//! none, a value gives way: a constant if there is one, since it can be rebuilt,
//! else the one whose next use is farthest. A register that a value is bound to in
//! advance is occupied while that value is live.

use crate::backend::emit::regalloc::{RegAllocation, ValueId};
use crate::backend::emit::schedule::ScheduledOp;
use crate::backend::emit::Reg;
use std::collections::BTreeMap;
use vstd::prelude::*;

verus! {

broadcast use vstd::std_specs::btree::group_btree_axioms;

/// Index of the first definition of `v` among the first `k` entries.
pub open spec fn first_def(sched: Seq<(ValueId, ScheduledOp)>, k: nat, v: ValueId) -> Option<nat>
    decreases k,
{
    if k == 0 {
        None
    } else {
        match first_def(sched, (k - 1) as nat, v) {
            Some(i) => Some(i),
            None => if sched[k - 1].0 == v {
                Some((k - 1) as nat)
            } else {
                None
            },
        }
    }
}

/// The last of the first `k` indices that reads `v`, or its definition if that
/// is later.
pub open spec fn last_read(sched: Seq<(ValueId, ScheduledOp)>, k: nat, v: ValueId) -> nat
    decreases k,
{
    if k == 0 {
        first_def(sched, sched.len(), v)->0
    } else {
        let before = last_read(sched, (k - 1) as nat, v);
        if sched[k - 1].1.reads(v) && k - 1 > before {
            (k - 1) as nat
        } else {
            before
        }
    }
}

/// Index of the last use of `v`: its last read, or its definition.
pub open spec fn last_use(sched: Seq<(ValueId, ScheduledOp)>, v: ValueId) -> nat {
    last_read(sched, sched.len(), v)
}

/// Index of the next use of `v` from entry `i` on: its first read, or `i` if nothing
/// reads it any more.
pub open spec fn next_use(sched: Seq<(ValueId, ScheduledOp)>, v: ValueId, i: nat) -> nat {
    match first_read(sched, v, i) {
        Some(p) => p,
        None => i,
    }
}

/// Index of the first read of `v` from entry `i` on.
pub open spec fn first_read(sched: Seq<(ValueId, ScheduledOp)>, v: ValueId, i: nat) -> Option<nat>
    decreases sched.len() - i,
{
    if i >= sched.len() {
        None
    } else if sched[i as int].1.reads(v) {
        Some(i)
    } else {
        first_read(sched, v, i + 1)
    }
}

/// The constant `v` is defined as, among the first `k` entries.
pub open spec fn const_in(sched: Seq<(ValueId, ScheduledOp)>, k: nat, v: ValueId) -> Option<u32>
    decreases k,
{
    if k == 0 {
        None
    } else {
        match sched[k - 1].1 {
            ScheduledOp::Const(bits) if sched[k - 1].0 == v => Some(bits),
            _ => const_in(sched, (k - 1) as nat, v),
        }
    }
}

/// The constant `v` is defined as, if it is one.
pub open spec fn const_of(sched: Seq<(ValueId, ScheduledOp)>, v: ValueId) -> Option<u32> {
    const_in(sched, sched.len(), v)
}

/// One more than the greatest number defined by the first `k` entries.
pub open spec fn id_bound(sched: Seq<(ValueId, ScheduledOp)>, k: nat) -> nat
    decreases k,
{
    if k == 0 {
        0
    } else {
        let before = id_bound(sched, (k - 1) as nat);
        if sched[k - 1].0.0 + 1 > before {
            (sched[k - 1].0.0 + 1) as nat
        } else {
            before
        }
    }
}

/// State of the walk.
#[verifier::ext_equal]
pub struct Scan {
    /// Register of each value that has one, by number.
    pub assigned: Map<u32, Reg>,
    /// Values kept on the stack.
    pub spilled: Seq<ValueId>,
    /// Values rebuilt from their constant.
    pub remat: Map<u32, u32>,
    /// The value in each scratch register.
    pub owners: Seq<Option<ValueId>>,
    /// Number of scratch registers used so far.
    pub used: nat,
}

/// The owners that are still to be read at or after `i`.
pub open spec fn unexpired(
    sched: Seq<(ValueId, ScheduledOp)>,
    owners: Seq<Option<ValueId>>,
    i: nat,
) -> Seq<Option<ValueId>> {
    Seq::new(
        owners.len(),
        |r: int|
            match owners[r] {
                Some(v) => if last_use(sched, v) < i {
                    None
                } else {
                    Some(v)
                },
                None => None,
            },
    )
}

/// The register a scratch slot stands for.
pub open spec fn slot_reg(r: int, base: nat) -> Reg {
    Reg((r + base) as u8)
}

/// The value of entry `d` is bound to register `reg` in advance.
pub open spec fn bound_to(
    sched: Seq<(ValueId, ScheduledOp)>,
    pre: Map<u32, Reg>,
    reg: Reg,
    d: int,
) -> bool {
    pre.contains_key(sched[d].0.0) && pre[sched[d].0.0] == reg
}

/// Where the live range of entry `d` ends: at its last use.
pub open spec fn live_end(sched: Seq<(ValueId, ScheduledOp)>, d: int) -> int {
    if last_use(sched, sched[d].0) > d {
        last_use(sched, sched[d].0) as int
    } else {
        d
    }
}

/// A value bound to register `reg` is live while that of entry `i` is: their live
/// ranges overlap.
pub open spec fn occupied(
    sched: Seq<(ValueId, ScheduledOp)>,
    pre: Map<u32, Reg>,
    reg: Reg,
    i: int,
) -> bool {
    exists|d: int|
        0 <= d < sched.len() && #[trigger] bound_to(sched, pre, reg, d) && d <= live_end(sched, i)
            && i <= live_end(sched, d)
}

/// The scratch slots that the value of entry `i` can be put in: those of which no
/// bound value occupies the register.
pub open spec fn open_slots(
    sched: Seq<(ValueId, ScheduledOp)>,
    pre: Map<u32, Reg>,
    i: int,
    regs: nat,
    base: nat,
) -> Seq<bool> {
    Seq::new(regs, |r: int| !occupied(sched, pre, slot_reg(r, base), i))
}

/// The first slot from `r` on that is open and free.
pub open spec fn free_from(owners: Seq<Option<ValueId>>, open: Seq<bool>, r: nat) -> Option<nat>
    decreases owners.len() - r,
{
    if r >= owners.len() {
        None
    } else if owners[r as int] is None && open[r as int] {
        Some(r)
    } else {
        free_from(owners, open, r + 1)
    }
}

/// Among the first `k` slots, the first open one whose value has the farthest next
/// use from entry `i` on; only constants count if `consts` holds.
pub open spec fn farthest(
    sched: Seq<(ValueId, ScheduledOp)>,
    owners: Seq<Option<ValueId>>,
    open: Seq<bool>,
    i: nat,
    k: nat,
    consts: bool,
) -> Option<nat>
    decreases k,
{
    if k == 0 {
        None
    } else {
        let best = farthest(sched, owners, open, i, (k - 1) as nat, consts);
        match owners[k - 1] {
            Some(v) => if open[k - 1] && (consts ==> const_of(sched, v) is Some) && next_use(
                sched,
                v,
                i,
            ) > (match best {
                Some(b) => next_use(sched, owners[b as int]->0, i),
                None => 0,
            }) {
                Some((k - 1) as nat)
            } else {
                best
            },
            None => best,
        }
    }
}

/// The open slot whose value gives way, if there is one: that of a constant if
/// possible.
pub open spec fn victim(
    sched: Seq<(ValueId, ScheduledOp)>,
    owners: Seq<Option<ValueId>>,
    open: Seq<bool>,
    i: nat,
) -> Option<nat> {
    match farthest(sched, owners, open, i, owners.len(), true) {
        Some(r) => Some(r),
        None => farthest(sched, owners, open, i, owners.len(), false),
    }
}

/// `st` with `v` put where it can be recovered: rebuilt if it is a constant,
/// else on the stack.
pub open spec fn set_aside(sched: Seq<(ValueId, ScheduledOp)>, st: Scan, v: ValueId) -> Scan {
    match const_of(sched, v) {
        Some(bits) => Scan { remat: st.remat.insert(v.0, bits), ..st },
        None => Scan { spilled: st.spilled.push(v), ..st },
    }
}

/// The new value `v` gives way rather than `u`: it is a constant, or neither is and
/// its next use is no nearer.
pub open spec fn stays_out(
    sched: Seq<(ValueId, ScheduledOp)>,
    v: ValueId,
    u: ValueId,
    i: nat,
) -> bool {
    const_of(sched, v) is Some || (const_of(sched, u) is None && next_use(sched, v, i) >= next_use(
        sched,
        u,
        i,
    ))
}

/// One step of the walk.
pub open spec fn scan_step(
    sched: Seq<(ValueId, ScheduledOp)>,
    st: Scan,
    i: nat,
    pre: Map<u32, Reg>,
    base: nat,
) -> Scan {
    let v = sched[i as int].0;
    if st.assigned.contains_key(v.0) {
        st
    } else {
        let owners = unexpired(sched, st.owners, i);
        let open = open_slots(sched, pre, i as int, owners.len(), base);
        match free_from(owners, open, 0) {
            Some(r) => Scan {
                assigned: st.assigned.insert(v.0, Reg((r + base) as u8)),
                owners: owners.update(r as int, Some(v)),
                used: if r + 1 > st.used {
                    r + 1
                } else {
                    st.used
                },
                ..st
            },
            None => {
                let st = Scan { owners, ..st };
                match victim(sched, owners, open, i) {
                    None => set_aside(sched, st, v),
                    Some(r) => {
                        let u = owners[r as int]->0;
                        if stays_out(sched, v, u, i) {
                            set_aside(sched, st, v)
                        } else {
                            let st = set_aside(
                                sched,
                                Scan { assigned: st.assigned.remove(u.0), ..st },
                                u,
                            );
                            Scan {
                                assigned: st.assigned.insert(v.0, Reg((r + base) as u8)),
                                owners: owners.update(r as int, Some(v)),
                                ..st
                            }
                        }
                    },
                }
            },
        }
    }
}

/// The state after the first `k` entries.
pub open spec fn scan(
    sched: Seq<(ValueId, ScheduledOp)>,
    k: nat,
    precolored: Map<u32, Reg>,
    regs: nat,
    base: nat,
) -> Scan
    decreases k,
{
    if k == 0 {
        Scan {
            assigned: precolored,
            spilled: Seq::empty(),
            remat: Map::empty(),
            owners: Seq::new(regs, |r: int| None::<ValueId>),
            used: 0,
        }
    } else {
        scan_step(
            sched,
            scan(sched, (k - 1) as nat, precolored, regs, base),
            (k - 1) as nat,
            precolored,
            base,
        )
    }
}

/// Operands are numbered below some definition.
pub open spec fn operands_bounded(sched: Seq<(ValueId, ScheduledOp)>) -> bool {
    forall|i: int, v: ValueId|
        0 <= i < sched.len() && #[trigger] sched[i].1.reads(v) ==> v.0 < id_bound(
            sched,
            sched.len(),
        )
}

/// Table of a per-value index: right for every defined value.
spec fn table_of(
    sched: Seq<(ValueId, ScheduledOp)>,
    table: Seq<usize>,
    f: spec_fn(ValueId) -> nat,
) -> bool {
    &&& table.len() == id_bound(sched, sched.len())
    &&& forall|id: int|
        0 <= id < table.len() && first_def(sched, sched.len(), ValueId(id as u32)) is Some
            ==> #[trigger] table[id] == f(ValueId(id as u32))
}

proof fn lemma_id_bound(sched: Seq<(ValueId, ScheduledOp)>, k: nat, i: int)
    requires
        0 <= i < k <= sched.len(),
    ensures
        sched[i].0.0 < id_bound(sched, k),
    decreases k,
{
    if i < k - 1 {
        lemma_id_bound(sched, (k - 1) as nat, i);
    }
}

proof fn lemma_id_bound_fits(sched: Seq<(ValueId, ScheduledOp)>, k: nat)
    requires
        k <= sched.len(),
    ensures
        id_bound(sched, k) <= u32::MAX + 1,
    decreases k,
{
    if k > 0 {
        lemma_id_bound_fits(sched, (k - 1) as nat);
    }
}

proof fn lemma_first_def(sched: Seq<(ValueId, ScheduledOp)>, k: nat, v: ValueId)
    requires
        k <= sched.len(),
    ensures
        match first_def(sched, k, v) {
            Some(i) => i < k && sched[i as int].0 == v && forall|j: int|
                0 <= j < i ==> (#[trigger] sched[j]).0 != v,
            None => forall|j: int| 0 <= j < k ==> (#[trigger] sched[j]).0 != v,
        },
    decreases k,
{
    if k > 0 {
        lemma_first_def(sched, (k - 1) as nat, v);
    }
}

proof fn lemma_first_def_stays(sched: Seq<(ValueId, ScheduledOp)>, k: nat, m: nat, v: ValueId)
    requires
        k <= m <= sched.len(),
        first_def(sched, k, v) is Some,
    ensures
        first_def(sched, m, v) == first_def(sched, k, v),
    decreases m,
{
    if k < m {
        lemma_first_def_stays(sched, k, (m - 1) as nat, v);
    }
}

/// The greatest value number of a schedule, plus one.
fn value_limit(schedule: &[(ValueId, ScheduledOp)]) -> (n: usize)
    requires
        forall|i: int| 0 <= i < schedule@.len() ==> (#[trigger] schedule@[i]).0.0 < usize::MAX,
    ensures
        n == id_bound(schedule@, schedule@.len()),
{
    let mut n: usize = 0;
    let mut i: usize = 0;
    while i < schedule.len()
        invariant
            i <= schedule@.len(),
            n == id_bound(schedule@, i as nat),
            forall|i: int| 0 <= i < schedule@.len() ==> (#[trigger] schedule@[i]).0.0 < usize::MAX,
        decreases schedule@.len() - i,
    {
        let end: usize = schedule[i].0.0 as usize + 1;
        if end > n {
            n = end;
        }
        i += 1;
    }
    n
}

/// Raises an entry of a table to at least `i`.
fn raise(table: &mut Vec<usize>, v: ValueId, i: usize)
    requires
        v.0 < old(table)@.len(),
    ensures
        final(table)@ == old(table)@.update(
            v.0 as int,
            if old(table)@[v.0 as int] < i {
                i
            } else {
                old(table)@[v.0 as int]
            },
        ),
{
    let idx: usize = v.0 as usize;
    if table[idx] < i {
        table.set(idx, i);
    } else {
        assert(table@ =~= old(table)@.update(v.0 as int, old(table)@[v.0 as int]));
    }
}

/// Last use of every value.
fn last_uses(schedule: &[(ValueId, ScheduledOp)]) -> (table: Vec<usize>)
    requires
        operands_bounded(schedule@),
        forall|i: int| 0 <= i < schedule@.len() ==> (#[trigger] schedule@[i]).0.0 < usize::MAX,
    ensures
        table_of(schedule@, table@, |v: ValueId| last_use(schedule@, v)),
{
    let n: usize = schedule.len();
    let limit: usize = value_limit(schedule);
    let ghost sched = schedule@;
    proof {
        lemma_id_bound_fits(sched, sched.len());
    }
    let mut table: Vec<usize> = Vec::new();
    while table.len() < limit
        invariant
            table@.len() <= limit,
            forall|id: int| 0 <= id < table@.len() ==> table@[id] == usize::MAX,
        decreases limit - table@.len(),
    {
        table.push(usize::MAX);
    }
    let mut i: usize = 0;
    while i < n
        invariant
            i <= n,
            n == schedule@.len(),
            sched == schedule@,
            table@.len() == id_bound(sched, sched.len()),
            id_bound(sched, sched.len()) <= u32::MAX + 1,
            forall|id: int|
                0 <= id < table@.len() ==> #[trigger] table@[id] == match first_def(
                    sched,
                    i as nat,
                    ValueId(id as u32),
                ) {
                    Some(d) => d as int,
                    None => usize::MAX as int,
                },
        decreases n - i,
    {
        let v: ValueId = schedule[i].0;
        proof {
            lemma_id_bound(sched, sched.len(), i as int);
            assert(table@[v.0 as int] == match first_def(sched, i as nat, ValueId(v.0)) {
                Some(d) => d as int,
                None => usize::MAX as int,
            });
            lemma_first_def(sched, i as nat, v);
        }
        if table[v.0 as usize] == usize::MAX {
            table.set(v.0 as usize, i);
        }
        i += 1;
        assert forall|id: int| 0 <= id < table@.len() implies #[trigger] table@[id]
            == match first_def(sched, i as nat, ValueId(id as u32)) {
            Some(d) => d as int,
            None => usize::MAX as int,
        } by {
            assert(ValueId(id as u32) == v <==> id == v.0);
        }
    }
    let mut i: usize = 0;
    while i < n
        invariant
            i <= n,
            n == schedule@.len(),
            sched == schedule@,
            operands_bounded(sched),
            id_bound(sched, sched.len()) <= u32::MAX + 1,
            table_of(sched, table@, |v: ValueId| last_read(sched, i as nat, v)),
        decreases n - i,
    {
        let ghost was = table@;
        let ghost op = sched[i as int].1;
        match schedule[i].1 {
            ScheduledOp::Var(_) | ScheduledOp::Const(_) => {},
            ScheduledOp::Unary(_, a) | ScheduledOp::ShiftImm(_, a, _) => {
                assert(op.reads(a));
                raise(&mut table, a, i);
            },
            ScheduledOp::Binary(_, a, b) => {
                assert(op.reads(a) && op.reads(b));
                raise(&mut table, a, i);
                raise(&mut table, b, i);
            },
            ScheduledOp::Ternary(_, a, b, c) => {
                assert(op.reads(a) && op.reads(b) && op.reads(c));
                raise(&mut table, a, i);
                raise(&mut table, b, i);
                raise(&mut table, c, i);
            },
        }
        assert forall|id: int|
            0 <= id < table@.len() && first_def(
                sched,
                sched.len(),
                ValueId(id as u32),
            ) is Some implies #[trigger] table@[id] == last_read(
            sched,
            (i + 1) as nat,
            ValueId(id as u32),
        ) by {
            let f = |v: ValueId| last_read(sched, i as nat, v);
            assert(was[id] == f(ValueId(id as u32)));
            assert(op == sched[i as int].1);
        }
        i += 1;
    }
    table
}

/// The constant bits of every value.
fn const_table(schedule: &[(ValueId, ScheduledOp)]) -> (table: Vec<Option<u32>>)
    requires
        forall|i: int| 0 <= i < schedule@.len() ==> (#[trigger] schedule@[i]).0.0 < usize::MAX,
    ensures
        table@.len() == id_bound(schedule@, schedule@.len()),
        forall|id: int|
            0 <= id < table@.len() ==> #[trigger] table@[id] == const_of(
                schedule@,
                ValueId(id as u32),
            ),
{
    let limit: usize = value_limit(schedule);
    let ghost sched = schedule@;
    proof {
        lemma_id_bound_fits(sched, sched.len());
    }
    let mut table: Vec<Option<u32>> = Vec::new();
    while table.len() < limit
        invariant
            table@.len() <= limit,
            forall|id: int| 0 <= id < table@.len() ==> table@[id] is None,
        decreases limit - table@.len(),
    {
        table.push(None);
    }
    let mut i: usize = 0;
    while i < schedule.len()
        invariant
            i <= schedule@.len(),
            sched == schedule@,
            table@.len() == id_bound(sched, sched.len()),
            id_bound(sched, sched.len()) <= u32::MAX + 1,
            forall|id: int|
                0 <= id < table@.len() ==> #[trigger] table@[id] == const_in(
                    sched,
                    i as nat,
                    ValueId(id as u32),
                ),
        decreases schedule@.len() - i,
    {
        let v: ValueId = schedule[i].0;
        proof {
            lemma_id_bound(sched, sched.len(), i as int);
        }
        if let ScheduledOp::Const(bits) = schedule[i].1 {
            table.set(v.0 as usize, Some(bits));
        }
        i += 1;
        assert forall|id: int| 0 <= id < table@.len() implies #[trigger] table@[id] == const_in(
            sched,
            i as nat,
            ValueId(id as u32),
        ) by {
            assert(ValueId(id as u32) == v <==> id == v.0);
        }
    }
    table
}

/// A scratch register that an entry is bound to, and the live range of its value.
struct Bound {
    slot: usize,
    from: usize,
    to: usize,
}

/// Tables the walk looks values up in.
struct Tables {
    last: Vec<usize>,
    consts: Vec<Option<u32>>,
    bound: Vec<Bound>,
}

impl Bound {
    /// It is of entry `self.from`.
    spec fn fits(
        self,
        sched: Seq<(ValueId, ScheduledOp)>,
        pre: Map<u32, Reg>,
        regs: nat,
        base: nat,
    ) -> bool {
        &&& self.from < sched.len()
        &&& self.slot < regs
        &&& bound_to(sched, pre, slot_reg(self.slot as int, base), self.from as int)
        &&& self.to == live_end(sched, self.from as int)
    }
}

/// The list is of the first `k` entries that are bound to scratch registers.
spec fn lists_bound(
    list: Seq<Bound>,
    sched: Seq<(ValueId, ScheduledOp)>,
    pre: Map<u32, Reg>,
    regs: nat,
    base: nat,
    k: int,
) -> bool {
    &&& forall|j: int| 0 <= j < list.len() ==> (#[trigger] list[j]).fits(sched, pre, regs, base)
    &&& forall|d: int, r: int|
        0 <= d < k && 0 <= r < regs && #[trigger] bound_to(sched, pre, slot_reg(r, base), d)
            ==> exists|j: int| 0 <= j < list.len() && (#[trigger] list[j]).from == d
}

impl Tables {
    spec fn fit(&self, sched: Seq<(ValueId, ScheduledOp)>) -> bool {
        &&& table_of(sched, self.last@, |v: ValueId| last_use(sched, v))
        &&& self.consts@.len() == id_bound(sched, sched.len())
        &&& forall|id: int|
            0 <= id < self.consts@.len() ==> #[trigger] self.consts@[id] == const_of(
                sched,
                ValueId(id as u32),
            )
    }

    spec fn fit_bound(
        &self,
        sched: Seq<(ValueId, ScheduledOp)>,
        pre: Map<u32, Reg>,
        regs: nat,
        base: nat,
    ) -> bool {
        lists_bound(self.bound@, sched, pre, regs, base, sched.len() as int)
    }

    /// The last entry of the live range of entry `i`.
    fn live_end(&self, v: ValueId, i: usize, Ghost(sched): Ghost<Seq<(ValueId, ScheduledOp)>>) -> (e:
        usize)
        requires
            self.fit(sched),
            i < sched.len(),
            sched[i as int].0 == v,
        ensures
            e == live_end(sched, i as int),
    {
        assert(scheduled(sched, v));
        let last: usize = self.last_use(v, Ghost(sched));
        if last > i {
            last
        } else {
            i
        }
    }

    /// The slots that entry `i` can be put in.
    fn open_slots(
        &self,
        schedule: &[(ValueId, ScheduledOp)],
        i: usize,
        regs: usize,
        Ghost(pre): Ghost<Map<u32, Reg>>,
        Ghost(base): Ghost<nat>,
    ) -> (open: Vec<bool>)
        requires
            self.fit(schedule@),
            self.fit_bound(schedule@, pre, regs as nat, base),
            i < schedule@.len(),
            base + regs <= 256,
        ensures
            open@ == open_slots(schedule@, pre, i as int, regs as nat, base),
    {
        let ghost sched = schedule@;
        let end: usize = self.live_end(schedule[i].0, i, Ghost(sched));
        let mut open: Vec<bool> = Vec::new();
        while open.len() < regs
            invariant
                open@.len() <= regs,
                forall|r: int| 0 <= r < open@.len() ==> open@[r],
            decreases regs - open@.len(),
        {
            open.push(true);
        }
        let mut j: usize = 0;
        while j < self.bound.len()
            invariant
                j <= self.bound@.len(),
                open@.len() == regs,
                sched == schedule@,
                i < sched.len(),
                base + regs <= 256,
                end == live_end(sched, i as int),
                self.fit_bound(sched, pre, regs as nat, base),
                forall|r: int|
                    0 <= r < regs && !(#[trigger] open@[r]) ==> occupied(
                        sched,
                        pre,
                        slot_reg(r, base),
                        i as int,
                    ),
                forall|p: int|
                    0 <= p < j && (#[trigger] self.bound@[p]).from <= end && i <= self.bound@[p].to
                        ==> !open@[self.bound@[p].slot as int],
            decreases self.bound@.len() - j,
        {
            let b: &Bound = &self.bound[j];
            assert(self.bound@[j as int].fits(sched, pre, regs as nat, base));
            if b.from <= end && i <= b.to {
                assert(bound_to(sched, pre, slot_reg(b.slot as int, base), b.from as int));
                open.set(b.slot, false);
            }
            j += 1;
        }
        assert forall|r: int| 0 <= r < regs implies open@[r] == !occupied(
            sched,
            pre,
            slot_reg(r, base),
            i as int,
        ) by {
            if occupied(sched, pre, slot_reg(r, base), i as int) {
                let d = choose|d: int|
                    0 <= d < sched.len() && #[trigger] bound_to(sched, pre, slot_reg(r, base), d)
                        && d <= live_end(sched, i as int) && i <= live_end(sched, d);
                let p = choose|p: int|
                    0 <= p < self.bound@.len() && (#[trigger] self.bound@[p]).from == d;
                assert(self.bound@[p].fits(sched, pre, regs as nat, base));
                lemma_slots_differ(self.bound@[p].slot as int, r, regs as int, base);
            }
        }
        assert(open@ =~= open_slots(sched, pre, i as int, regs as nat, base));
        open
    }

    fn last_use(&self, v: ValueId, Ghost(sched): Ghost<Seq<(ValueId, ScheduledOp)>>) -> (i: usize)
        requires
            self.fit(sched),
            scheduled(sched, v),
        ensures
            i == last_use(sched, v),
    {
        proof {
            lemma_scheduled(sched, v);
            let f = |v: ValueId| last_use(sched, v);
            assert(self.last@[v.0 as int] == f(ValueId(v.0)));
        }
        self.last[v.0 as usize]
    }

    fn const_of(&self, v: ValueId, Ghost(sched): Ghost<Seq<(ValueId, ScheduledOp)>>) -> (r: Option<
        u32,
    >)
        requires
            self.fit(sched),
            scheduled(sched, v),
        ensures
            r == const_of(sched, v),
    {
        proof {
            lemma_scheduled(sched, v);
            assert(self.consts@[v.0 as int] == const_of(sched, ValueId(v.0)));
        }
        self.consts[v.0 as usize]
    }
}

/// `v` is defined in the schedule.
pub open spec fn scheduled(sched: Seq<(ValueId, ScheduledOp)>, v: ValueId) -> bool {
    exists|i: int| 0 <= i < sched.len() && (#[trigger] sched[i]).0 == v
}

proof fn lemma_scheduled(sched: Seq<(ValueId, ScheduledOp)>, v: ValueId)
    requires
        scheduled(sched, v),
    ensures
        v.0 < id_bound(sched, sched.len()),
        first_def(sched, sched.len(), v) is Some,
{
    let i = choose|i: int| 0 <= i < sched.len() && (#[trigger] sched[i]).0 == v;
    lemma_id_bound(sched, sched.len(), i);
    lemma_first_def(sched, sched.len(), v);
}

/// Owners are scheduled values.
spec fn owners_ok(sched: Seq<(ValueId, ScheduledOp)>, owners: Seq<Option<ValueId>>) -> bool {
    forall|r: int| 0 <= r < owners.len() ==> ((#[trigger] owners[r]) matches Some(v) ==> scheduled(
        sched,
        v,
    ))
}

/// Free registers whose value has been read for the last time.
fn expire(
    owners: &mut Vec<Option<ValueId>>,
    tables: &Tables,
    i: usize,
    Ghost(sched): Ghost<Seq<(ValueId, ScheduledOp)>>,
)
    requires
        tables.fit(sched),
        owners_ok(sched, old(owners)@),
    ensures
        final(owners)@ == unexpired(sched, old(owners)@, i as nat),
{
    let mut r: usize = 0;
    while r < owners.len()
        invariant
            r <= owners@.len(),
            owners@.len() == old(owners)@.len(),
            tables.fit(sched),
            owners_ok(sched, old(owners)@),
            forall|q: int|
                0 <= q < r ==> #[trigger] owners@[q] == unexpired(
                    sched,
                    old(owners)@,
                    i as nat,
                )[q],
            forall|q: int| r <= q < owners@.len() ==> #[trigger] owners@[q] == old(owners)@[q],
        decreases owners@.len() - r,
    {
        assert(owners@[r as int] == old(owners)@[r as int]);
        if let Some(v) = owners[r] {
            if tables.last_use(v, Ghost(sched)) < i {
                owners.set(r, None);
            }
        }
        r += 1;
    }
    assert(owners@ =~= unexpired(sched, old(owners)@, i as nat));
}

/// The first slot that is open and free.
fn find_free(owners: &Vec<Option<ValueId>>, open: &Vec<bool>) -> (r: Option<usize>)
    requires
        open@.len() == owners@.len(),
    ensures
        match r {
            Some(r) => free_from(owners@, open@, 0) == Some(r as nat) && r < owners@.len(),
            None => free_from(owners@, open@, 0) is None,
        },
{
    let mut r: usize = 0;
    while r < owners.len()
        invariant
            r <= owners@.len(),
            open@.len() == owners@.len(),
            free_from(owners@, open@, r as nat) == free_from(owners@, open@, 0),
        decreases owners@.len() - r,
    {
        if owners[r].is_none() && open[r] {
            return Some(r);
        }
        r += 1;
    }
    None
}

/// Does the operation read the value?
fn is_read(op: ScheduledOp, v: ValueId) -> (b: bool)
    ensures
        b == op.reads(v),
{
    match op {
        ScheduledOp::Var(_) | ScheduledOp::Const(_) => false,
        ScheduledOp::Unary(_, a) | ScheduledOp::ShiftImm(_, a, _) => a.0 == v.0,
        ScheduledOp::Binary(_, a, b) => a.0 == v.0 || b.0 == v.0,
        ScheduledOp::Ternary(_, a, b, c) => a.0 == v.0 || b.0 == v.0 || c.0 == v.0,
    }
}

/// Index of the next use of a value.
fn find_next_use(schedule: &[(ValueId, ScheduledOp)], v: ValueId, i: usize) -> (p: usize)
    requires
        i < schedule@.len(),
    ensures
        p == next_use(schedule@, v, i as nat),
{
    let mut p: usize = i;
    while p < schedule.len()
        invariant
            i <= p <= schedule@.len(),
            first_read(schedule@, v, p as nat) == first_read(schedule@, v, i as nat),
        decreases schedule@.len() - p,
    {
        if is_read(schedule[p].1, v) {
            return p;
        }
        p += 1;
    }
    i
}

/// The open slot whose value has the farthest next use from entry `i` on.
fn find_farthest(
    owners: &Vec<Option<ValueId>>,
    open: &Vec<bool>,
    schedule: &[(ValueId, ScheduledOp)],
    tables: &Tables,
    i: usize,
    consts: bool,
) -> (r: Option<usize>)
    requires
        tables.fit(schedule@),
        owners_ok(schedule@, owners@),
        i < schedule@.len(),
        open@.len() == owners@.len(),
    ensures
        match r {
            Some(r) => farthest(schedule@, owners@, open@, i as nat, owners@.len(), consts) == Some(
                r as nat,
            ) && r < owners@.len() && owners@[r as int] is Some,
            None => farthest(schedule@, owners@, open@, i as nat, owners@.len(), consts) is None,
        },
{
    let ghost sched = schedule@;
    let mut best: Option<usize> = None;
    let mut best_use: usize = 0;
    let mut k: usize = 0;
    while k < owners.len()
        invariant
            k <= owners@.len(),
            sched == schedule@,
            i < sched.len(),
            open@.len() == owners@.len(),
            tables.fit(sched),
            owners_ok(sched, owners@),
            match best {
                Some(b) => b < k && farthest(sched, owners@, open@, i as nat, k as nat, consts) == Some(
                    b as nat,
                ) && owners@[b as int] is Some && best_use == next_use(
                    sched,
                    owners@[b as int]->0,
                    i as nat,
                ),
                None => farthest(sched, owners@, open@, i as nat, k as nat, consts) is None && best_use
                    == 0,
            },
        decreases owners@.len() - k,
    {
        if let Some(v) = owners[k] {
            assert(owners@[k as int] == Some(v));
            let far: usize = find_next_use(schedule, v, i);
            if open[k] && (!consts || tables.const_of(v, Ghost(sched)).is_some()) && far > best_use {
                best = Some(k);
                best_use = far;
            }
        }
        k += 1;
    }
    best
}

/// The entries that are bound to scratch registers.
fn bound_list(
    tables: &Tables,
    schedule: &[(ValueId, ScheduledOp)],
    precolored: &BTreeMap<u32, Reg>,
    num_regs: u8,
    base: u8,
) -> (list: Vec<Bound>)
    requires
        tables.fit(schedule@),
        base + num_regs <= 256,
    ensures
        lists_bound(
            list@,
            schedule@,
            precolored@,
            num_regs as nat,
            base as nat,
            schedule@.len() as int,
        ),
{
    let ghost sched = schedule@;
    let ghost pre = precolored@;
    let mut list: Vec<Bound> = Vec::new();
    let mut i: usize = 0;
    while i < schedule.len()
        invariant
            i <= schedule@.len(),
            sched == schedule@,
            pre == precolored@,
            tables.fit(sched),
            base + num_regs <= 256,
            lists_bound(list@, sched, pre, num_regs as nat, base as nat, i as int),
        decreases schedule@.len() - i,
    {
        let v: ValueId = schedule[i].0;
        let ghost was = list@;
        if let Some(reg) = precolored.get(&v.0) {
            if reg.0 >= base && reg.0 - base < num_regs {
                let slot: usize = (reg.0 - base) as usize;
                let to: usize = tables.live_end(v, i, Ghost(sched));
                assert(slot_reg(slot as int, base as nat) == *reg);
                list.push(Bound { slot, from: i, to });
                assert(list@[was.len() as int].from == i);
            }
        }
        assert forall|d: int, r: int|
            0 <= d < i + 1 && 0 <= r < num_regs && #[trigger] bound_to(
                sched,
                pre,
                slot_reg(r, base as nat),
                d,
            ) implies exists|j: int| 0 <= j < list@.len() && (#[trigger] list@[j]).from == d by {
            if d < i {
                let j = choose|j: int| 0 <= j < was.len() && (#[trigger] was[j]).from == d;
                assert(list@[j] == was[j]);
            } else {
                assert(slot_reg(r, base as nat).0 == r + base);
            }
        }
        assert forall|j: int| 0 <= j < list@.len() implies (#[trigger] list@[j]).fits(
            sched,
            pre,
            num_regs as nat,
            base as nat,
        ) by {
            if j < was.len() {
                assert(list@[j] == was[j]);
            }
        }
        i += 1;
    }
    list
}

/// A walk in progress.
struct Walk {
    assignment: BTreeMap<u32, Reg>,
    spilled: Vec<ValueId>,
    remat: BTreeMap<u32, u32>,
    owners: Vec<Option<ValueId>>,
    used: u8,
}

impl View for Walk {
    type V = Scan;

    closed spec fn view(&self) -> Scan {
        Scan {
            assigned: self.assignment@,
            spilled: self.spilled@,
            remat: self.remat@,
            owners: self.owners@,
            used: self.used as nat,
        }
    }
}

impl Walk {
    /// Put a value where it can be recovered.
    fn set_aside(
        &mut self,
        v: ValueId,
        tables: &Tables,
        Ghost(sched): Ghost<Seq<(ValueId, ScheduledOp)>>,
    )
        requires
            tables.fit(sched),
            scheduled(sched, v),
        ensures
            final(self)@ == set_aside(sched, old(self)@, v),
    {
        match tables.const_of(v, Ghost(sched)) {
            Some(bits) => {
                self.remat.insert(v.0, bits);
            },
            None => {
                self.spilled.push(v);
            },
        }
        assert(self@ =~= set_aside(sched, old(self)@, v));
    }

    /// One step of the walk.
    fn step(
        &mut self,
        schedule: &[(ValueId, ScheduledOp)],
        i: usize,
        base: u8,
        tables: &Tables,
        Ghost(pre): Ghost<Map<u32, Reg>>,
    )
        requires
            i < schedule@.len(),
            tables.fit(schedule@),
            tables.fit_bound(schedule@, pre, old(self)@.owners.len(), base as nat),
            owners_ok(schedule@, old(self)@.owners),
            old(self)@.owners.len() <= 255,
            base + old(self)@.owners.len() <= 256,
        ensures
            final(self)@ == scan_step(schedule@, old(self)@, i as nat, pre, base as nat),
            owners_ok(schedule@, final(self)@.owners),
            final(self)@.owners.len() == old(self)@.owners.len(),
    {
        let ghost sched = schedule@;
        let v: ValueId = schedule[i].0;
        assert(scheduled(sched, v));
        if self.assignment.contains_key(&v.0) {
            return;
        }
        expire(&mut self.owners, tables, i, Ghost(sched));
        let ghost owners = self.owners@;
        assert(owners_ok(sched, owners)) by {
            assert forall|r: int| 0 <= r < owners.len() implies ((
            #[trigger] owners[r]) matches Some(v) ==> scheduled(sched, v)) by {
                assert(old(self)@.owners[r] is Some ==> scheduled(sched, old(self)@.owners[r]->0));
            }
        }
        let open: Vec<bool> = tables.open_slots(
            schedule,
            i,
            self.owners.len(),
            Ghost(pre),
            Ghost(base as nat),
        );
        match find_free(&self.owners, &open) {
            Some(r) => {
                let r8: u8 = r as u8;
                self.assignment.insert(v.0, Reg(r8 + base));
                self.owners.set(r, Some(v));
                if r8 + 1 > self.used {
                    self.used = r8 + 1;
                }
            },
            None => {
                let slot: Option<usize> = match find_farthest(
                    &self.owners,
                    &open,
                    schedule,
                    tables,
                    i,
                    true,
                ) {
                    Some(r) => Some(r),
                    None => find_farthest(&self.owners, &open, schedule, tables, i, false),
                };
                let gives: Option<(usize, ValueId)> = match slot {
                    Some(r) => match self.owners[r] {
                        Some(u) => Some((r, u)),
                        None => None,
                    },
                    None => None,
                };
                match gives {
                    None => {
                        self.set_aside(v, tables, Ghost(sched));
                    },
                    Some((r, u)) => {
                        assert(owners[r as int] == Some(u));
                        let evict_new: bool = if tables.const_of(v, Ghost(sched)).is_some() {
                            true
                        } else if tables.const_of(u, Ghost(sched)).is_some() {
                            false
                        } else {
                            find_next_use(schedule, v, i) >= find_next_use(schedule, u, i)
                        };
                        assert(evict_new == stays_out(sched, v, u, i as nat));
                        if evict_new {
                            self.set_aside(v, tables, Ghost(sched));
                        } else {
                            self.assignment.remove(&u.0);
                            self.set_aside(u, tables, Ghost(sched));
                            self.assignment.insert(v.0, Reg(r as u8 + base));
                            self.owners.set(r, Some(v));
                        }
                    },
                }
            },
        }
        assert(self@ =~= scan_step(sched, old(self)@, i as nat, pre, base as nat));
    }
}

/// Linear scan register allocation.
///
/// Precolored values keep their register, which is occupied while they are live.
/// `num_regs` scratch registers from `scratch_base` on are given out.
#[must_use]
pub fn linear_scan(
    schedule: &[(ValueId, ScheduledOp)],
    _uses_map: &[Vec<ValueId>],
    precolored: &BTreeMap<u32, Reg>,
    num_regs: u8,
    scratch_base: u8,
) -> (r: RegAllocation)
    requires
        operands_bounded(schedule@),
        scratch_base + num_regs <= 256,
        num_regs > 0 || forall|i: int|
            0 <= i < schedule@.len() ==> precolored@.contains_key((#[trigger] schedule@[i]).0.0),
        forall|i: int| 0 <= i < schedule@.len() ==> (#[trigger] schedule@[i]).0.0 < usize::MAX,
    ensures
        schedule@.len() == 0 ==> r.assignment@ == Map::<u32, Reg>::empty() && r.spilled@
            == Seq::<ValueId>::empty() && r.rematerialize@ == Map::<u32, u32>::empty()
            && r.num_regs == 0,
        schedule@.len() > 0 ==> {
            let st = scan(
                schedule@,
                schedule@.len(),
                precolored@,
                num_regs as nat,
                scratch_base as nat,
            );
            &&& r.assignment@ == st.assigned
            &&& r.spilled@ == st.spilled
            &&& r.rematerialize@ == st.remat
            &&& r.num_regs == st.used
        },
{
    let n: usize = schedule.len();
    if n == 0 {
        return RegAllocation {
            assignment: BTreeMap::new(),
            spilled: Vec::new(),
            rematerialize: BTreeMap::new(),
            num_regs: 0,
        };
    }
    let ghost sched = schedule@;
    let mut tables = Tables {
        last: last_uses(schedule),
        consts: const_table(schedule),
        bound: Vec::new(),
    };
    tables.bound = bound_list(&tables, schedule, precolored, num_regs, scratch_base);
    let mut owners: Vec<Option<ValueId>> = Vec::new();
    while owners.len() < num_regs as usize
        invariant
            owners@.len() <= num_regs,
            forall|r: int| 0 <= r < owners@.len() ==> (#[trigger] owners@[r]) is None,
        decreases num_regs - owners@.len(),
    {
        owners.push(None);
    }
    let mut walk = Walk {
        assignment: precolored.clone(),
        spilled: Vec::new(),
        remat: BTreeMap::new(),
        owners,
        used: 0,
    };
    let mut i: usize = 0;
    assert(walk@ =~= scan(sched, 0, precolored@, num_regs as nat, scratch_base as nat));
    while i < n
        invariant
            i <= n,
            n == schedule@.len(),
            sched == schedule@,
            tables.fit(sched),
            tables.fit_bound(sched, precolored@, num_regs as nat, scratch_base as nat),
            walk@ == scan(sched, i as nat, precolored@, num_regs as nat, scratch_base as nat),
            owners_ok(sched, walk@.owners),
            walk@.owners.len() == num_regs,
            scratch_base + num_regs <= 256,
        decreases n - i,
    {
        walk.step(schedule, i, scratch_base, &tables, Ghost(precolored@));
        i += 1;
    }
    RegAllocation {
        assignment: walk.assignment,
        spilled: walk.spilled,
        rematerialize: walk.remat,
        num_regs: walk.used,
    }
}

/// No value is defined twice.
pub open spec fn defined_once(sched: Seq<(ValueId, ScheduledOp)>) -> bool {
    forall|i: int, j: int|
        0 <= i < j < sched.len() ==> (#[trigger] sched[i]).0 != (#[trigger] sched[j]).0
}

/// Where the walk has put `v`: in a register, on the stack, or rebuilt.
pub open spec fn placed_once(st: Scan, v: ValueId) -> bool {
    &&& st.assigned.contains_key(v.0) ==> !st.spilled.contains(v) && !st.remat.contains_key(v.0)
    &&& st.spilled.contains(v) ==> !st.remat.contains_key(v.0)
    &&& st.assigned.contains_key(v.0) || st.spilled.contains(v) || st.remat.contains_key(v.0)
}

/// A slot owner holds the slot's register and was seen before step `k`.
spec fn owner_ok(
    sched: Seq<(ValueId, ScheduledOp)>,
    st: Scan,
    k: nat,
    pre: Map<u32, Reg>,
    base: nat,
    r: int,
) -> bool {
    st.owners[r] matches Some(v) ==> {
        &&& !pre.contains_key(v.0)
        &&& st.assigned.contains_key(v.0)
        &&& st.assigned[v.0] == slot_reg(r, base)
        &&& exists|d: int| 0 <= d < k && (#[trigger] sched[d]).0 == v
    }
}

/// A value with a scratch register owns its slot or is no longer read.
spec fn held(
    sched: Seq<(ValueId, ScheduledOp)>,
    st: Scan,
    k: nat,
    base: nat,
    v: ValueId,
) -> bool {
    exists|r: int|
        0 <= r < st.owners.len() && st.assigned[v.0] == #[trigger] slot_reg(r, base) && (
        st.owners[r] == Some(v) || last_use(sched, v) < k)
}

/// What holds of the walk after `k` entries.
spec fn walk_ok(
    sched: Seq<(ValueId, ScheduledOp)>,
    st: Scan,
    k: nat,
    pre: Map<u32, Reg>,
    base: nat,
) -> bool {
    &&& forall|r: int| 0 <= r < st.owners.len() ==> #[trigger] owner_ok(sched, st, k, pre, base, r)
    &&& forall|d: int| 0 <= d < k ==> placed_once(st, (#[trigger] sched[d]).0)
    &&& forall|d: int|
        0 <= d < k && !pre.contains_key((#[trigger] sched[d]).0.0) && st.assigned.contains_key(
            sched[d].0.0,
        ) ==> held(sched, st, k, base, sched[d].0)
    &&& forall|d: int, e: int|
        0 <= d < e < k && !pre.contains_key((#[trigger] sched[d]).0.0) && !pre.contains_key(
            (#[trigger] sched[e]).0.0,
        ) && st.assigned.contains_key(sched[d].0.0) && st.assigned.contains_key(sched[e].0.0)
            && st.assigned[sched[d].0.0] == st.assigned[sched[e].0.0] ==> last_use(
            sched,
            sched[d].0,
        ) < e
    &&& forall|d: int|
        0 <= d < k && !pre.contains_key((#[trigger] sched[d]).0.0) && st.assigned.contains_key(
            sched[d].0.0,
        ) ==> !occupied(sched, pre, st.assigned[sched[d].0.0], d)
    &&& forall|d: int|
        k <= d < sched.len() ==> !st.spilled.contains((#[trigger] sched[d]).0)
            && !st.remat.contains_key(sched[d].0.0) && (st.assigned.contains_key(sched[d].0.0)
            ==> pre.contains_key(sched[d].0.0))
    &&& forall|id: u32| #[trigger]
        pre.contains_key(id) ==> st.assigned.contains_key(id) && st.assigned[id] == pre[id]
    &&& forall|id: u32| #[trigger]
        st.remat.contains_key(id) ==> const_of(sched, ValueId(id)) == Some(st.remat[id])
    &&& forall|v: ValueId| #[trigger] st.spilled.contains(v) ==> const_of(sched, v) is None
    &&& st.spilled.no_duplicates()
}

proof fn lemma_free_from(owners: Seq<Option<ValueId>>, open: Seq<bool>, r: nat)
    requires
        r <= owners.len(),
    ensures
        free_from(owners, open, r) matches Some(q) ==> r <= q < owners.len()
            && owners[q as int] is None && open[q as int],
    decreases owners.len() - r,
{
    if r < owners.len() && !(owners[r as int] is None && open[r as int]) {
        lemma_free_from(owners, open, r + 1);
    }
}

proof fn lemma_farthest(
    sched: Seq<(ValueId, ScheduledOp)>,
    owners: Seq<Option<ValueId>>,
    open: Seq<bool>,
    i: nat,
    k: nat,
    consts: bool,
)
    requires
        k <= owners.len(),
    ensures
        farthest(sched, owners, open, i, k, consts) matches Some(r) ==> r < k
            && owners[r as int] is Some && open[r as int],
    decreases k,
{
    if k > 0 {
        lemma_farthest(sched, owners, open, i, (k - 1) as nat, consts);
    }
}

/// Freeing registers keeps the walk in order, one step on.
proof fn lemma_expire(
    sched: Seq<(ValueId, ScheduledOp)>,
    st: Scan,
    i: nat,
    pre: Map<u32, Reg>,
    base: nat,
)
    requires
        walk_ok(sched, st, i, pre, base),
    ensures
        walk_ok(sched, (Scan { owners: unexpired(sched, st.owners, i), ..st }), i, pre, base),
        forall|d: int|
            0 <= d < i && !pre.contains_key((#[trigger] sched[d]).0.0) && st.assigned.contains_key(
                sched[d].0.0,
            ) ==> exists|r: int|
                0 <= r < st.owners.len() && st.assigned[sched[d].0.0] == #[trigger] slot_reg(
                    r,
                    base,
                ) && (unexpired(sched, st.owners, i)[r] == Some(sched[d].0) || last_use(
                    sched,
                    sched[d].0,
                ) < i),
{
    let now = Scan { owners: unexpired(sched, st.owners, i), ..st };
    assert forall|r: int| 0 <= r < now.owners.len() implies #[trigger] owner_ok(
        sched,
        now,
        i,
        pre,
        base,
        r,
    ) by {
        assert(owner_ok(sched, st, i, pre, base, r));
    }
    assert forall|d: int|
        0 <= d < i && !pre.contains_key((#[trigger] sched[d]).0.0) && now.assigned.contains_key(
            sched[d].0.0,
        ) implies held(sched, now, i, base, sched[d].0) by {
        let v = sched[d].0;
        assert(held(sched, st, i, base, v));
        let r = choose|r: int|
            0 <= r < st.owners.len() && st.assigned[v.0] == #[trigger] slot_reg(r, base) && (
            st.owners[r] == Some(v) || last_use(sched, v) < i);
        assert(now.assigned[v.0] == slot_reg(r, base));
    }
    assert forall|d: int| 0 <= d < i implies placed_once(now, (#[trigger] sched[d]).0) by {
        assert(placed_once(st, sched[d].0));
    }
}

/// Two slots stand for different registers.
proof fn lemma_slots_differ(a: int, b: int, n: int, base: nat)
    requires
        0 <= a < n,
        0 <= b < n,
        base + n <= 256,
        slot_reg(a, base) == slot_reg(b, base),
    ensures
        a == b,
{
}

/// Giving slot `r` to the new value keeps the walk in order. Before, the slot
/// was free, or its owner has just been set aside.
proof fn lemma_take_slot(
    sched: Seq<(ValueId, ScheduledOp)>,
    st: Scan,
    now: Scan,
    i: nat,
    pre: Map<u32, Reg>,
    base: nat,
    r: int,
)
    requires
        defined_once(sched),
        i < sched.len(),
        0 <= r < st.owners.len(),
        base + st.owners.len() <= 256,
        !pre.contains_key(sched[i as int].0.0),
        !occupied(sched, pre, slot_reg(r, base), i as int),
        forall|d: int|
            0 <= d < i && !pre.contains_key((#[trigger] sched[d]).0.0) && st.assigned.contains_key(
                sched[d].0.0,
            ) ==> !occupied(sched, pre, st.assigned[sched[d].0.0], d),
        forall|q: int|
            0 <= q < st.owners.len() && q != r ==> #[trigger] owner_ok(sched, st, i, pre, base, q),
        forall|d: int| 0 <= d < i ==> placed_once(st, (#[trigger] sched[d]).0),
        forall|d: int|
            0 <= d < i && !pre.contains_key((#[trigger] sched[d]).0.0) && st.assigned.contains_key(
                sched[d].0.0,
            ) ==> exists|q: int|
                0 <= q < st.owners.len() && st.assigned[sched[d].0.0] == #[trigger] slot_reg(
                    q,
                    base,
                ) && ((q != r && st.owners[q] == Some(sched[d].0)) || last_use(sched, sched[d].0)
                    < i),
        forall|d: int, e: int|
            0 <= d < e < i && !pre.contains_key((#[trigger] sched[d]).0.0) && !pre.contains_key(
                (#[trigger] sched[e]).0.0,
            ) && st.assigned.contains_key(sched[d].0.0) && st.assigned.contains_key(sched[e].0.0)
                && st.assigned[sched[d].0.0] == st.assigned[sched[e].0.0] ==> last_use(
                sched,
                sched[d].0,
            ) < e,
        forall|d: int|
            i <= d < sched.len() ==> !st.spilled.contains((#[trigger] sched[d]).0)
                && !st.remat.contains_key(sched[d].0.0) && (st.assigned.contains_key(sched[d].0.0)
                ==> pre.contains_key(sched[d].0.0)),
        forall|id: u32| #[trigger]
            pre.contains_key(id) ==> st.assigned.contains_key(id) && st.assigned[id] == pre[id],
        forall|id: u32| #[trigger]
            st.remat.contains_key(id) ==> const_of(sched, ValueId(id)) == Some(st.remat[id]),
        forall|v: ValueId| #[trigger] st.spilled.contains(v) ==> const_of(sched, v) is None,
        st.spilled.no_duplicates(),
        now.assigned == st.assigned.insert(sched[i as int].0.0, slot_reg(r, base)),
        now.owners == st.owners.update(r, Some(sched[i as int].0)),
        now.spilled == st.spilled,
        now.remat == st.remat,
    ensures
        walk_ok(sched, now, i + 1, pre, base),
{
    let v = sched[i as int].0;
    assert(ValueId(v.0) == v);
    assert forall|q: int| 0 <= q < now.owners.len() implies #[trigger] owner_ok(
        sched,
        now,
        i + 1,
        pre,
        base,
        q,
    ) by {
        if q == r {
            assert(sched[i as int].0 == v);
        } else {
            assert(owner_ok(sched, st, i, pre, base, q));
            if let Some(u) = st.owners[q] {
                let d = choose|d: int| 0 <= d < i && (#[trigger] sched[d]).0 == u;
                assert(sched[d].0 == u);
                assert(u != v);
                assert(ValueId(u.0) == u);
            }
        }
    }
    assert forall|d: int| 0 <= d < i + 1 implies placed_once(now, (#[trigger] sched[d]).0) by {
        if d < i {
            assert(placed_once(st, sched[d].0));
            assert(sched[d].0 != v);
            assert(ValueId(sched[d].0.0) == sched[d].0);
        }
    }
    assert forall|d: int|
        0 <= d < i + 1 && !pre.contains_key((#[trigger] sched[d]).0.0)
            && now.assigned.contains_key(sched[d].0.0) implies held(
        sched,
        now,
        i + 1,
        base,
        sched[d].0,
    ) by {
        let u = sched[d].0;
        if d == i {
            assert(now.assigned[u.0] == slot_reg(r, base));
            assert(now.owners[r] == Some(u));
        } else {
            assert(u != v && ValueId(u.0) == u);
            let q = choose|q: int|
                0 <= q < st.owners.len() && st.assigned[u.0] == #[trigger] slot_reg(q, base) && ((q
                    != r && st.owners[q] == Some(u)) || last_use(sched, u) < i);
            assert(now.assigned[u.0] == slot_reg(q, base));
        }
    }
    assert forall|d: int, e: int|
        0 <= d < e < i + 1 && !pre.contains_key((#[trigger] sched[d]).0.0) && !pre.contains_key(
            (#[trigger] sched[e]).0.0,
        ) && now.assigned.contains_key(sched[d].0.0) && now.assigned.contains_key(sched[e].0.0)
            && now.assigned[sched[d].0.0] == now.assigned[sched[e].0.0] implies last_use(
        sched,
        sched[d].0,
    ) < e by {
        let u = sched[d].0;
        assert(u != v && ValueId(u.0) == u);
        if e == i {
            let q = choose|q: int|
                0 <= q < st.owners.len() && st.assigned[u.0] == #[trigger] slot_reg(q, base) && ((q
                    != r && st.owners[q] == Some(u)) || last_use(sched, u) < i);
            lemma_slots_differ(q, r, st.owners.len() as int, base);
        } else {
            let w = sched[e].0;
            assert(w != v && ValueId(w.0) == w);
        }
    }
    assert forall|d: int| i + 1 <= d < sched.len() implies !now.spilled.contains(
        (#[trigger] sched[d]).0,
    ) && !now.remat.contains_key(sched[d].0.0) && (now.assigned.contains_key(sched[d].0.0)
        ==> pre.contains_key(sched[d].0.0)) by {
        assert(sched[d].0 != v);
        assert(ValueId(sched[d].0.0) == sched[d].0);
    }
    assert forall|d: int|
        0 <= d < i + 1 && !pre.contains_key((#[trigger] sched[d]).0.0)
            && now.assigned.contains_key(sched[d].0.0) implies !occupied(
        sched,
        pre,
        now.assigned[sched[d].0.0],
        d,
    ) by {
        if d < i {
            assert(sched[d].0 != v);
            assert(ValueId(sched[d].0.0) == sched[d].0);
        }
    }
}

/// Setting a value aside: it is then placed, and nothing else moves.
proof fn lemma_set_aside(sched: Seq<(ValueId, ScheduledOp)>, st: Scan, v: ValueId)
    requires
        !st.assigned.contains_key(v.0),
        !st.spilled.contains(v),
        !st.remat.contains_key(v.0),
        forall|id: u32| #[trigger]
            st.remat.contains_key(id) ==> const_of(sched, ValueId(id)) == Some(st.remat[id]),
        forall|u: ValueId| #[trigger] st.spilled.contains(u) ==> const_of(sched, u) is None,
        st.spilled.no_duplicates(),
    ensures
        set_aside(sched, st, v).spilled.no_duplicates(),
        placed_once(set_aside(sched, st, v), v),
        set_aside(sched, st, v).assigned == st.assigned,
        set_aside(sched, st, v).owners == st.owners,
        forall|u: ValueId| u != v ==> (#[trigger] set_aside(sched, st, v).spilled.contains(u)
            == st.spilled.contains(u)),
        forall|id: u32|
            id != v.0 ==> (#[trigger] set_aside(sched, st, v).remat.contains_key(id)
                == st.remat.contains_key(id)),
        forall|id: u32| #[trigger]
            set_aside(sched, st, v).remat.contains_key(id) ==> const_of(sched, ValueId(id))
                == Some(set_aside(sched, st, v).remat[id]),
        forall|u: ValueId| #[trigger]
            set_aside(sched, st, v).spilled.contains(u) ==> const_of(sched, u) is None,
{
    let now = set_aside(sched, st, v);
    assert(ValueId(v.0) == v);
    if const_of(sched, v) is None {
        assert(now.spilled[st.spilled.len() as int] == v);
        assert forall|u: ValueId| u != v implies #[trigger] now.spilled.contains(u)
            == st.spilled.contains(u) by {
            if st.spilled.contains(u) {
                assert(now.spilled[st.spilled.index_of(u)] == u);
            }
            if now.spilled.contains(u) {
                assert(st.spilled[now.spilled.index_of(u)] == u);
            }
        }
        assert forall|u: ValueId| #[trigger] now.spilled.contains(u) implies const_of(
            sched,
            u,
        ) is None by {
            if u != v {
                assert(st.spilled.contains(u));
            }
        }
    }
}

proof fn lemma_walk_step(
    sched: Seq<(ValueId, ScheduledOp)>,
    st: Scan,
    i: nat,
    pre: Map<u32, Reg>,
    base: nat,
)
    requires
        defined_once(sched),
        i < sched.len(),
        walk_ok(sched, st, i, pre, base),
        base + st.owners.len() <= 256,
    ensures
        walk_ok(sched, scan_step(sched, st, i, pre, base), i + 1, pre, base),
        scan_step(sched, st, i, pre, base).owners.len() == st.owners.len(),
{
    let v = sched[i as int].0;
    let now = scan_step(sched, st, i, pre, base);
    assert(ValueId(v.0) == v);
    if st.assigned.contains_key(v.0) {
        assert(pre.contains_key(v.0));
        assert(placed_once(now, v));
        lemma_walk_longer(sched, st, i, pre, base);
    } else {
        lemma_expire(sched, st, i, pre, base);
        let owners = unexpired(sched, st.owners, i);
        let mid = Scan { owners, ..st };
        let open = open_slots(sched, pre, i as int, owners.len(), base);
        lemma_free_from(owners, open, 0);
        lemma_farthest(sched, owners, open, i, owners.len(), true);
        lemma_farthest(sched, owners, open, i, owners.len(), false);
        match free_from(owners, open, 0) {
            Some(r) => {
                assert(now.assigned =~= mid.assigned.insert(v.0, slot_reg(r as int, base)));
                lemma_take_slot(sched, mid, now, i, pre, base, r as int);
            },
            None => match victim(sched, owners, open, i) {
                None => {
                    lemma_set_aside(sched, mid, v);
                    lemma_new_aside(sched, mid, now, i, pre, base);
                },
                Some(r) => {
                    let u = owners[r as int]->0;
                    assert(owner_ok(sched, mid, i, pre, base, r as int));
                    let du = choose|d: int| 0 <= d < i && (#[trigger] sched[d]).0 == u;
                    assert(sched[du].0 == u && u != v);
                    assert(ValueId(u.0) == u);
                    assert(placed_once(mid, sched[du].0));
                    if stays_out(sched, v, u, i) {
                        lemma_set_aside(sched, mid, v);
                        lemma_new_aside(sched, mid, now, i, pre, base);
                    } else {
                        let dropped = Scan { assigned: mid.assigned.remove(u.0), ..mid };
                        let aside = set_aside(sched, dropped, u);
                        lemma_set_aside(sched, dropped, u);
                        lemma_drop_owner(sched, mid, aside, i, pre, base, r as int);
                        assert(now.assigned =~= aside.assigned.insert(
                            v.0,
                            slot_reg(r as int, base),
                        ));
                        lemma_take_slot(sched, aside, now, i, pre, base, r as int);
                    }
                },
            },
        }
    }
}

/// A precolored value changes nothing.
proof fn lemma_walk_longer(
    sched: Seq<(ValueId, ScheduledOp)>,
    st: Scan,
    i: nat,
    pre: Map<u32, Reg>,
    base: nat,
)
    requires
        i < sched.len(),
        walk_ok(sched, st, i, pre, base),
        pre.contains_key(sched[i as int].0.0),
        placed_once(st, sched[i as int].0),
    ensures
        walk_ok(sched, st, i + 1, pre, base),
{
    assert forall|r: int| 0 <= r < st.owners.len() implies #[trigger] owner_ok(
        sched,
        st,
        i + 1,
        pre,
        base,
        r,
    ) by {
        assert(owner_ok(sched, st, i, pre, base, r));
        if let Some(u) = st.owners[r] {
            let d = choose|d: int| 0 <= d < i && (#[trigger] sched[d]).0 == u;
            assert(sched[d].0 == u);
        }
    }
    assert forall|d: int|
        0 <= d < i + 1 && !pre.contains_key((#[trigger] sched[d]).0.0)
            && st.assigned.contains_key(sched[d].0.0) implies held(
        sched,
        st,
        i + 1,
        base,
        sched[d].0,
    ) by {
        let u = sched[d].0;
        assert(held(sched, st, i, base, u));
        let r = choose|r: int|
            0 <= r < st.owners.len() && st.assigned[u.0] == #[trigger] slot_reg(r, base) && (
            st.owners[r] == Some(u) || last_use(sched, u) < i);
        assert(st.assigned[u.0] == slot_reg(r, base));
    }
}

/// The new value is set aside.
proof fn lemma_new_aside(
    sched: Seq<(ValueId, ScheduledOp)>,
    st: Scan,
    now: Scan,
    i: nat,
    pre: Map<u32, Reg>,
    base: nat,
)
    requires
        defined_once(sched),
        i < sched.len(),
        walk_ok(sched, st, i, pre, base),
        !st.assigned.contains_key(sched[i as int].0.0),
        now == set_aside(sched, st, sched[i as int].0),
        placed_once(now, sched[i as int].0),
        now.assigned == st.assigned,
        now.owners == st.owners,
        forall|u: ValueId|
            u != sched[i as int].0 ==> (#[trigger] now.spilled.contains(u) == st.spilled.contains(
                u,
            )),
        forall|id: u32|
            id != sched[i as int].0.0 ==> (#[trigger] now.remat.contains_key(id)
                == st.remat.contains_key(id)),
        forall|id: u32| #[trigger]
            now.remat.contains_key(id) ==> const_of(sched, ValueId(id)) == Some(now.remat[id]),
        forall|u: ValueId| #[trigger] now.spilled.contains(u) ==> const_of(sched, u) is None,
        now.spilled.no_duplicates(),
    ensures
        walk_ok(sched, now, i + 1, pre, base),
{
    let v = sched[i as int].0;
    assert(ValueId(v.0) == v);
    assert forall|r: int| 0 <= r < now.owners.len() implies #[trigger] owner_ok(
        sched,
        now,
        i + 1,
        pre,
        base,
        r,
    ) by {
        assert(owner_ok(sched, st, i, pre, base, r));
        if let Some(u) = st.owners[r] {
            let d = choose|d: int| 0 <= d < i && (#[trigger] sched[d]).0 == u;
            assert(sched[d].0 == u);
        }
    }
    assert forall|d: int| 0 <= d < i + 1 implies placed_once(now, (#[trigger] sched[d]).0) by {
        if d < i {
            assert(placed_once(st, sched[d].0));
            assert(sched[d].0 != v);
            assert(ValueId(sched[d].0.0) == sched[d].0);
        }
    }
    assert forall|d: int|
        0 <= d < i + 1 && !pre.contains_key((#[trigger] sched[d]).0.0)
            && now.assigned.contains_key(sched[d].0.0) implies held(
        sched,
        now,
        i + 1,
        base,
        sched[d].0,
    ) by {
        let u = sched[d].0;
        assert(held(sched, st, i, base, u));
        let r = choose|r: int|
            0 <= r < st.owners.len() && st.assigned[u.0] == #[trigger] slot_reg(r, base) && (
            st.owners[r] == Some(u) || last_use(sched, u) < i);
        assert(now.assigned[u.0] == slot_reg(r, base));
    }
    assert forall|d: int| i + 1 <= d < sched.len() implies !now.spilled.contains(
        (#[trigger] sched[d]).0,
    ) && !now.remat.contains_key(sched[d].0.0) && (now.assigned.contains_key(sched[d].0.0)
        ==> pre.contains_key(sched[d].0.0)) by {
        assert(sched[d].0 != v);
        assert(ValueId(sched[d].0.0) == sched[d].0);
    }
}

/// The owner of slot `r` is set aside.
proof fn lemma_drop_owner(
    sched: Seq<(ValueId, ScheduledOp)>,
    st: Scan,
    aside: Scan,
    i: nat,
    pre: Map<u32, Reg>,
    base: nat,
    r: int,
)
    requires
        defined_once(sched),
        i < sched.len(),
        walk_ok(sched, st, i, pre, base),
        base + st.owners.len() <= 256,
        0 <= r < st.owners.len(),
        st.owners[r] is Some,
        forall|d: int|
            0 <= d < i && !pre.contains_key((#[trigger] sched[d]).0.0) && st.assigned.contains_key(
                sched[d].0.0,
            ) ==> exists|q: int|
                0 <= q < st.owners.len() && st.assigned[sched[d].0.0] == #[trigger] slot_reg(
                    q,
                    base,
                ) && (st.owners[q] == Some(sched[d].0) || last_use(sched, sched[d].0) < i),
        aside.assigned == st.assigned.remove((st.owners[r]->0).0),
        aside.owners == st.owners,
        placed_once(aside, st.owners[r]->0),
        forall|u: ValueId|
            u != st.owners[r]->0 ==> (#[trigger] aside.spilled.contains(u) == st.spilled.contains(
                u,
            )),
        forall|id: u32|
            id != (st.owners[r]->0).0 ==> (#[trigger] aside.remat.contains_key(id)
                == st.remat.contains_key(id)),
    ensures
        forall|q: int|
            0 <= q < aside.owners.len() && q != r ==> #[trigger] owner_ok(
                sched,
                aside,
                i,
                pre,
                base,
                q,
            ),
        forall|d: int| 0 <= d < i ==> placed_once(aside, (#[trigger] sched[d]).0),
        forall|d: int|
            0 <= d < i && !pre.contains_key((#[trigger] sched[d]).0.0)
                && aside.assigned.contains_key(sched[d].0.0) ==> exists|q: int|
                0 <= q < aside.owners.len() && aside.assigned[sched[d].0.0] == #[trigger] slot_reg(
                    q,
                    base,
                ) && ((q != r && aside.owners[q] == Some(sched[d].0)) || last_use(
                    sched,
                    sched[d].0,
                ) < i),
        forall|d: int|
            i <= d < sched.len() ==> !aside.spilled.contains((#[trigger] sched[d]).0)
                && !aside.remat.contains_key(sched[d].0.0) && (aside.assigned.contains_key(
                sched[d].0.0,
            ) ==> pre.contains_key(sched[d].0.0)),
        forall|id: u32| #[trigger]
            pre.contains_key(id) ==> aside.assigned.contains_key(id) && aside.assigned[id]
                == pre[id],
{
    let u = st.owners[r]->0;
    assert(owner_ok(sched, st, i, pre, base, r));
    let du = choose|d: int| 0 <= d < i && (#[trigger] sched[d]).0 == u;
    assert(sched[du].0 == u);
    assert(ValueId(u.0) == u);
    assert forall|q: int| 0 <= q < aside.owners.len() && q != r implies #[trigger] owner_ok(
        sched,
        aside,
        i,
        pre,
        base,
        q,
    ) by {
        assert(owner_ok(sched, st, i, pre, base, q));
        if let Some(w) = st.owners[q] {
            if w == u {
                lemma_slots_differ(q, r, st.owners.len() as int, base);
            }
            assert(ValueId(w.0) == w);
        }
    }
    assert forall|d: int| 0 <= d < i implies placed_once(aside, (#[trigger] sched[d]).0) by {
        assert(placed_once(st, sched[d].0));
        assert(ValueId(sched[d].0.0) == sched[d].0);
    }
    assert forall|d: int|
        0 <= d < i && !pre.contains_key((#[trigger] sched[d]).0.0) && aside.assigned.contains_key(
            sched[d].0.0,
        ) implies exists|q: int|
        0 <= q < aside.owners.len() && aside.assigned[sched[d].0.0] == #[trigger] slot_reg(q, base)
            && ((q != r && aside.owners[q] == Some(sched[d].0)) || last_use(sched, sched[d].0)
            < i) by {
        let w = sched[d].0;
        assert(w != u);
        let q = choose|q: int|
            0 <= q < st.owners.len() && st.assigned[w.0] == #[trigger] slot_reg(q, base) && (
            st.owners[q] == Some(w) || last_use(sched, w) < i);
        assert(aside.assigned[w.0] == slot_reg(q, base));
    }
    assert forall|d: int| i <= d < sched.len() implies !aside.spilled.contains(
        (#[trigger] sched[d]).0,
    ) && !aside.remat.contains_key(sched[d].0.0) && (aside.assigned.contains_key(sched[d].0.0)
        ==> pre.contains_key(sched[d].0.0)) by {
        assert(sched[du].0 != sched[d].0);
        assert(ValueId(sched[d].0.0) == sched[d].0);
    }
}

proof fn lemma_walk(
    sched: Seq<(ValueId, ScheduledOp)>,
    k: nat,
    pre: Map<u32, Reg>,
    regs: nat,
    base: nat,
)
    requires
        defined_once(sched),
        k <= sched.len(),
        base + regs <= 256,
    ensures
        walk_ok(sched, scan(sched, k, pre, regs, base), k, pre, base),
        scan(sched, k, pre, regs, base).owners.len() == regs,
    decreases k,
{
    if k > 0 {
        lemma_walk(sched, (k - 1) as nat, pre, regs, base);
        let st = scan(sched, (k - 1) as nat, pre, regs, base);
        lemma_walk_step(sched, st, (k - 1) as nat, pre, base);
    }
}

/// Linear scan puts every value in exactly one place: a register, the stack, or
/// rebuilt from its constant. Precolored values keep their register. Only
/// constants are rebuilt, and constants are never put on the stack. No value is
/// put on the stack twice.
pub proof fn scan_places_each_value_once(
    sched: Seq<(ValueId, ScheduledOp)>,
    pre: Map<u32, Reg>,
    regs: nat,
    base: nat,
)
    requires
        defined_once(sched),
        base + regs <= 256,
    ensures
        ({
            let st = scan(sched, sched.len(), pre, regs, base);
            &&& forall|d: int|
                0 <= d < sched.len() ==> placed_once(st, (#[trigger] sched[d]).0)
            &&& forall|id: u32| #[trigger]
                pre.contains_key(id) ==> st.assigned.contains_key(id) && st.assigned[id] == pre[id]
            &&& forall|id: u32| #[trigger]
                st.remat.contains_key(id) ==> const_of(sched, ValueId(id)) == Some(st.remat[id])
            &&& forall|v: ValueId| #[trigger]
                st.spilled.contains(v) ==> const_of(sched, v) is None
            &&& st.spilled.no_duplicates()
        }),
{
    lemma_walk(sched, sched.len(), pre, regs, base);
}

/// Linear scan never overwrites a value that is still to be read: of two values in
/// the same register, not both bound to it in advance, the earlier is read for the
/// last time before the later is defined. Scratch registers come from the given
/// range.
pub proof fn scan_keeps_live_values_apart(
    sched: Seq<(ValueId, ScheduledOp)>,
    pre: Map<u32, Reg>,
    regs: nat,
    base: nat,
)
    requires
        defined_once(sched),
        base + regs <= 256,
    ensures
        ({
            let st = scan(sched, sched.len(), pre, regs, base);
            &&& forall|d: int, e: int|
                0 <= d < e < sched.len() && !(pre.contains_key((#[trigger] sched[d]).0.0)
                    && pre.contains_key((#[trigger] sched[e]).0.0)) && st.assigned.contains_key(
                    sched[d].0.0,
                ) && st.assigned.contains_key(sched[e].0.0) && st.assigned[sched[d].0.0]
                    == st.assigned[sched[e].0.0] ==> last_use(sched, sched[d].0) < e
            &&& forall|d: int|
                0 <= d < sched.len() && !pre.contains_key((#[trigger] sched[d]).0.0)
                    && st.assigned.contains_key(sched[d].0.0) ==> base
                    <= st.assigned[sched[d].0.0].0 < base + regs
        }),
{
    lemma_walk(sched, sched.len(), pre, regs, base);
    let st = scan(sched, sched.len(), pre, regs, base);
    assert forall|d: int, e: int|
        0 <= d < e < sched.len() && !(pre.contains_key((#[trigger] sched[d]).0.0)
            && pre.contains_key((#[trigger] sched[e]).0.0)) && st.assigned.contains_key(
            sched[d].0.0,
        ) && st.assigned.contains_key(sched[e].0.0) && st.assigned[sched[d].0.0]
            == st.assigned[sched[e].0.0] implies last_use(sched, sched[d].0) < e by {
        let reg = st.assigned[sched[d].0.0];
        if pre.contains_key(sched[d].0.0) {
            assert(bound_to(sched, pre, reg, d));
            assert(!occupied(sched, pre, reg, e));
        } else if pre.contains_key(sched[e].0.0) {
            assert(bound_to(sched, pre, reg, e));
            assert(!occupied(sched, pre, reg, d));
        }
    }
    assert forall|d: int|
        0 <= d < sched.len() && !pre.contains_key((#[trigger] sched[d]).0.0)
            && st.assigned.contains_key(sched[d].0.0) implies base <= st.assigned[sched[d].0.0].0
        < base + regs by {
        assert(held(sched, st, sched.len(), base, sched[d].0));
        let r = choose|r: int|
            0 <= r < st.owners.len() && st.assigned[sched[d].0.0] == #[trigger] slot_reg(r, base)
                && (st.owners[r] == Some(sched[d].0) || last_use(sched, sched[d].0) < sched.len());
        assert(slot_reg(r, base).0 == r + base);
    }
}

/// A value is used last at or after each of its reads.
pub proof fn lemma_last_use(sched: Seq<(ValueId, ScheduledOp)>, i: int, v: ValueId)
    requires
        0 <= i < sched.len(),
        sched[i].1.reads(v),
    ensures
        i <= last_use(sched, v),
{
    lemma_last_read(sched, sched.len(), i, v);
}

proof fn lemma_last_read(sched: Seq<(ValueId, ScheduledOp)>, k: nat, i: int, v: ValueId)
    requires
        0 <= i < k <= sched.len(),
        sched[i].1.reads(v),
    ensures
        i <= last_read(sched, k, v),
    decreases k,
{
    if i < k - 1 {
        lemma_last_read(sched, (k - 1) as nat, i, v);
    }
}

proof fn lemma_last_read_source(sched: Seq<(ValueId, ScheduledOp)>, k: nat, v: ValueId)
    requires
        k <= sched.len(),
    ensures
        last_read(sched, k, v) == first_def(sched, sched.len(), v)->0 || (last_read(sched, k, v) < k
            && sched[last_read(sched, k, v) as int].1.reads(v)),
    decreases k,
{
    if k > 0 {
        lemma_last_read_source(sched, (k - 1) as nat, v);
    }
}

/// A value that is used after its definition is read then.
pub proof fn lemma_used_is_read(sched: Seq<(ValueId, ScheduledOp)>, d: int)
    requires
        defined_once(sched),
        0 <= d < sched.len(),
        last_use(sched, sched[d].0) > d,
    ensures
        last_use(sched, sched[d].0) < sched.len(),
        sched[last_use(sched, sched[d].0) as int].1.reads(sched[d].0),
{
    let v = sched[d].0;
    lemma_last_read_source(sched, sched.len(), v);
    lemma_first_def(sched, sched.len(), v);
    let f = first_def(sched, sched.len(), v);
    assert(f is Some);
    if f->0 < d {
        assert(sched[f->0 as int].0 != sched[d].0);
    }
}

/// What a constant of a single definition is.
pub proof fn lemma_const_of(sched: Seq<(ValueId, ScheduledOp)>, i: int)
    requires
        defined_once(sched),
        0 <= i < sched.len(),
    ensures
        const_of(sched, sched[i].0) == (match sched[i].1 {
            ScheduledOp::Const(bits) => Some(bits),
            _ => None,
        }),
{
    lemma_const_in(sched, sched.len(), i);
}

proof fn lemma_const_in(sched: Seq<(ValueId, ScheduledOp)>, k: nat, i: int)
    requires
        defined_once(sched),
        0 <= i < sched.len(),
        k <= sched.len(),
    ensures
        const_in(sched, k, sched[i].0) == (match sched[i].1 {
            ScheduledOp::Const(bits) if i < k => Some(bits),
            _ => None,
        }),
    decreases k,
{
    if k > 0 {
        lemma_const_in(sched, (k - 1) as nat, i);
        if k - 1 < i {
            assert(sched[k - 1].0 != sched[i].0);
        } else if k - 1 > i {
            assert(sched[i].0 != sched[k - 1].0);
        }
    }
}

} // verus!
