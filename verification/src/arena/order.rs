//! Operands-first traversal.

use crate::arena::model::{lemma_term_kids, lemma_weight_kids, ArenaModel};
use crate::arena::{ExprArena, ExprId};
use vstd::prelude::*;

verus! {

/// `order` followed by the nodes of the expression at `i` that are not in it:
/// operands from left to right, each node after its operands.
pub open spec fn visited(src: ArenaModel, order: Seq<ExprId>, i: int) -> Seq<ExprId>
    decreases i, src.kids(i).len() + 1,
{
    if order.contains(ExprId(i as u32)) {
        order
    } else {
        visited_all(src, order, i, src.kids(i)).push(ExprId(i as u32))
    }
}

/// `order` followed by the new nodes of the expressions at `ids`, all below
/// `bound`, from left to right.
pub open spec fn visited_all(
    src: ArenaModel,
    order: Seq<ExprId>,
    bound: int,
    ids: Seq<ExprId>,
) -> Seq<ExprId>
    decreases bound, ids.len(),
{
    if ids.len() == 0 {
        order
    } else {
        let first = if ids[0].0 < bound {
            visited(src, order, ids[0].0 as int)
        } else {
            order
        };
        visited_all(src, first, bound, ids.drop_first())
    }
}

/// The nodes of the expression at `root`, once each, operands first.
pub open spec fn postorder(src: ArenaModel, root: ExprId) -> Seq<ExprId> {
    visited(src, Seq::empty(), root.0 as int)
}

/// Each node occurs once, after its operands.
pub open spec fn operands_first(src: ArenaModel, order: Seq<ExprId>) -> bool {
    &&& order.no_duplicates()
    &&& forall|p: int| 0 <= p < order.len() ==> src.has(#[trigger] order[p])
    &&& forall|p: int, j: int|
        0 <= p < order.len() && 0 <= j < src.kids(order[p].0 as int).len() ==> occurs_before(
            order,
            p,
            #[trigger] src.kids(order[p].0 as int)[j],
        )
}

/// `id` occurs before position `p`.
pub open spec fn occurs_before(order: Seq<ExprId>, p: int, id: ExprId) -> bool {
    exists|q: int| 0 <= q < p && #[trigger] order[q] == id
}

proof fn lemma_push_ordered(src: ArenaModel, order: Seq<ExprId>, id: ExprId)
    requires
        operands_first(src, order),
        src.has(id),
        !order.contains(id),
        forall|j: int|
            0 <= j < src.kids(id.0 as int).len() ==> order.contains(
                #[trigger] src.kids(id.0 as int)[j],
            ),
    ensures
        operands_first(src, order.push(id)),
{
    let now = order.push(id);
    assert forall|p: int, j: int|
        0 <= p < now.len() && 0 <= j < src.kids(now[p].0 as int).len() implies occurs_before(
        now,
        p,
        #[trigger] src.kids(now[p].0 as int)[j],
    ) by {
        let k = src.kids(now[p].0 as int)[j];
        if p < order.len() {
            assert(now[p] == order[p]);
            assert(occurs_before(order, p, k));
            let q = choose|q: int| 0 <= q < p && #[trigger] order[q] == k;
            assert(now[q] == k);
        } else {
            let q = order.index_of(k);
            assert(now[q] == k);
        }
    }
}

/// What a traversal does: it keeps what was listed, lists the expression's
/// root, and stays operands-first.
pub proof fn lemma_visited(src: ArenaModel, order: Seq<ExprId>, i: int)
    requires
        src.wf(),
        0 <= i < src.nodes.len(),
        operands_first(src, order),
    ensures
        operands_first(src, visited(src, order, i)),
        visited(src, order, i).contains(ExprId(i as u32)),
        order.is_prefix_of(visited(src, order, i)),
        forall|p: int|
            order.len() <= p < visited(src, order, i).len() ==> (#[trigger] visited(
                src,
                order,
                i,
            )[p]).0 <= i,
    decreases i, src.kids(i).len() + 1,
{
    let id = ExprId(i as u32);
    if !order.contains(id) {
        lemma_term_kids(src, i);
        lemma_visited_all(src, order, i, src.kids(i));
        let mid = visited_all(src, order, i, src.kids(i));
        assert(!mid.contains(id)) by {
            if mid.contains(id) {
                let p = mid.index_of(id);
                if p < order.len() {
                    assert(order[p] == mid[p]);
                }
            }
        }
        lemma_push_ordered(src, mid, id);
        assert(visited(src, order, i)[mid.len() as int] == id);
    }
}

proof fn lemma_visited_all(src: ArenaModel, order: Seq<ExprId>, bound: int, ids: Seq<ExprId>)
    requires
        src.wf(),
        0 <= bound <= src.nodes.len(),
        operands_first(src, order),
        forall|j: int| 0 <= j < ids.len() ==> (#[trigger] ids[j]).0 < bound,
    ensures
        operands_first(src, visited_all(src, order, bound, ids)),
        order.is_prefix_of(visited_all(src, order, bound, ids)),
        forall|j: int|
            0 <= j < ids.len() ==> visited_all(src, order, bound, ids).contains(#[trigger] ids[j]),
        forall|p: int|
            order.len() <= p < visited_all(src, order, bound, ids).len() ==> (#[trigger] visited_all(
                src,
                order,
                bound,
                ids,
            )[p]).0 < bound,
    decreases bound, ids.len(),
{
    if ids.len() > 0 {
        assert(ids[0].0 < bound);
        let first = visited(src, order, ids[0].0 as int);
        lemma_visited(src, order, ids[0].0 as int);
        let rest = ids.drop_first();
        assert forall|j: int| 0 <= j < rest.len() implies (#[trigger] rest[j]).0 < bound by {
            assert(ids[j + 1].0 < bound);
        }
        lemma_visited_all(src, first, bound, rest);
        let all = visited_all(src, order, bound, ids);
        assert forall|j: int| 0 <= j < ids.len() implies all.contains(#[trigger] ids[j]) by {
            if j > 0 {
                assert(rest[j - 1] == ids[j]);
            } else {
                let p = first.index_of(ids[0]);
                assert(all[p] == first[p]);
            }
        }
        assert forall|p: int| order.len() <= p < all.len() implies (#[trigger] all[p]).0
            < bound by {
            if p < first.len() {
                assert(all[p] == first[p]);
            }
        }
    }
}

/// Only what the expression uses is listed.
proof fn lemma_visited_reaches(src: ArenaModel, order: Seq<ExprId>, i: int, root: int)
    requires
        src.wf(),
        0 <= i < src.nodes.len(),
        0 <= root < src.nodes.len(),
        operands_first(src, order),
        crate::arena::link::reaches(src, root, i),
        forall|p: int|
            0 <= p < order.len() ==> crate::arena::link::reaches(
                src,
                root,
                (#[trigger] order[p]).0 as int,
            ),
    ensures
        forall|p: int|
            0 <= p < visited(src, order, i).len() ==> crate::arena::link::reaches(
                src,
                root,
                (#[trigger] visited(src, order, i)[p]).0 as int,
            ),
    decreases i, src.kids(i).len() + 1,
{
    if !order.contains(ExprId(i as u32)) {
        lemma_term_kids(src, i);
        lemma_all_reaches(src, order, i, src.kids(i), i, root);
        let mid = visited_all(src, order, i, src.kids(i));
        let now = visited(src, order, i);
        assert forall|p: int| 0 <= p < now.len() implies crate::arena::link::reaches(
            src,
            root,
            (#[trigger] now[p]).0 as int,
        ) by {
            if p < mid.len() {
                assert(now[p] == mid[p]);
            }
        }
    }
}

proof fn lemma_all_reaches(
    src: ArenaModel,
    order: Seq<ExprId>,
    bound: int,
    ids: Seq<ExprId>,
    top: int,
    root: int,
)
    requires
        src.wf(),
        0 <= bound <= src.nodes.len(),
        0 <= top < src.nodes.len(),
        0 <= root < src.nodes.len(),
        operands_first(src, order),
        crate::arena::link::reaches(src, root, top),
        forall|j: int|
            0 <= j < ids.len() ==> (#[trigger] ids[j]).0 < bound && src.kids(top).contains(ids[j]),
        forall|p: int|
            0 <= p < order.len() ==> crate::arena::link::reaches(
                src,
                root,
                (#[trigger] order[p]).0 as int,
            ),
    ensures
        forall|p: int|
            0 <= p < visited_all(src, order, bound, ids).len() ==> crate::arena::link::reaches(
                src,
                root,
                (#[trigger] visited_all(src, order, bound, ids)[p]).0 as int,
            ),
    decreases bound, ids.len(),
{
    if ids.len() > 0 {
        assert(ids[0].0 < bound && src.kids(top).contains(ids[0]));
        let j = src.kids(top).index_of(ids[0]);
        crate::arena::link::lemma_reaches_kid(src, root, top, j);
        lemma_visited(src, order, ids[0].0 as int);
        lemma_visited_reaches(src, order, ids[0].0 as int, root);
        let rest = ids.drop_first();
        assert forall|j: int| 0 <= j < rest.len() implies (#[trigger] rest[j]).0 < bound
            && src.kids(top).contains(rest[j]) by {
            assert(ids[j + 1].0 < bound && src.kids(top).contains(ids[j + 1]));
        }
        lemma_all_reaches(
            src,
            visited(src, order, ids[0].0 as int),
            bound,
            rest,
            top,
            root,
        );
        let first = visited(src, order, ids[0].0 as int);
        let all = visited_all(src, first, bound, rest);
        assert(visited_all(src, order, bound, ids) == all);
        assert forall|p: int| 0 <= p < all.len() implies crate::arena::link::reaches(
            src,
            root,
            (#[trigger] all[p]).0 as int,
        ) by {}
    }
}

/// What remains to be done for a node.
#[derive(Clone, Copy)]
enum Task {
    /// List the expression at the node.
    Descend(ExprId),
    /// List the node itself.
    Emit(ExprId),
}

spec fn task_node(t: Task) -> int {
    match t {
        Task::Descend(id) => id.0 as int,
        Task::Emit(id) => id.0 as int,
    }
}

/// The list after one task.
spec fn stepped(src: ArenaModel, order: Seq<ExprId>, t: Task) -> Seq<ExprId> {
    match t {
        Task::Descend(id) => visited(src, order, id.0 as int),
        Task::Emit(id) => if order.contains(id) {
            order
        } else {
            order.push(id)
        },
    }
}

/// The list after a list of tasks, the last one first.
spec fn ran(src: ArenaModel, order: Seq<ExprId>, work: Seq<Task>) -> Seq<ExprId>
    decreases work.len(),
{
    if work.len() == 0 {
        order
    } else {
        ran(src, stepped(src, order, work.last()), work.drop_last())
    }
}

/// Tasks listing `ids` from left to right, to be taken from the end.
spec fn descents(ids: Seq<ExprId>) -> Seq<Task> {
    Seq::new(ids.len(), |j: int| Task::Descend(ids[ids.len() - 1 - j]))
}

proof fn lemma_ran_descents(
    src: ArenaModel,
    order: Seq<ExprId>,
    base: Seq<Task>,
    bound: int,
    ids: Seq<ExprId>,
)
    requires
        forall|j: int| 0 <= j < ids.len() ==> (#[trigger] ids[j]).0 < bound,
    ensures
        ran(src, order, base + descents(ids)) == ran(
            src,
            visited_all(src, order, bound, ids),
            base,
        ),
    decreases ids.len(),
{
    let w = base + descents(ids);
    if ids.len() == 0 {
        assert(w =~= base);
    } else {
        assert(w.last() == Task::Descend(ids[0]));
        assert(w.drop_last() =~= base + descents(ids.drop_first()));
        assert(ids[0].0 < bound);
        assert forall|j: int| 0 <= j < ids.drop_first().len() implies (
        #[trigger] ids.drop_first()[j]).0 < bound by {
            assert(ids[j + 1].0 < bound);
        }
        lemma_ran_descents(
            src,
            visited(src, order, ids[0].0 as int),
            base,
            bound,
            ids.drop_first(),
        );
    }
}

/// Bound on the remaining work.
spec fn effort(src: ArenaModel, work: Seq<Task>) -> nat
    decreases work.len(),
{
    if work.len() == 0 {
        0
    } else {
        effort(src, work.drop_last()) + match work.last() {
            Task::Descend(id) => 2 * src.term(id.0 as int).size(),
            Task::Emit(_) => 1,
        }
    }
}

proof fn lemma_effort_descents(src: ArenaModel, base: Seq<Task>, ids: Seq<ExprId>)
    ensures
        effort(src, base + descents(ids)) == effort(src, base) + 2 * src.weight(ids),
    decreases ids.len(),
{
    let w = base + descents(ids);
    if ids.len() == 0 {
        assert(w =~= base);
    } else {
        assert(w.last() == Task::Descend(ids[0]));
        assert(w.drop_last() =~= base + descents(ids.drop_first()));
        lemma_effort_descents(src, base, ids.drop_first());
        crate::arena::rewrite::lemma_weight_front(src, ids);
    }
}

/// Opening a node up does the same as listing its expression, with less effort
/// left.
proof fn lemma_open(src: ArenaModel, order: Seq<ExprId>, work: Seq<Task>)
    requires
        src.wf(),
        operands_first(src, order),
        work.len() > 0,
        work.last() is Descend,
        0 <= task_node(work.last()) < src.nodes.len(),
        !order.contains(work.last()->Descend_0),
    ensures
        ({
            let id = work.last()->Descend_0;
            let opened = work.drop_last().push(Task::Emit(id)) + descents(src.kids(id.0 as int));
            &&& ran(src, order, opened) == ran(src, order, work)
            &&& effort(src, opened) < effort(src, work)
        }),
{
    let id = work.last()->Descend_0;
    let i = id.0 as int;
    let base = work.drop_last().push(Task::Emit(id));
    let kids = src.kids(i);
    lemma_term_kids(src, i);
    lemma_ran_descents(src, order, base, i, kids);
    lemma_visited_all(src, order, i, kids);
    let mid = visited_all(src, order, i, kids);
    assert(ExprId(i as u32) == id);
    assert(!mid.contains(id)) by {
        if mid.contains(id) {
            let p = mid.index_of(id);
            if p < order.len() {
                assert(order[p] == mid[p]);
            }
        }
    }
    assert(base.last() == Task::Emit(id));
    assert(base.drop_last() =~= work.drop_last());
    lemma_effort_descents(src, base, kids);
    lemma_weight_kids(src, Seq::empty(), i, kids.len() as int);
    assert(kids.take(kids.len() as int) =~= kids);
    assert(Seq::<ExprId>::empty() + kids =~= kids);
    assert(src.term(i).kids.take(kids.len() as int) =~= src.term(i).kids);
    assert(src.weight(Seq::<ExprId>::empty()) == 0);
}

/// Whenever a node is listed in the course of `work`, its operands have been.
spec fn runnable(src: ArenaModel, order: Seq<ExprId>, work: Seq<Task>) -> bool
    decreases work.len(),
{
    if work.len() == 0 {
        true
    } else {
        &&& work.last() matches Task::Emit(id) ==> order.contains(id) || kids_listed(
            src,
            order,
            id.0 as int,
        )
        &&& runnable(src, stepped(src, order, work.last()), work.drop_last())
    }
}

/// All operands of node `i` are listed.
spec fn kids_listed(src: ArenaModel, order: Seq<ExprId>, i: int) -> bool {
    forall|j: int| 0 <= j < src.kids(i).len() ==> order.contains(#[trigger] src.kids(i)[j])
}

proof fn lemma_runnable_descents(
    src: ArenaModel,
    order: Seq<ExprId>,
    base: Seq<Task>,
    bound: int,
    ids: Seq<ExprId>,
)
    requires
        forall|j: int| 0 <= j < ids.len() ==> (#[trigger] ids[j]).0 < bound,
    ensures
        runnable(src, order, base + descents(ids)) == runnable(
            src,
            visited_all(src, order, bound, ids),
            base,
        ),
    decreases ids.len(),
{
    let w = base + descents(ids);
    if ids.len() == 0 {
        assert(w =~= base);
    } else {
        assert(w.last() == Task::Descend(ids[0]));
        assert(w.drop_last() =~= base + descents(ids.drop_first()));
        assert(ids[0].0 < bound);
        assert forall|j: int| 0 <= j < ids.drop_first().len() implies (
        #[trigger] ids.drop_first()[j]).0 < bound by {
            assert(ids[j + 1].0 < bound);
        }
        lemma_runnable_descents(
            src,
            visited(src, order, ids[0].0 as int),
            base,
            bound,
            ids.drop_first(),
        );
    }
}

/// The tasks are about nodes of the arena.
spec fn tasks_ok(src: ArenaModel, work: Seq<Task>) -> bool {
    forall|k: int| 0 <= k < work.len() ==> 0 <= task_node(#[trigger] work[k]) < src.nodes.len()
}

impl ExprArena {
    /// The nodes of the expression at `root`, once each, operands first and
    /// from left to right.
    pub fn postorder(&self, root: ExprId) -> (order: Vec<ExprId>)
        requires
            self@.wf(),
            self@.has(root),
        ensures
            order@ == postorder(self@, root),
            operands_first(self@, order@),
            order@.contains(root),
    {
        let ghost src = self@;
        let n: usize = self.len();
        let mut seen: Vec<bool> = Vec::new();
        while seen.len() < n
            invariant
                seen@.len() <= n,
                forall|i: int| 0 <= i < seen@.len() ==> !seen@[i],
            decreases n - seen@.len(),
        {
            seen.push(false);
        }
        let mut order: Vec<ExprId> = Vec::new();
        let mut work: Vec<Task> = Vec::new();
        work.push(Task::Descend(root));
        proof {
            assert(work@.drop_last() =~= Seq::<Task>::empty());
            assert(ExprId(root.0) == root);
            assert(ran(src, postorder(src, root), Seq::<Task>::empty()) == postorder(src, root));
            assert(runnable(src, postorder(src, root), Seq::<Task>::empty()));
            lemma_visited(src, Seq::empty(), root.0 as int);
            assert(task_node(work@[0]) == root.0);
        }
        while work.len() > 0
            invariant
                src == self@,
                src.wf(),
                n == src.nodes.len(),
                seen@.len() == n,
                n <= u32::MAX + 1,
                forall|i: int|
                    0 <= i < n ==> #[trigger] seen@[i] == order@.contains(ExprId(i as u32)),
                operands_first(src, order@),
                tasks_ok(src, work@),
                ran(src, order@, work@) == postorder(src, root),
                runnable(src, order@, work@),
            decreases effort(src, work@),
        {
            let ghost w = work@;
            let task: Task = match work.pop() {
                Some(t) => t,
                None => Task::Emit(root),
            };
            proof {
                assert(w[w.len() - 1] == task);
                assert(0 <= task_node(w[w.len() - 1]) < src.nodes.len());
                assert forall|k: int| 0 <= k < work@.len() implies 0 <= task_node(
                    #[trigger] work@[k],
                ) < src.nodes.len() by {
                    assert(work@[k] == w[k]);
                }
            }
            match task {
                Task::Descend(id) => {
                    assert(ExprId(id.0) == id);
                    assert(seen@[id.0 as int] == order@.contains(ExprId(id.0)));
                    assert(src.node_ok(id.0 as int, src.nodes[id.0 as int]));
                    if !seen[id.0 as usize] {
                        let children = self.children(id).collect();
                        proof {
                            lemma_term_kids(src, id.0 as int);
                            lemma_open(src, order@, w);
                            let base = w.drop_last().push(Task::Emit(id));
                            lemma_runnable_descents(
                                src,
                                order@,
                                base,
                                id.0 as int,
                                src.kids(id.0 as int),
                            );
                            lemma_visited_all(
                                src,
                                order@,
                                id.0 as int,
                                src.kids(id.0 as int),
                            );
                            lemma_visited(src, order@, id.0 as int);
                            assert(base.last() == Task::Emit(id));
                            assert(base.drop_last() =~= w.drop_last());
                            let mid = visited_all(
                                src,
                                order@,
                                id.0 as int,
                                src.kids(id.0 as int),
                            );
                            assert(!mid.contains(id)) by {
                                if mid.contains(id) {
                                    let p = mid.index_of(id);
                                    if p < order@.len() {
                                        assert(order@[p] == mid[p]);
                                    }
                                }
                            }
                        }
                        open_up(&mut work, id, &children);
                        proof {
                            let kids = src.kids(id.0 as int);
                            let base = w.drop_last().push(Task::Emit(id));
                            assert forall|k: int| 0 <= k < work@.len() implies 0 <= task_node(
                                #[trigger] work@[k],
                            ) < src.nodes.len() by {
                                if k < base.len() - 1 {
                                    assert(work@[k] == w[k]);
                                } else if k >= base.len() {
                                    let j = kids.len() - 1 - (k - base.len());
                                    assert(work@[k] == Task::Descend(kids[j]));
                                }
                            }
                        }
                    }
                },
                Task::Emit(id) => {
                    assert(ExprId(id.0) == id);
                    assert(seen@[id.0 as int] == order@.contains(ExprId(id.0)));
                    if !seen[id.0 as usize] {
                        proof {
                            lemma_push_ordered(src, order@, id);
                        }
                        let ghost was = order@;
                        seen.set(id.0 as usize, true);
                        order.push(id);
                        assert forall|i: int| 0 <= i < n implies #[trigger] seen@[i]
                            == order@.contains(ExprId(i as u32)) by {
                            let e = ExprId(i as u32);
                            if was.contains(e) {
                                assert(order@[was.index_of(e)] == e);
                            }
                            if e == id {
                                assert(order@[was.len() as int] == e);
                            } else if order@.contains(e) {
                                assert(was[order@.index_of(e)] == e);
                            }
                        }
                    }
                },
            }
        }
        order
    }
}

/// Adds to `work` the tasks of listing `id` after its operands.
fn open_up(work: &mut Vec<Task>, id: ExprId, children: &Vec<ExprId>)
    ensures
        final(work)@ == old(work)@.push(Task::Emit(id)) + descents(children@),
{
    work.push(Task::Emit(id));
    let ghost base = work@;
    let mut left: usize = children.len();
    while left > 0
        invariant
            left <= children@.len(),
            work@ =~= base + descents(children@.skip(left as int)),
        decreases left,
    {
        left -= 1;
        work.push(Task::Descend(children[left]));
        proof {
            let rest = children@.skip(left as int);
            assert(rest.drop_first() =~= children@.skip(left as int + 1));
            assert(descents(rest) =~= descents(rest.drop_first()).push(Task::Descend(rest[0])));
        }
    }
    assert(children@.skip(0) =~= children@);
}

/// The listing holds exactly the nodes the expression uses.
pub proof fn postorder_lists_the_expression(src: ArenaModel, root: ExprId)
    requires
        src.wf(),
        src.has(root),
    ensures
        operands_first(src, postorder(src, root)),
        postorder(src, root).len() > 0,
        postorder(src, root).last() == root,
        forall|i: int|
            0 <= i < src.nodes.len() ==> (#[trigger] crate::arena::link::reaches(
                src,
                root.0 as int,
                i,
            ) <==> postorder(src, root).contains(ExprId(i as u32))),
{
    let order = postorder(src, root);
    lemma_visited(src, Seq::empty(), root.0 as int);
    assert(ExprId(root.0) == root);
    lemma_visited_reaches(src, Seq::empty(), root.0 as int, root.0 as int);
    assert forall|i: int| 0 <= i < src.nodes.len() implies (#[trigger] crate::arena::link::reaches(
        src,
        root.0 as int,
        i,
    ) <==> order.contains(ExprId(i as u32))) by {
        if order.contains(ExprId(i as u32)) {
            let p = order.index_of(ExprId(i as u32));
            assert(order[p].0 as int == i);
        }
        if crate::arena::link::reaches(src, root.0 as int, i) {
            lemma_reached_listed(src, order, root.0 as int, i);
        }
    }
}

/// A list closed under operands holds whatever is reached from its elements.
proof fn lemma_reached_listed(src: ArenaModel, order: Seq<ExprId>, from: int, i: int)
    requires
        src.wf(),
        operands_first(src, order),
        0 <= from < src.nodes.len(),
        0 <= i < src.nodes.len(),
        order.contains(ExprId(from as u32)),
        crate::arena::link::reaches(src, from, i),
    ensures
        order.contains(ExprId(i as u32)),
    decreases from,
{
    if from != i {
        let j = choose|j: int|
            0 <= j < src.kids(from).len() && 0 <= (#[trigger] src.kids(from)[j]).0 < from
                && crate::arena::link::reaches(src, src.kids(from)[j].0 as int, i);
        let k = src.kids(from)[j];
        lemma_term_kids(src, from);
        let p = order.index_of(ExprId(from as u32));
        assert(order[p].0 as int == from);
        assert(occurs_before(order, p, src.kids(order[p].0 as int)[j]));
        assert(order.contains(k));
        assert(ExprId(k.0) == k);
        lemma_reached_listed(src, order, k.0 as int, i);
    }
}

} // verus!
