//! Printing an expression as an S-expression.

use crate::arena::model::{lemma_term_kids, ArenaModel, Term};
use crate::arena::{ExprArena, ExprId, ExprNode};
use crate::kind::OpKind;
use crate::text::{dec, hex_fixed, push_dec, push_hex_fixed};
use vstd::prelude::*;
use vstd::string::*;

verus! {

impl ArenaModel {
    /// What is printed before the operands of node `i`; `consts[i]` is the text
    /// of its value if it is a constant.
    pub open spec fn opening(self, consts: Seq<String>, i: int) -> Seq<char> {
        match self.nodes[i] {
            ExprNode::Var(v) => "Var("@ + dec(v as nat),
            ExprNode::Const(_) => "Const("@ + consts[i]@,
            ExprNode::Param(p) => "Param("@ + dec(p as nat),
            ExprNode::Buffer(b) => "Buffer("@ + dec(b.0 as nat),
            ExprNode::Uniform(u) => "Uniform("@ + dec(u.0 as nat),
            ExprNode::Ref(k) => "Ref(0x"@ + hex_fixed(k.0 as nat, 16),
            ExprNode::Unary(op, _) => op.text() + "("@,
            ExprNode::Binary(op, _, _) => op.text() + "("@,
            ExprNode::Ternary(op, _, _, _) => op.text() + "("@,
            ExprNode::Nary(op, _, _) => op.text() + "("@,
            ExprNode::Reduce { fold, body: _ } => OpKind::Reduce.text() + "_"@ + dec(
                fold.binder.0 as nat,
            ) + "over("@ + dec(fold.start as nat) + ".."@ + dec(fold.end as nat) + ")("@,
        }
    }

    /// The printed form of node `i`.
    pub open spec fn printed(self, consts: Seq<String>, i: int) -> Seq<char>
        decreases i, self.kids(i).len() + 1,
    {
        self.opening(consts, i) + self.printed_list(consts, i, self.kids(i)) + ")"@
    }

    /// The printed forms of `ids`, all below `bound`, separated by commas.
    pub open spec fn printed_list(self, consts: Seq<String>, bound: int, ids: Seq<ExprId>) -> Seq<
        char,
    >
        decreases bound, ids.len(),
    {
        if ids.len() == 0 {
            Seq::empty()
        } else {
            let first = if 0 <= ids[0].0 < bound {
                self.printed(consts, ids[0].0 as int)
            } else {
                Seq::empty()
            };
            if ids.len() == 1 {
                first
            } else {
                first + ", "@ + self.printed_list(consts, bound, ids.drop_first())
            }
        }
    }
}

/// What remains to be printed.
#[derive(Clone, Copy)]
enum Task {
    Visit(ExprId),
    Close,
    Comma,
}

spec fn task_text(m: ArenaModel, consts: Seq<String>, t: Task) -> Seq<char> {
    match t {
        Task::Visit(id) => m.printed(consts, id.0 as int),
        Task::Close => ")"@,
        Task::Comma => ", "@,
    }
}

/// The text of a list of tasks, the last one first.
spec fn pending(m: ArenaModel, consts: Seq<String>, s: Seq<Task>) -> Seq<char>
    decreases s.len(),
{
    if s.len() == 0 {
        Seq::empty()
    } else {
        task_text(m, consts, s.last()) + pending(m, consts, s.drop_last())
    }
}

/// Bound on the remaining work: it falls with every task taken.
spec fn effort(m: ArenaModel, s: Seq<Task>) -> nat
    decreases s.len(),
{
    if s.len() == 0 {
        0
    } else {
        effort(m, s.drop_last()) + match s.last() {
            Task::Visit(id) => (3 * m.term(id.0 as int).size() - 1) as nat,
            _ => 1,
        }
    }
}

spec fn visits_in(m: ArenaModel, s: Seq<Task>) -> bool {
    forall|k: int| 0 <= k < s.len() ==> ((#[trigger] s[k]) matches Task::Visit(id) ==> m.has(id))
}

/// The text of the operands from `left` on, with the separator before them.
spec fn tail_text(m: ArenaModel, consts: Seq<String>, i: int, left: int) -> Seq<char> {
    let kids = m.kids(i);
    if left >= kids.len() {
        Seq::empty()
    } else if left == 0 {
        m.printed_list(consts, i, kids)
    } else {
        ", "@ + m.printed_list(consts, i, kids.skip(left))
    }
}

proof fn lemma_tail(m: ArenaModel, consts: Seq<String>, i: int, left: int)
    requires
        m.wf(),
        0 <= i < m.nodes.len(),
        0 <= left < m.kids(i).len(),
    ensures
        tail_text(m, consts, i, left) == (if left > 0 {
            ", "@
        } else {
            Seq::empty()
        }) + m.printed(consts, m.kids(i)[left].0 as int) + tail_text(m, consts, i, left + 1),
{
    lemma_term_kids(m, i);
    let kids = m.kids(i);
    let rest = kids.skip(left);
    assert(rest[0] == kids[left]);
    assert(0 <= kids[left].0 < i);
    assert(kids.skip(0) =~= kids);
    if left + 1 < kids.len() {
        assert(rest.drop_first() =~= kids.skip(left + 1));
        assert(m.printed_list(consts, i, rest) =~= m.printed(consts, kids[left].0 as int) + (", "@
            + m.printed_list(consts, i, kids.skip(left + 1))));
    }
    assert(tail_text(m, consts, i, left) =~= (if left > 0 {
        ", "@
    } else {
        Seq::empty()
    }) + m.printed(consts, m.kids(i)[left].0 as int) + tail_text(m, consts, i, left + 1));
}

impl ExprArena {
    /// Appends what is printed before the operands of `id`.
    fn fmt_opening(&self, id: ExprId, consts: &Vec<String>, out: &mut String)
        requires
            self@.has(id),
            consts@.len() == self@.nodes.len(),
        ensures
            final(out)@ == old(out)@ + self@.opening(consts@, id.0 as int),
    {
        match self.nodes[id.0 as usize] {
            ExprNode::Var(i) => {
                out.append("Var(");
                push_dec(out, i as u64);
            },
            ExprNode::Const(_) => {
                out.append("Const(");
                out.append(consts[id.0 as usize].as_str());
            },
            ExprNode::Param(i) => {
                out.append("Param(");
                push_dec(out, i as u64);
            },
            ExprNode::Buffer(b) => {
                out.append("Buffer(");
                push_dec(out, b.0 as u64);
            },
            ExprNode::Uniform(u) => {
                out.append("Uniform(");
                push_dec(out, u.0 as u64);
            },
            ExprNode::Ref(k) => {
                out.append("Ref(0x");
                push_hex_fixed(out, k.bits(), 16);
            },
            ExprNode::Unary(op, _) => {
                out.append(op.name());
                out.append("(");
            },
            ExprNode::Binary(op, _, _) => {
                out.append(op.name());
                out.append("(");
            },
            ExprNode::Ternary(op, _, _, _) => {
                out.append(op.name());
                out.append("(");
            },
            ExprNode::Nary(op, _, _) => {
                out.append(op.name());
                out.append("(");
            },
            ExprNode::Reduce { fold, body: _ } => {
                out.append(OpKind::Reduce.name());
                out.append("_");
                push_dec(out, fold.binder().var() as u64);
                out.append("over(");
                push_dec(out, fold.range().start as u64);
                out.append("..");
                push_dec(out, fold.range().end as u64);
                out.append(")(");
            },
        }
        assert(out@ =~= old(out)@ + self@.opening(consts@, id.0 as int));
    }

    /// The expression at `root` as an S-expression. `consts[i]` is the decimal
    /// text of the value of node `i`, used where that node is a constant.
    pub fn fmt_expr(&self, root: ExprId, consts: &Vec<String>) -> (out: String)
        requires
            self@.wf(),
            self@.has(root),
            consts@.len() == self@.nodes.len(),
        ensures
            out@ == self@.printed(consts@, root.0 as int),
    {
        let ghost m = self@;
        let ghost want = m.printed(consts@, root.0 as int);
        let mut out = String::new();
        let mut stack: Vec<Task> = Vec::new();
        stack.push(Task::Visit(root));
        proof {
            assert(stack@.drop_last() =~= Seq::<Task>::empty());
            assert(pending(m, consts@, Seq::<Task>::empty()) =~= Seq::<char>::empty());
            assert(out@ + pending(m, consts@, stack@) =~= want);
        }
        while stack.len() > 0
            invariant
                m == self@,
                m.wf(),
                consts@.len() == m.nodes.len(),
                visits_in(m, stack@),
                out@ + pending(m, consts@, stack@) =~= want,
            decreases effort(m, stack@),
        {
            let ghost s = stack@;
            let ghost done = out@;
            let task: Task = match stack.pop() {
                Some(t) => t,
                None => Task::Close,
            };
            let ghost base = stack@;
            proof {
                assert(s[s.len() - 1] == task);
                assert(base =~= s.drop_last());
                assert forall|k: int| 0 <= k < base.len() implies ((#[trigger] base[k])
                    matches Task::Visit(id) ==> m.has(id)) by {
                    assert(base[k] == s[k]);
                }
            }
            match task {
                Task::Close => {
                    out.append(")");
                },
                Task::Comma => {
                    out.append(", ");
                },
                Task::Visit(id) => {
                    let ghost i = id.0 as int;
                    proof {
                        lemma_term_kids(m, i);
                        assert(m.node_ok(i, m.nodes[i]));
                    }
                    self.fmt_opening(id, consts, &mut out);
                    let children = self.children(id).collect();
                    stack.push(Task::Close);
                    proof {
                        assert(stack@.drop_last() =~= base);
                        assert(pending(m, consts@, stack@) == ")"@ + pending(m, consts@, base));
                        assert(effort(m, stack@) == effort(m, base) + 1);
                        assert(tail_text(m, consts@, i, children@.len() as int) + (")"@ + pending(
                            m,
                            consts@,
                            base,
                        )) =~= ")"@ + pending(m, consts@, base));
                        assert(m.term(i).kids.skip(children@.len() as int) =~= Seq::<Term>::empty());
                        assert(sizes_front(m.term(i).kids.skip(children@.len() as int)) == 0);
                    }
                    let mut left: usize = children.len();
                    while left > 0
                        invariant
                            m == self@,
                            m.wf(),
                            0 <= i < m.nodes.len(),
                            children@ == m.kids(i),
                            m.term(i).kids.len() == children@.len(),
                            left <= children@.len(),
                            visits_in(m, stack@),
                            pending(m, consts@, stack@) == tail_text(m, consts@, i, left as int)
                                + (")"@ + pending(m, consts@, base)),
                            effort(m, stack@) <= effort(m, base) + 1 + 3 * sizes_front(
                                m.term(i).kids.skip(left as int),
                            ),
                        decreases left,
                    {
                        left -= 1;
                        let ghost before = stack@;
                        let c: ExprId = children[left];
                        proof {
                            lemma_term_kids(m, i);
                            lemma_tail(m, consts@, i, left as int);
                            assert(m.kids(i)[left as int].0 < i);
                            let ts = m.term(i).kids.skip(left as int);
                            assert(ts.drop_first() =~= m.term(i).kids.skip(left as int + 1));
                            assert(ts[0] == m.term(c.0 as int));
                        }
                        stack.push(Task::Visit(c));
                        let ghost mid = stack@;
                        proof {
                            assert(mid.drop_last() =~= before);
                            assert(pending(m, consts@, mid) == m.printed(consts@, c.0 as int)
                                + pending(m, consts@, before));
                            assert(effort(m, mid) == effort(m, before) + (3 * m.term(
                                c.0 as int,
                            ).size() - 1));
                        }
                        if left > 0 {
                            stack.push(Task::Comma);
                            proof {
                                assert(stack@.drop_last() =~= mid);
                                assert(pending(m, consts@, stack@) == ", "@ + pending(
                                    m,
                                    consts@,
                                    mid,
                                ));
                            }
                        }
                        proof {
                            assert(pending(m, consts@, stack@) =~= tail_text(
                                m,
                                consts@,
                                i,
                                left as int,
                            ) + (")"@ + pending(m, consts@, base)));
                        }
                    }
                    proof {
                        assert(m.term(i).kids.skip(0) =~= m.term(i).kids);
                        lemma_sizes_front(m.term(i).kids);
                        assert(m.printed(consts@, i) + pending(m, consts@, base) =~= m.opening(
                            consts@,
                            i,
                        ) + pending(m, consts@, stack@));
                        lemma_effort_room(m, i);
                    }
                },
            }
        }
        out
    }

    /// A printable handle on the expression at `root`.
    pub fn display(&self, root: ExprId) -> (d: DisplayExpr<'_>)
        ensures
            d.arena() == self@,
            d.root() == root,
    {
        DisplayExpr { arena: self, root }
    }
}

/// [`Term::sizes`] counted from the front.
spec fn sizes_front(ts: Seq<Term>) -> nat
    decreases ts.len(),
{
    if ts.len() == 0 {
        0
    } else {
        ts[0].size() + sizes_front(ts.drop_first())
    }
}

proof fn lemma_sizes_front(ts: Seq<Term>)
    ensures
        sizes_front(ts) == Term::sizes(ts),
        sizes_front(ts) >= ts.len(),
    decreases ts.len(),
{
    if ts.len() > 0 {
        let front = ts.drop_last();
        lemma_sizes_front(front);
        lemma_sizes_front(ts.drop_first());
        if front.len() > 0 {
            assert(front.drop_first() =~= ts.drop_first().drop_last());
            lemma_sizes_front(front.drop_first());
        } else {
            assert(ts.drop_first() =~= Seq::<Term>::empty());
            assert(front =~= Seq::<Term>::empty());
        }
    }
}

proof fn lemma_effort_room(m: ArenaModel, i: int)
    ensures
        m.term(i).size() == 1 + Term::sizes(m.term(i).kids),
{
}

/// A printable handle on the expression at a node.
pub struct DisplayExpr<'a> {
    arena: &'a ExprArena,
    root: ExprId,
}

impl<'a> DisplayExpr<'a> {
    /// The arena printed from.
    pub closed spec fn arena(&self) -> ArenaModel {
        self.arena@
    }

    /// The node printed.
    pub closed spec fn root(&self) -> ExprId {
        self.root
    }

    /// The printed form. `consts[i]` is the decimal text of the value of node
    /// `i`, used where that node is a constant.
    pub fn text(&self, consts: &Vec<String>) -> (out: String)
        requires
            self.arena().wf(),
            self.arena().has(self.root()),
            consts@.len() == self.arena().nodes.len(),
        ensures
            out@ == self.arena().printed(consts@, self.root().0 as int),
    {
        self.arena.fmt_expr(self.root, consts)
    }
}

} // verus!
