//! The value cache and the evaluator that reads and fills it.
//!
//! The evaluator walks down from the term with a stack of the nodes that
//! are under evaluation, each with the number of its children that have
//! been seen to. It never enters a cached node, so that a node is evaluated
//! at most once for one cache.

use vstd::prelude::*;
use fxhash::FxHashMap;
use crate::eval::{
    apply_at, apply_op, closed, eval_children, eval_term, failure_of, lemma_children_err, lemma_children_ok,
    lemma_closed_reaches, memo_after, Env, EvalError, Memo,
};
use crate::names::value_entries;
use crate::term::{child_of, children_first, lemma_reaches_child, reaches, NodeView, Term, TermGraph, Value};

verus! {

/// What a list of slots holds: the nodes whose slots are filled, each with
/// the value in its slot.
pub closed spec fn slots_memo(slots: Seq<Option<Value>>) -> Memo {
    Map::new(
        |t: Term| t.index < slots.len() && slots[t.index as int] is Some,
        |t: Term| slots[t.index as int]->Some_0,
    )
}

/// A cache of values, one slot for each node.
#[derive(Clone, Debug)]
pub struct ValueCache {
    slots: Vec<Option<Value>>,
}

impl View for ValueCache {
    type V = Memo;

    closed spec fn view(&self) -> Memo {
        slots_memo(self.slots@)
    }
}

impl ValueCache {
    /// Whether this is a cache for `g`: it holds nodes of `g` only, and with
    /// each node its children.
    pub open spec fn wf(&self, g: &TermGraph) -> bool {
        closed(g@, self@)
    }

    /// A cache that holds nothing.
    pub fn new() -> (c: ValueCache)
        ensures
            c@ == (Map::<Term, Value>::empty()),
    {
        let c = ValueCache { slots: Vec::new() };
        assert(c@ =~= Map::<Term, Value>::empty());
        c
    }

    /// The cached value of `t`, if it has one.
    pub fn get(&self, t: Term) -> (r: Option<Value>)
        ensures
            r == (if self@.contains_key(t) {
                Some(self@[t])
            } else {
                None
            }),
    {
        if t.index < self.slots.len() {
            self.slots[t.index]
        } else {
            None
        }
    }

    /// Makes room for the nodes below `n`.
    fn grow(&mut self, n: usize)
        ensures
            final(self)@ == old(self)@,
            final(self).slots@.len() >= n,
    {
        while self.slots.len() < n
            invariant
                self@ =~= old(self)@,
            decreases n - self.slots.len(),
        {
            self.slots.push(None);
        }
    }

    /// Fills or empties the slot of `t`.
    fn put(&mut self, t: Term, v: Option<Value>)
        requires
            t.index < old(self).slots@.len(),
        ensures
            final(self).slots@ == old(self).slots@.update(t.index as int, v),
            final(self)@ == (match v {
                Some(x) => old(self)@.insert(t, x),
                None => old(self)@.remove(t),
            }),
    {
        self.slots.set(t.index, v);
        proof {
            match v {
                Some(x) => {
                    assert(self@ =~= old(self)@.insert(t, x));
                },
                None => {
                    assert(self@ =~= old(self)@.remove(t));
                },
            }
        }
    }
}

/// A node under evaluation, and how many of its children have been seen to.
#[derive(Clone, Copy)]
struct Frame {
    node: Term,
    next: usize,
}

/// Whether `stack` and `cur` are a state of the walk that evaluates `t`
/// from the cache `memo`.
///
/// `cur` is `memo` and the nodes evaluated so far, each with its value. The
/// stack is a path from `t` downwards: each frame but the top one waits for
/// the child that is the frame above it, and the children before that one
/// are cached. No node on the stack is cached.
#[verifier::opaque]
spec fn walking(nodes: Seq<NodeView>, env: Env, memo: Memo, t: Term, stack: Seq<Frame>, cur: Memo) -> bool {
    &&& forall|n: Term| #[trigger]
        cur.contains_key(n) ==> eval_term(nodes, env, memo, n) == Ok::<Value, EvalError>(cur[n])
    &&& forall|n: Term| memo.contains_key(n) ==> cur.contains_key(n)
    &&& forall|n: Term| #[trigger] cur.contains_key(n) && !memo.contains_key(n) ==> reaches(nodes, t, n)
    &&& closed(nodes, cur)
    &&& stack.len() == 0 ==> cur.contains_key(t)
    &&& stack.len() > 0 ==> stack[0].node == t
    &&& forall|p: int|
        0 <= p < stack.len() ==> {
            &&& (#[trigger] stack[p]).node.index < nodes.len()
            &&& !cur.contains_key(stack[p].node)
            &&& stack[p].next <= nodes[stack[p].node.index as int].cs.len()
            &&& reaches(nodes, t, stack[p].node)
        }
    &&& forall|p: int, q: int| 0 <= p < q < stack.len() ==> stack[q].node.index < stack[p].node.index
    &&& forall|p: int|
        0 <= p < stack.len() - 1 ==> (#[trigger] stack[p]).next >= 1 && nodes[stack[p].node.index as int].cs[stack[p].next
            - 1] == stack[p + 1].node
    &&& forall|p: int, j: int|
        0 <= p < stack.len() && 0 <= j < stack[p].next && j < stack[p].next - (if p == stack.len() - 1 {
            0int
        } else {
            1int
        }) ==> cur.contains_key(#[trigger] nodes[stack[p].node.index as int].cs[j])
}

/// The walk starts at a term that is not cached with that term on the stack.
proof fn lemma_walk_start(nodes: Seq<NodeView>, env: Env, memo: Memo, t: Term)
    requires
        closed(nodes, memo),
        t.index < nodes.len(),
        !memo.contains_key(t),
    ensures
        walking(nodes, env, memo, t, seq![Frame { node: t, next: 0 }], memo),
{
    reveal(walking);
}

/// The walk of a term that is cached has nothing to do.
proof fn lemma_walk_cached(nodes: Seq<NodeView>, env: Env, memo: Memo, t: Term)
    requires
        closed(nodes, memo),
        memo.contains_key(t),
    ensures
        walking(nodes, env, memo, t, Seq::empty(), memo),
{
    reveal(walking);
}

/// What holds of the top frame.
proof fn lemma_walk_top(nodes: Seq<NodeView>, env: Env, memo: Memo, t: Term, stack: Seq<Frame>, cur: Memo)
    requires
        walking(nodes, env, memo, t, stack, cur),
        stack.len() > 0,
    ensures
        stack.last().node.index < nodes.len(),
        stack.last().next <= nodes[stack.last().node.index as int].cs.len(),
        !cur.contains_key(stack.last().node),
        !memo.contains_key(stack.last().node),
        forall|j: int|
            0 <= j < stack.last().next ==> cur.contains_key(#[trigger] nodes[stack.last().node.index as int].cs[j]),
{
    reveal(walking);
    let top = stack.len() - 1;
    assert(stack[top].node.index < nodes.len());
}

/// The walk goes past a child that is cached.
proof fn lemma_walk_skip(
    nodes: Seq<NodeView>,
    env: Env,
    memo: Memo,
    t: Term,
    stack: Seq<Frame>,
    cur: Memo,
    next: usize,
)
    requires
        walking(nodes, env, memo, t, stack, cur),
        stack.len() > 0,
        stack.last().next < nodes[stack.last().node.index as int].cs.len(),
        cur.contains_key(nodes[stack.last().node.index as int].cs[stack.last().next as int]),
        next == stack.last().next + 1,
    ensures
        walking(nodes, env, memo, t, stack.update(stack.len() - 1, Frame { node: stack.last().node, next }), cur),
{
    reveal(walking);
    let top = stack.len() - 1;
    let after = stack.update(top, Frame { node: stack.last().node, next });
    assert forall|p: int|
        0 <= p < after.len() implies {
        &&& (#[trigger] after[p]).node.index < nodes.len()
        &&& !cur.contains_key(after[p].node)
        &&& after[p].next <= nodes[after[p].node.index as int].cs.len()
        &&& reaches(nodes, t, after[p].node)
    } by {
        assert(stack[p].node == after[p].node);
    }
    assert forall|p: int, q: int| 0 <= p < q < after.len() implies after[q].node.index < after[p].node.index by {
        assert(stack[q].node.index < stack[p].node.index);
    }
    assert forall|p: int|
        0 <= p < after.len() - 1 implies (#[trigger] after[p]).next >= 1 && nodes[after[p].node.index as int].cs[after[p].next
        - 1] == after[p + 1].node by {
        assert(stack[p].next >= 1);
        assert(after[p + 1].node == stack[p + 1].node);
    }
    assert forall|p: int, j: int|
        0 <= p < after.len() && 0 <= j < after[p].next && j < after[p].next - (if p == after.len() - 1 {
            0int
        } else {
            1int
        }) implies cur.contains_key(#[trigger] nodes[after[p].node.index as int].cs[j]) by {
        if p < top {
            assert(after[p] == stack[p]);
            assert(cur.contains_key(nodes[stack[p].node.index as int].cs[j]));
        } else if j < stack[p].next {
            assert(cur.contains_key(nodes[stack[p].node.index as int].cs[j]));
        }
    }
}

/// The walk goes down into a child that is not cached.
proof fn lemma_walk_push(
    nodes: Seq<NodeView>,
    env: Env,
    memo: Memo,
    t: Term,
    stack: Seq<Frame>,
    cur: Memo,
    next: usize,
)
    requires
        children_first(nodes),
        walking(nodes, env, memo, t, stack, cur),
        stack.len() > 0,
        stack.last().next < nodes[stack.last().node.index as int].cs.len(),
        !cur.contains_key(nodes[stack.last().node.index as int].cs[stack.last().next as int]),
        next == stack.last().next + 1,
    ensures
        walking(
            nodes,
            env,
            memo,
            t,
            stack.update(stack.len() - 1, Frame { node: stack.last().node, next }).push(
                Frame { node: nodes[stack.last().node.index as int].cs[stack.last().next as int], next: 0 },
            ),
            cur,
        ),
{
    reveal(walking);
    let top = stack.len() - 1;
    let n = stack.last().node;
    let c = nodes[n.index as int].cs[stack.last().next as int];
    let after = stack.update(top, Frame { node: n, next }).push(Frame { node: c, next: 0 });
    assert(stack[top].node.index < nodes.len());
    assert(c.index < n.index);
    assert(child_of(nodes, n, c));
    lemma_reaches_child(nodes, t, n, c);
    assert forall|p: int|
        0 <= p < after.len() implies {
        &&& (#[trigger] after[p]).node.index < nodes.len()
        &&& !cur.contains_key(after[p].node)
        &&& after[p].next <= nodes[after[p].node.index as int].cs.len()
        &&& reaches(nodes, t, after[p].node)
    } by {
        if p <= top {
            assert(stack[p].node == after[p].node);
        }
    }
    assert forall|p: int, q: int| 0 <= p < q < after.len() implies after[q].node.index < after[p].node.index by {
        if q <= top {
            assert(stack[q].node.index < stack[p].node.index);
        } else if p < top {
            assert(stack[top].node.index < stack[p].node.index);
        }
    }
    assert forall|p: int|
        0 <= p < after.len() - 1 implies (#[trigger] after[p]).next >= 1 && nodes[after[p].node.index as int].cs[after[p].next
        - 1] == after[p + 1].node by {
        if p < top {
            assert(stack[p].next >= 1);
            assert(after[p] == stack[p]);
            assert(after[p + 1].node == stack[p + 1].node);
        } else {
            assert(after[p].next - 1 == stack[top].next);
            assert(after[p + 1].node == c);
        }
    }
    assert forall|p: int, j: int|
        0 <= p < after.len() && 0 <= j < after[p].next && j < after[p].next - (if p == after.len() - 1 {
            0int
        } else {
            1int
        }) implies cur.contains_key(#[trigger] nodes[after[p].node.index as int].cs[j]) by {
        if p < top {
            assert(after[p] == stack[p]);
            assert(cur.contains_key(nodes[stack[p].node.index as int].cs[j]));
        } else if p == top {
            assert(cur.contains_key(nodes[stack[p].node.index as int].cs[j]));
        }
    }
}

/// When all children of the top node have been seen to, the node evaluates
/// to what its operator makes of their cached values.
proof fn lemma_walk_ready(
    nodes: Seq<NodeView>,
    env: Env,
    memo: Memo,
    t: Term,
    stack: Seq<Frame>,
    cur: Memo,
    args: Seq<Value>,
)
    requires
        children_first(nodes),
        walking(nodes, env, memo, t, stack, cur),
        stack.len() > 0,
        stack.last().next == nodes[stack.last().node.index as int].cs.len(),
        args.len() == nodes[stack.last().node.index as int].cs.len(),
        forall|j: int| 0 <= j < args.len() ==> #[trigger] args[j] == cur[nodes[stack.last().node.index as int].cs[j]],
    ensures
        eval_term(nodes, env, memo, stack.last().node) == apply_at(
            nodes[stack.last().node.index as int],
            args,
            env,
            stack.last().node,
        ),
{
    reveal(walking);
    let n = stack.last().node;
    let top = stack.len() - 1;
    assert(stack[top].node.index < nodes.len());
    lemma_children_ok(nodes, env, memo, n, args.len());
    assert forall|j: int| 0 <= j < args.len() implies eval_term(
        nodes,
        env,
        memo,
        #[trigger] nodes[n.index as int].cs[j],
    ) == Ok::<Value, EvalError>(args[j]) by {
        assert(cur.contains_key(nodes[stack[top].node.index as int].cs[j]));
    }
    let found = eval_children(nodes, env, memo, n, args.len())->Ok_0;
    assert forall|j: int| 0 <= j < args.len() implies found[j] == args[j] by {
        assert(eval_term(nodes, env, memo, nodes[n.index as int].cs[j]) == Ok::<Value, EvalError>(found[j]));
    }
    assert(found =~= args);
}

/// The walk leaves a node that it has given its value.
proof fn lemma_walk_pop(nodes: Seq<NodeView>, env: Env, memo: Memo, t: Term, stack: Seq<Frame>, cur: Memo, v: Value)
    requires
        walking(nodes, env, memo, t, stack, cur),
        stack.len() > 0,
        stack.last().next == nodes[stack.last().node.index as int].cs.len(),
        eval_term(nodes, env, memo, stack.last().node) == Ok::<Value, EvalError>(v),
    ensures
        walking(nodes, env, memo, t, stack.drop_last(), cur.insert(stack.last().node, v)),
{
    reveal(walking);
    let top = stack.len() - 1;
    let n = stack.last().node;
    let after = stack.drop_last();
    let next = cur.insert(n, v);
    assert(stack[top].node.index < nodes.len());
    assert forall|x: Term| #[trigger] next.contains_key(x) implies x.index < nodes.len() && forall|j: int|
        0 <= j < nodes[x.index as int].cs.len() ==> next.contains_key(#[trigger] nodes[x.index as int].cs[j]) by {
        if x == n {
            assert forall|j: int| 0 <= j < nodes[x.index as int].cs.len() implies next.contains_key(
                #[trigger] nodes[x.index as int].cs[j],
            ) by {
                assert(cur.contains_key(nodes[stack[top].node.index as int].cs[j]));
            }
        } else {
            assert(cur.contains_key(x));
        }
    }
    assert forall|x: Term| #[trigger] next.contains_key(x) && !memo.contains_key(x) implies reaches(nodes, t, x) by {
        if x != n {
            assert(cur.contains_key(x));
        }
    }
    assert forall|p: int|
        0 <= p < after.len() implies {
        &&& (#[trigger] after[p]).node.index < nodes.len()
        &&& !next.contains_key(after[p].node)
        &&& after[p].next <= nodes[after[p].node.index as int].cs.len()
        &&& reaches(nodes, t, after[p].node)
    } by {
        assert(after[p] == stack[p]);
        assert(stack[top].node.index < stack[p].node.index);
    }
    assert forall|p: int, q: int| 0 <= p < q < after.len() implies after[q].node.index < after[p].node.index by {
        assert(stack[q].node.index < stack[p].node.index);
    }
    assert forall|p: int|
        0 <= p < after.len() - 1 implies (#[trigger] after[p]).next >= 1 && nodes[after[p].node.index as int].cs[after[p].next
        - 1] == after[p + 1].node by {
        assert(after[p] == stack[p]);
        assert(after[p + 1] == stack[p + 1]);
    }
    assert forall|p: int, j: int|
        0 <= p < after.len() && 0 <= j < after[p].next && j < after[p].next - (if p == after.len() - 1 {
            0int
        } else {
            1int
        }) implies next.contains_key(#[trigger] nodes[after[p].node.index as int].cs[j]) by {
        assert(after[p] == stack[p]);
        if j < stack[p].next - 1 {
            assert(cur.contains_key(nodes[stack[p].node.index as int].cs[j]));
        } else {
            assert(p == top - 1);
            assert(stack[p].next >= 1);
            assert(nodes[stack[p].node.index as int].cs[stack[p].next - 1] == stack[p + 1].node);
        }
    }
    if after.len() == 0 {
        assert(stack[0].node == t);
    } else {
        assert(after[0] == stack[0]);
    }
}

/// Where the top node fails, so does each node on the stack, with the same
/// error.
proof fn lemma_walk_fails(
    nodes: Seq<NodeView>,
    env: Env,
    memo: Memo,
    t: Term,
    stack: Seq<Frame>,
    cur: Memo,
    e: EvalError,
    p: int,
)
    requires
        children_first(nodes),
        walking(nodes, env, memo, t, stack, cur),
        0 <= p < stack.len(),
        eval_term(nodes, env, memo, stack.last().node) == Err::<Value, EvalError>(e),
    ensures
        eval_term(nodes, env, memo, stack[p].node) == Err::<Value, EvalError>(e),
    decreases stack.len() - p,
{
    reveal(walking);
    if p < stack.len() - 1 {
        lemma_walk_fails(nodes, env, memo, t, stack, cur, e, p + 1);
        let n = stack[p].node;
        let m = stack[p].next - 1;
        assert(n.index < nodes.len());
        assert(!cur.contains_key(n));
        assert(nodes[n.index as int].cs[m] == stack[p + 1].node);
        assert forall|j: int| 0 <= j < m implies eval_term(nodes, env, memo, #[trigger] nodes[n.index as int].cs[j]) is Ok by {
            assert(cur.contains_key(nodes[stack[p].node.index as int].cs[j]));
        }
        lemma_children_err(nodes, env, memo, n, m, nodes[n.index as int].cs.len());
    }
}

/// Where the top node fails, the evaluation of `t` fails with the same error.
proof fn lemma_walk_fails_root(
    nodes: Seq<NodeView>,
    env: Env,
    memo: Memo,
    t: Term,
    stack: Seq<Frame>,
    cur: Memo,
    e: EvalError,
)
    requires
        children_first(nodes),
        walking(nodes, env, memo, t, stack, cur),
        stack.len() > 0,
        eval_term(nodes, env, memo, stack.last().node) == Err::<Value, EvalError>(e),
    ensures
        eval_term(nodes, env, memo, t) == Err::<Value, EvalError>(e),
{
    lemma_walk_fails(nodes, env, memo, t, stack, cur, e, 0);
    reveal(walking);
}

/// When the stack is empty, the cache is the one that the evaluation of `t`
/// leaves, and holds the value of `t`.
proof fn lemma_walk_done(nodes: Seq<NodeView>, env: Env, memo: Memo, t: Term, cur: Memo)
    requires
        walking(nodes, env, memo, t, Seq::empty(), cur),
    ensures
        cur == memo_after(nodes, env, memo, t),
        cur.contains_key(t),
        eval_term(nodes, env, memo, t) == Ok::<Value, EvalError>(cur[t]),
        closed(nodes, cur),
{
    reveal(walking);
    assert forall|n: Term| cur.contains_key(n) <==> memo.contains_key(n) || reaches(nodes, t, n) by {
        if reaches(nodes, t, n) {
            lemma_closed_reaches(nodes, cur, t, n);
        }
    }
    assert(cur =~= memo_after(nodes, env, memo, t));
}

/// The slots that are empty.
spec fn empty_slots(slots: Seq<Option<Value>>) -> Set<int> {
    Set::new(|i: int| 0 <= i < slots.len() && slots[i] is None)
}

/// Filling an empty slot leaves fewer empty slots.
proof fn lemma_fill_slot(slots: Seq<Option<Value>>, i: int, v: Value)
    requires
        0 <= i < slots.len(),
        slots[i] is None,
    ensures
        empty_slots(slots.update(i, Some(v))).len() < empty_slots(slots).len(),
{
    let all = vstd::set_lib::set_int_range(0, slots.len() as int);
    vstd::set_lib::lemma_int_range(0, slots.len() as int);
    assert(empty_slots(slots).subset_of(all));
    vstd::set_lib::lemma_len_subset(empty_slots(slots), all);
    assert(empty_slots(slots.update(i, Some(v))) =~= empty_slots(slots).remove(i));
    assert(empty_slots(slots).contains(i));
}

/// The index of the node on top of the stack.
spec fn top_index(stack: Seq<Frame>) -> nat {
    if stack.len() > 0 {
        stack.last().node.index as nat
    } else {
        0
    }
}

/// The number of children of the node on top of the stack that have not
/// been seen to.
spec fn top_left(nodes: Seq<NodeView>, stack: Seq<Frame>) -> nat {
    if stack.len() > 0 && stack.last().node.index < nodes.len() && stack.last().next <= nodes[stack.last().node.index as int].cs.len() {
        (nodes[stack.last().node.index as int].cs.len() - stack.last().next) as nat
    } else {
        0
    }
}

/// The cached values of the children of `n`, in order.
fn cached_args(g: &TermGraph, n: Term, cache: &ValueCache) -> (args: Vec<Value>)
    requires
        g.contains(n),
        forall|q: int|
            0 <= q < g@[n.index as int].cs.len() ==> cache@.contains_key(#[trigger] g@[n.index as int].cs[q]),
    ensures
        args@.len() == g@[n.index as int].cs.len(),
        forall|q: int| 0 <= q < args@.len() ==> #[trigger] args@[q] == cache@[g@[n.index as int].cs[q]],
{
    let cs = g.children(n);
    let mut args: Vec<Value> = Vec::new();
    let mut j: usize = 0;
    while j < cs.len()
        invariant
            0 <= j <= cs.len(),
            cs@ == g@[n.index as int].cs,
            forall|q: int|
                0 <= q < g@[n.index as int].cs.len() ==> cache@.contains_key(
                    #[trigger] g@[n.index as int].cs[q],
                ),
            args@.len() == j,
            forall|q: int| 0 <= q < j ==> #[trigger] args@[q] == cache@[g@[n.index as int].cs[q]],
        decreases cs.len() - j,
    {
        assert(cache@.contains_key(g@[n.index as int].cs[j as int]));
        match cache.get(cs[j]) {
            Some(v) => {
                args.push(v);
            },
            None => {
                assert(false);
            },
        }
        j += 1;
    }
    args
}

/// Whether `slots` is `base` with the slots of `fresh` filled: the two
/// differ at these only, and there `base` is empty.
#[verifier::opaque]
spec fn filled(base: Seq<Option<Value>>, fresh: Seq<Term>, slots: Seq<Option<Value>>) -> bool {
    &&& slots.len() == base.len()
    &&& forall|p: int| 0 <= p < fresh.len() ==> (#[trigger] fresh[p]).index < base.len() && base[fresh[p].index as int] is None
    &&& forall|i: int|
        0 <= i < base.len() && #[trigger] slots[i] != base[i] ==> exists|p: int|
            0 <= p < fresh.len() && fresh[p].index == i
}

/// Nothing is filled at the start.
proof fn lemma_filled_start(base: Seq<Option<Value>>)
    ensures
        filled(base, Seq::empty(), base),
{
    reveal(filled);
}

/// Filling one more slot that is empty in `base`.
proof fn lemma_filled_push(base: Seq<Option<Value>>, fresh: Seq<Term>, slots: Seq<Option<Value>>, n: Term, v: Value)
    requires
        filled(base, fresh, slots),
        n.index < base.len(),
        !slots_memo(base).contains_key(n),
    ensures
        filled(base, fresh.push(n), slots.update(n.index as int, Some(v))),
{
    reveal(filled);
    let fresh2 = fresh.push(n);
    let slots2 = slots.update(n.index as int, Some(v));
    assert(fresh2[fresh.len() as int] == n);
    assert forall|i: int| 0 <= i < base.len() && #[trigger] slots2[i] != base[i] implies exists|p: int|
        0 <= p < fresh2.len() && fresh2[p].index == i by {
        if i != n.index {
            assert(slots[i] != base[i]);
            let p = choose|p: int| 0 <= p < fresh.len() && fresh[p].index == i;
            assert(fresh2[p].index == i);
        }
    }
    assert forall|p: int| 0 <= p < fresh2.len() implies (#[trigger] fresh2[p]).index < base.len()
        && base[fresh2[p].index as int] is None by {
        if p < fresh.len() {
            assert(fresh2[p] == fresh[p]);
        }
    }
}

/// Empties the slots of `fresh`.
fn clear_slots(cache: &mut ValueCache, fresh: &Vec<Term>, Ghost(base): Ghost<Seq<Option<Value>>>)
    requires
        filled(base, fresh@, old(cache).slots@),
    ensures
        final(cache).slots@ == base,
{
    proof {
        reveal(filled);
    }
    let mut q: usize = 0;
    while q < fresh.len()
        invariant
            0 <= q <= fresh.len(),
            cache.slots@.len() == base.len(),
            forall|p: int|
                0 <= p < fresh@.len() ==> (#[trigger] fresh@[p]).index < base.len() && base[fresh@[p].index as int] is None,
            forall|i: int|
                0 <= i < base.len() && #[trigger] cache.slots@[i] != base[i] ==> exists|p: int|
                    q <= p < fresh@.len() && fresh@[p].index == i,
        decreases fresh.len() - q,
    {
        let ghost before = cache.slots@;
        let f = fresh[q];
        assert(fresh@[q as int].index < base.len());
        cache.put(f, None);
        proof {
            assert forall|i: int| 0 <= i < base.len() && #[trigger] cache.slots@[i] != base[i] implies exists|p: int|
                q + 1 <= p < fresh@.len() && fresh@[p].index == i by {
                if i == f.index {
                    assert(cache.slots@[i] is None);
                    assert(base[fresh@[q as int].index as int] is None);
                } else {
                    assert(before[i] == cache.slots@[i]);
                    let p = choose|p: int| q <= p < fresh@.len() && fresh@[p].index == i;
                    assert(p != q);
                }
            }
        }
        q += 1;
    }
    assert(cache.slots@ =~= base);
}

/// Evaluates `t` under `env`, reading and filling `cache`.
///
/// A cached node is not evaluated again, nor is anything below it looked
/// at. With success every node that `t` reaches is cached afterwards; on
/// failure the cache is as it was.
pub fn eval_cached(g: &TermGraph, t: Term, env: &FxHashMap<String, Value>, cache: &mut ValueCache) -> (r: Result<
    Value,
    EvalError,
>)
    requires
        g.wf(),
        g.contains(t),
        old(cache).wf(g),
    ensures
        r == eval_term(g@, value_entries(*env), old(cache)@, t),
        final(cache).wf(g),
        final(cache)@ == (if r is Ok {
            memo_after(g@, value_entries(*env), old(cache)@, t)
        } else {
            old(cache)@
        }),
{
    let ghost nodes = g@;
    let ghost bound = value_entries(*env);
    let ghost memo = cache@;
    cache.grow(g.len());
    let ghost base = cache.slots@;
    let mut fresh: Vec<Term> = Vec::new();
    let mut stack: Vec<Frame> = Vec::new();
    if cache.get(t).is_none() {
        stack.push(Frame { node: t, next: 0 });
        proof {
            assert(stack@ =~= seq![Frame { node: t, next: 0 }]);
            lemma_walk_start(nodes, bound, memo, t);
        }
    } else {
        proof {
            assert(stack@ =~= Seq::<Frame>::empty());
            lemma_walk_cached(nodes, bound, memo, t);
        }
    }
    proof {
        lemma_filled_start(base);
    }
    while stack.len() > 0
        invariant
            g.wf(),
            nodes == g@,
            bound == value_entries(*env),
            base.len() >= nodes.len(),
            cache.slots@.len() == base.len(),
            filled(base, fresh@, cache.slots@),
            walking(nodes, bound, memo, t, stack@, cache@),
            memo == slots_memo(base),
            memo == old(cache)@,
            closed(nodes, memo),
        decreases empty_slots(cache.slots@).len(), top_index(stack@), top_left(nodes, stack@),
    {
        let top = stack.len() - 1;
        let frame = stack[top];
        proof {
            lemma_walk_top(nodes, bound, memo, t, stack@, cache@);
        }
        let cs = g.children(frame.node);
        if frame.next < cs.len() {
            let c = cs[frame.next];
            assert(nodes[frame.node.index as int].cs[frame.next as int].index < frame.node.index);
            if cache.get(c).is_none() {
                proof {
                    lemma_walk_push(nodes, bound, memo, t, stack@, cache@, (frame.next + 1) as usize);
                }
                stack.set(top, Frame { node: frame.node, next: frame.next + 1 });
                stack.push(Frame { node: c, next: 0 });
            } else {
                proof {
                    lemma_walk_skip(nodes, bound, memo, t, stack@, cache@, (frame.next + 1) as usize);
                }
                stack.set(top, Frame { node: frame.node, next: frame.next + 1 });
            }
        } else {
            let args = cached_args(g, frame.node, cache);
            proof {
                lemma_walk_ready(nodes, bound, memo, t, stack@, cache@, args@);
            }
            match apply_op(g.op(frame.node), &args, env) {
                Some(v) => {
                    proof {
                        lemma_walk_pop(nodes, bound, memo, t, stack@, cache@, v);
                        lemma_filled_push(base, fresh@, cache.slots@, frame.node, v);
                        lemma_fill_slot(cache.slots@, frame.node.index as int, v);
                    }
                    cache.put(frame.node, Some(v));
                    fresh.push(frame.node);
                    let _ = stack.pop();
                },
                None => {
                    let e = failure_of(g.op(frame.node), env, frame.node);
                    proof {
                        lemma_walk_fails_root(nodes, bound, memo, t, stack@, cache@, e);
                    }
                    clear_slots(cache, &fresh, Ghost(base));
                    return Err(e);
                },
            }
        }
    }
    proof {
        assert(stack@ =~= Seq::<Frame>::empty());
        lemma_walk_done(nodes, bound, memo, t, cache@);
    }
    match cache.get(t) {
        Some(v) => Ok(v),
        None => {
            assert(false);
            Err(EvalError::IllTyped(t))
        },
    }
}

} // verus!
