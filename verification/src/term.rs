//! The term graph: an arena of immutable, structurally shared nodes.
//!
//! A node is made once and never changed. Its children were made before it,
//! so a node's index is above the indices of all its children, and the graph
//! has no cycle. Two nodes with the same operator and the same children are
//! one node.

use vstd::prelude::*;

verus! {

/// The type carried by a free-variable leaf.
#[derive(Clone, Copy, Debug, PartialEq, Eq, Structural, Hash)]
pub enum Sort {
    Bool,
    Int,
}

/// A concrete value.
#[derive(Clone, Copy, Debug, PartialEq, Eq, Structural, Hash)]
pub enum Value {
    Bool(bool),
    Int(i64),
}

impl Value {
    /// The sort of this value.
    pub open spec fn sort_of(self) -> Sort {
        match self {
            Value::Bool(_) => Sort::Bool,
            Value::Int(_) => Sort::Int,
        }
    }

    /// The sort of this value.
    pub fn sort(&self) -> (s: Sort)
        ensures
            s == self.sort_of(),
    {
        match self {
            Value::Bool(_) => Sort::Bool,
            Value::Int(_) => Sort::Int,
        }
    }
}

/// A handle to a node of a [`TermGraph`].
#[derive(Clone, Copy, Debug, PartialEq, Eq, Structural, Hash)]
pub struct Term {
    pub index: usize,
}

/// The operator of a node.
#[derive(Clone, Debug, PartialEq, Eq, Hash)]
pub enum Op {
    /// A free variable: its name and its sort.
    Var(String, Sort),
    /// A constant.
    Const(Value),
    /// The wrapping sum of any number of integers.
    Add,
    /// The wrapping product of any number of integers.
    Mul,
    /// Whether two values of one sort are equal.
    Eq,
    /// If the first child holds, the second child, else the third.
    Ite,
}

/// What an [`Op`] is, with the name as a sequence of characters.
pub enum OpView {
    Var(Seq<char>, Sort),
    Const(Value),
    Add,
    Mul,
    Eq,
    Ite,
}

impl OpView {
    /// Whether this is a leaf operator, which takes no children.
    pub open spec fn is_leaf(self) -> bool {
        self is Var || self is Const
    }
}

impl View for Op {
    type V = OpView;

    open spec fn view(&self) -> OpView {
        match self {
            Op::Var(name, sort) => OpView::Var(name@, *sort),
            Op::Const(v) => OpView::Const(*v),
            Op::Add => OpView::Add,
            Op::Mul => OpView::Mul,
            Op::Eq => OpView::Eq,
            Op::Ite => OpView::Ite,
        }
    }
}

impl Op {
    /// Whether two operators are the same operator.
    pub fn same(&self, other: &Op) -> (r: bool)
        ensures
            r == (self@ == other@),
    {
        match (self, other) {
            (Op::Var(a, s), Op::Var(b, t)) => *a == *b && *s == *t,
            (Op::Const(a), Op::Const(b)) => *a == *b,
            (Op::Add, Op::Add) => true,
            (Op::Mul, Op::Mul) => true,
            (Op::Eq, Op::Eq) => true,
            (Op::Ite, Op::Ite) => true,
            _ => false,
        }
    }

    /// Whether this is a leaf operator, which takes no children.
    pub fn is_leaf(&self) -> (r: bool)
        ensures
            r == self@.is_leaf(),
    {
        match self {
            Op::Var(_, _) => true,
            Op::Const(_) => true,
            _ => false,
        }
    }
}

/// A node: an operator applied to children.
#[derive(Clone, Debug)]
pub struct Node {
    pub op: Op,
    pub cs: Vec<Term>,
}

/// What a [`Node`] is.
pub struct NodeView {
    pub op: OpView,
    pub cs: Seq<Term>,
}

impl View for Node {
    type V = NodeView;

    open spec fn view(&self) -> NodeView {
        NodeView { op: self.op@, cs: self.cs@ }
    }
}

/// Whether every child of every node was made before the node.
pub open spec fn children_first(nodes: Seq<NodeView>) -> bool {
    forall|i: int, j: int|
        0 <= i < nodes.len() && 0 <= j < nodes[i].cs.len() ==> (#[trigger] nodes[i].cs[j]).index < i
}

/// Whether no leaf has a child.
pub open spec fn leaves_bare(nodes: Seq<NodeView>) -> bool {
    forall|i: int| 0 <= i < nodes.len() && (#[trigger] nodes[i]).op.is_leaf() ==> nodes[i].cs.len() == 0
}

/// Whether no two nodes have the same operator and the same children.
pub open spec fn shared(nodes: Seq<NodeView>) -> bool {
    forall|i: int, j: int|
        0 <= i < nodes.len() && 0 <= j < nodes.len() && #[trigger] nodes[i].op == #[trigger] nodes[j].op
            && nodes[i].cs == nodes[j].cs ==> i == j
}

/// Whether `to` is `from` or a descendant of `from`.
pub open spec fn reaches(nodes: Seq<NodeView>, from: Term, to: Term) -> bool
    decreases from.index,
{
    from == to || (from.index < nodes.len() && exists|j: int|
        0 <= j < nodes[from.index as int].cs.len() && (#[trigger] nodes[from.index as int].cs[j]).index
            < from.index && reaches(nodes, nodes[from.index as int].cs[j], to))
}

/// Whether one of `roots` reaches `t`.
pub open spec fn reachable(nodes: Seq<NodeView>, roots: Seq<Term>, t: Term) -> bool {
    exists|r: int| 0 <= r < roots.len() && reaches(nodes, #[trigger] roots[r], t)
}

/// Whether `c` is a child of `p`.
pub open spec fn child_of(nodes: Seq<NodeView>, p: Term, c: Term) -> bool {
    p.index < nodes.len() && exists|j: int|
        0 <= j < nodes[p.index as int].cs.len() && #[trigger] nodes[p.index as int].cs[j] == c
}

/// Whether `order` lists each node after all its children.
pub open spec fn children_precede(nodes: Seq<NodeView>, order: Seq<Term>) -> bool {
    forall|i: int, c: Term|
        0 <= i < order.len() && #[trigger] child_of(nodes, order[i], c) ==> exists|k: int|
            0 <= k < i && order[k] == c
}

/// Whether the indices of `order` go up.
pub open spec fn ascending(order: Seq<Term>) -> bool {
    forall|a: int, b: int| 0 <= a < b < order.len() ==> order[a].index < order[b].index
}

/// A node reaches nothing above itself, and nothing outside the graph but itself.
pub proof fn lemma_reaches_below(nodes: Seq<NodeView>, a: Term, b: Term)
    requires
        reaches(nodes, a, b),
    ensures
        b.index <= a.index,
        a != b ==> a.index < nodes.len(),
    decreases a.index,
{
    if a != b {
        let j = choose|j: int|
            0 <= j < nodes[a.index as int].cs.len() && (#[trigger] nodes[a.index as int].cs[j]).index
                < a.index && reaches(nodes, nodes[a.index as int].cs[j], b);
        lemma_reaches_below(nodes, nodes[a.index as int].cs[j], b);
    }
}

/// What reaches a node reaches its children.
pub proof fn lemma_reaches_child(nodes: Seq<NodeView>, a: Term, b: Term, c: Term)
    requires
        children_first(nodes),
        reaches(nodes, a, b),
        child_of(nodes, b, c),
    ensures
        reaches(nodes, a, c),
    decreases a.index,
{
    if a == b {
        let j = choose|j: int|
            0 <= j < nodes[b.index as int].cs.len() && #[trigger] nodes[b.index as int].cs[j] == c;
        assert(reaches(nodes, nodes[a.index as int].cs[j], c));
    } else {
        let j = choose|j: int|
            0 <= j < nodes[a.index as int].cs.len() && (#[trigger] nodes[a.index as int].cs[j]).index
                < a.index && reaches(nodes, nodes[a.index as int].cs[j], b);
        lemma_reaches_child(nodes, nodes[a.index as int].cs[j], b, c);
    }
}

/// Reaching goes through: what reaches `b` reaches what `b` reaches.
pub proof fn lemma_reaches_trans(nodes: Seq<NodeView>, a: Term, b: Term, c: Term)
    requires
        reaches(nodes, a, b),
        reaches(nodes, b, c),
    ensures
        reaches(nodes, a, c),
    decreases a.index,
{
    if a != b {
        let j = choose|j: int|
            0 <= j < nodes[a.index as int].cs.len() && (#[trigger] nodes[a.index as int].cs[j]).index
                < a.index && reaches(nodes, nodes[a.index as int].cs[j], b);
        lemma_reaches_trans(nodes, nodes[a.index as int].cs[j], b, c);
    }
}

/// What is reached from another node is the child of a node that is reached.
pub proof fn lemma_reaches_parent(nodes: Seq<NodeView>, a: Term, c: Term) -> (p: Term)
    requires
        reaches(nodes, a, c),
        a != c,
    ensures
        reaches(nodes, a, p),
        child_of(nodes, p, c),
    decreases a.index,
{
    let j = choose|j: int|
        0 <= j < nodes[a.index as int].cs.len() && (#[trigger] nodes[a.index as int].cs[j]).index
            < a.index && reaches(nodes, nodes[a.index as int].cs[j], c);
    let d = nodes[a.index as int].cs[j];
    if d == c {
        a
    } else {
        let p = lemma_reaches_parent(nodes, d, c);
        assert(reaches(nodes, a, p));
        p
    }
}

/// Whether `k` is a root, or a child of a reachable node whose index is `from` or more.
pub open spec fn marked_from(nodes: Seq<NodeView>, roots: Seq<Term>, from: int, k: Term) -> bool {
    roots.contains(k) || exists|p: Term|
        from <= p.index && reachable(nodes, roots, p) && #[trigger] child_of(nodes, p, k)
}

/// Once all nodes above `k` have handed their mark down, `k` is marked just
/// when it is reachable.
pub proof fn lemma_marked_is_reachable(nodes: Seq<NodeView>, roots: Seq<Term>, from: int, k: Term)
    requires
        children_first(nodes),
        from <= k.index + 1,
    ensures
        marked_from(nodes, roots, from, k) == reachable(nodes, roots, k),
{
    if marked_from(nodes, roots, from, k) {
        if roots.contains(k) {
            let r = choose|r: int| 0 <= r < roots.len() && roots[r] == k;
            assert(reaches(nodes, roots[r], k));
        } else {
            let p = choose|p: Term|
                from <= p.index && reachable(nodes, roots, p) && #[trigger] child_of(nodes, p, k);
            let r = choose|r: int| 0 <= r < roots.len() && reaches(nodes, #[trigger] roots[r], p);
            lemma_reaches_child(nodes, roots[r], p, k);
        }
    }
    if reachable(nodes, roots, k) {
        let r = choose|r: int| 0 <= r < roots.len() && reaches(nodes, #[trigger] roots[r], k);
        if roots[r] != k {
            let p = lemma_reaches_parent(nodes, roots[r], k);
            assert(reachable(nodes, roots, p));
            assert(child_of(nodes, p, k));
            assert(p.index > k.index);
        }
    }
}

/// Whether two lists of handles are the same list.
pub fn same_terms(a: &Vec<Term>, b: &Vec<Term>) -> (r: bool)
    ensures
        r == (a@ == b@),
{
    if a.len() != b.len() {
        return false;
    }
    let mut i: usize = 0;
    while i < a.len()
        invariant
            a.len() == b.len(),
            0 <= i <= a.len(),
            forall|k: int| 0 <= k < i ==> a@[k] == b@[k],
        decreases a.len() - i,
    {
        if a[i] != b[i] {
            return false;
        }
        i += 1;
    }
    assert(a@ =~= b@);
    true
}

/// A list of `n` times `false`.
fn all_false(n: usize) -> (v: Vec<bool>)
    ensures
        v@.len() == n,
        forall|k: int| 0 <= k < n ==> !v@[k],
{
    let mut v: Vec<bool> = Vec::new();
    let mut i: usize = 0;
    while i < n
        invariant
            0 <= i <= n,
            v@.len() == i,
            forall|k: int| 0 <= k < i ==> !v@[k],
        decreases n - i,
    {
        v.push(false);
        i += 1;
    }
    v
}

/// The arena that holds the nodes.
#[derive(Clone, Debug)]
pub struct TermGraph {
    nodes: Vec<Node>,
}

impl View for TermGraph {
    type V = Seq<NodeView>;

    closed spec fn view(&self) -> Seq<NodeView> {
        Seq::new(self.nodes@.len(), |i: int| self.nodes@[i]@)
    }
}

impl TermGraph {
    /// The invariant of the graph.
    pub open spec fn wf(&self) -> bool {
        &&& children_first(self@)
        &&& leaves_bare(self@)
        &&& shared(self@)
    }

    /// Whether `t` is a node of this graph.
    pub open spec fn contains(&self, t: Term) -> bool {
        t.index < self@.len()
    }

    /// Whether every one of `ts` is a node of this graph.
    pub open spec fn contains_all(&self, ts: Seq<Term>) -> bool {
        forall|i: int| 0 <= i < ts.len() ==> self.contains(#[trigger] ts[i])
    }

    /// A graph without nodes.
    pub fn new() -> (g: TermGraph)
        ensures
            g@.len() == 0,
            g.wf(),
    {
        TermGraph { nodes: Vec::new() }
    }

    /// The number of nodes.
    pub fn len(&self) -> (n: usize)
        ensures
            n == self@.len(),
    {
        self.nodes.len()
    }

    /// The operator of `t`.
    pub fn op(&self, t: Term) -> (op: &Op)
        requires
            self.contains(t),
        ensures
            op@ == self@[t.index as int].op,
    {
        &self.nodes[t.index].op
    }

    /// The children of `t`.
    pub fn children(&self, t: Term) -> (cs: &Vec<Term>)
        requires
            self.contains(t),
        ensures
            cs@ == self@[t.index as int].cs,
    {
        &self.nodes[t.index].cs
    }

    /// The node with operator `op` and children `cs`. Where the graph holds
    /// such a node already, this is that node and the graph stays as it is;
    /// else the node is added at the end. No node that was there changes.
    pub fn term(&mut self, op: Op, cs: Vec<Term>) -> (t: Term)
        requires
            old(self).wf(),
            old(self).contains_all(cs@),
            op@.is_leaf() ==> cs@.len() == 0,
        ensures
            final(self).wf(),
            final(self).contains(t),
            final(self)@[t.index as int] == (NodeView { op: op@, cs: cs@ }),
            final(self)@ == (if exists|i: int|
                0 <= i < old(self)@.len() && old(self)@[i] == (NodeView { op: op@, cs: cs@ }) {
                old(self)@
            } else {
                old(self)@.push(NodeView { op: op@, cs: cs@ })
            }),
    {
        let n = self.nodes.len();
        let mut i: usize = 0;
        while i < n
            invariant
                n == self.nodes@.len(),
                *self == *old(self),
                self.wf(),
                0 <= i <= n,
                forall|k: int| 0 <= k < i ==> self@[k] != (NodeView { op: op@, cs: cs@ }),
            decreases n - i,
        {
            if self.nodes[i].op.same(&op) && same_terms(&self.nodes[i].cs, &cs) {
                assert(self@[i as int] == (NodeView { op: op@, cs: cs@ }));
                return Term { index: i };
            }
            assert(self@[i as int] != (NodeView { op: op@, cs: cs@ }));
            i += 1;
        }
        self.nodes.push(Node { op, cs });
        proof {
            let node = NodeView { op: op@, cs: cs@ };
            assert(self@ =~= old(self)@.push(node));
            assert forall|a: int, b: int|
                0 <= a < self@.len() && 0 <= b < self@[a].cs.len() implies (#[trigger] self@[a].cs[b]).index
                < a by {
                if a < n {
                    assert(self@[a] == old(self)@[a]);
                } else {
                    assert(old(self).contains(cs@[b]));
                }
            }
            assert forall|a: int, b: int|
                0 <= a < self@.len() && 0 <= b < self@.len() && #[trigger] self@[a].op
                    == #[trigger] self@[b].op && self@[a].cs == self@[b].cs implies a == b by {
                if a < n && b < n {
                    assert(old(self)@[a].op == old(self)@[b].op);
                } else if a < n {
                    assert(self@[a] == node);
                } else if b < n {
                    assert(self@[b] == node);
                }
            }
        }
        Term { index: n }
    }

    /// The nodes that `roots` reach, each once and after all its children.
    ///
    /// This is the traversal of the group that `roots` form. The nodes come
    /// in the order of their indices, which puts children first.
    pub fn post_order(&self, roots: &Vec<Term>) -> (order: Vec<Term>)
        requires
            self.wf(),
            self.contains_all(roots@),
        ensures
            forall|t: Term| order@.contains(t) <==> reachable(self@, roots@, t),
            ascending(order@),
            order@.no_duplicates(),
            children_precede(self@, order@),
            self.contains_all(order@),
    {
        let n = self.nodes.len();
        let mut marked = all_false(n);
        let mut r: usize = 0;
        while r < roots.len()
            invariant
                0 <= r <= roots.len(),
                marked@.len() == n,
                n == self@.len(),
                self.contains_all(roots@),
                forall|k: int|
                    0 <= k < n ==> (#[trigger] marked@[k] <==> exists|q: int|
                        0 <= q < r && (#[trigger] roots@[q]).index == k),
            decreases roots.len() - r,
        {
            assert(self.contains(roots@[r as int]));
            marked.set(roots[r].index, true);
            r += 1;
        }
        proof {
            assert forall|k: int| 0 <= k < n implies #[trigger] marked@[k] == marked_from(
                self@,
                roots@,
                n as int,
                Term { index: k as usize },
            ) by {
                let t = Term { index: k as usize };
                if marked@[k] {
                    let q = choose|q: int| 0 <= q < roots.len() && (#[trigger] roots@[q]).index == k;
                    assert(roots@[q] == t);
                }
                if roots@.contains(t) {
                    let q = choose|q: int| 0 <= q < roots@.len() && roots@[q] == t;
                    assert(roots@[q].index == k);
                }
            }
        }
        let mut i: usize = n;
        while i > 0
            invariant
                0 <= i <= n,
                marked@.len() == n,
                n == self@.len(),
                n == self.nodes@.len(),
                self.wf(),
                forall|k: int|
                    0 <= k < n ==> #[trigger] marked@[k] == marked_from(
                        self@,
                        roots@,
                        i as int,
                        Term { index: k as usize },
                    ),
            decreases i,
        {
            i -= 1;
            let here = Term { index: i };
            proof {
                lemma_marked_is_reachable(self@, roots@, i as int + 1, here);
            }
            if marked[i] {
                let ghost before = marked@;
                let cs = &self.nodes[i].cs;
                let mut j: usize = 0;
                while j < cs.len()
                    invariant
                        0 <= j <= cs.len(),
                        marked@.len() == n,
                        before.len() == n,
                        n == self@.len(),
                        i < n,
                        cs@ == self@[i as int].cs,
                        self.wf(),
                        forall|k: int|
                            0 <= k < n ==> (#[trigger] marked@[k] <==> before[k] || exists|q: int|
                                0 <= q < j && (#[trigger] cs@[q]).index == k),
                    decreases cs.len() - j,
                {
                    assert(self@[i as int].cs[j as int].index < i);
                    marked.set(cs[j].index, true);
                    j += 1;
                }
                proof {
                    assert forall|k: int| 0 <= k < n implies #[trigger] marked@[k] == marked_from(
                        self@,
                        roots@,
                        i as int,
                        Term { index: k as usize },
                    ) by {
                        let t = Term { index: k as usize };
                        if marked@[k] && !before[k] {
                            let q = choose|q: int| 0 <= q < cs@.len() && (#[trigger] cs@[q]).index == k;
                            assert(self@[i as int].cs[q] == t);
                            assert(child_of(self@, here, t));
                        }
                        if marked_from(self@, roots@, i as int, t) && !marked_from(
                            self@,
                            roots@,
                            i as int + 1,
                            t,
                        ) {
                            let p = choose|p: Term|
                                i as int <= p.index && reachable(self@, roots@, p) && #[trigger] child_of(
                                    self@,
                                    p,
                                    t,
                                );
                            assert(p == here);
                            let q = choose|q: int|
                                0 <= q < self@[i as int].cs.len() && #[trigger] self@[i as int].cs[q] == t;
                            assert(cs@[q].index == k);
                        }
                    }
                }
            } else {
                proof {
                    assert forall|k: int| 0 <= k < n implies #[trigger] marked@[k] == marked_from(
                        self@,
                        roots@,
                        i as int,
                        Term { index: k as usize },
                    ) by {
                        let t = Term { index: k as usize };
                        if marked_from(self@, roots@, i as int, t) && !marked_from(
                            self@,
                            roots@,
                            i as int + 1,
                            t,
                        ) {
                            let p = choose|p: Term|
                                i as int <= p.index && reachable(self@, roots@, p) && #[trigger] child_of(
                                    self@,
                                    p,
                                    t,
                                );
                            assert(p == here);
                        }
                    }
                }
            }
        }
        let mut order: Vec<Term> = Vec::new();
        let mut k: usize = 0;
        while k < n
            invariant
                0 <= k <= n,
                marked@.len() == n,
                n == self@.len(),
                self.wf(),
                forall|m: int|
                    0 <= m < n ==> #[trigger] marked@[m] == marked_from(self@, roots@, 0, Term { index: m as usize }),
                ascending(order@),
                forall|a: int| 0 <= a < order@.len() ==> (#[trigger] order@[a]).index < k && marked@[order@[a].index as int],
                forall|m: int| 0 <= m < k && marked@[m] ==> order@.contains(Term { index: m as usize }),
            decreases n - k,
        {
            if marked[k] {
                let ghost prev = order@;
                order.push(Term { index: k });
                proof {
                    assert(order@[prev.len() as int] == Term { index: k });
                    assert forall|m: int| 0 <= m < k + 1 && marked@[m] implies order@.contains(
                        Term { index: m as usize },
                    ) by {
                        if m < k {
                            let a = choose|a: int| 0 <= a < prev.len() && prev[a] == Term { index: m as usize };
                            assert(order@[a] == Term { index: m as usize });
                        }
                    }
                }
            }
            k += 1;
        }
        proof {
            assert forall|t: Term| order@.contains(t) <==> reachable(self@, roots@, t) by {
                lemma_marked_is_reachable(self@, roots@, 0, t);
                let m = t.index as int;
                assert(t == Term { index: m as usize });
                if order@.contains(t) {
                    let a = choose|a: int| 0 <= a < order@.len() && order@[a] == t;
                    assert(marked@[order@[a].index as int]);
                    assert(marked@[m]);
                }
                if reachable(self@, roots@, t) {
                    let q = choose|q: int| 0 <= q < roots@.len() && reaches(self@, #[trigger] roots@[q], t);
                    lemma_reaches_below(self@, roots@[q], t);
                    assert(self.contains(roots@[q]));
                    assert(marked@[m]);
                }
            }
            assert forall|a: int, c: Term| 0 <= a < order@.len() && #[trigger] child_of(self@, order@[a], c) implies exists|b: int|
                0 <= b < a && order@[b] == c by {
                let p = order@[a];
                assert(order@.contains(p));
                let q = choose|q: int| 0 <= q < roots@.len() && reaches(self@, #[trigger] roots@[q], p);
                lemma_reaches_child(self@, roots@[q], p, c);
                assert(reachable(self@, roots@, c));
                assert(order@.contains(c));
                let b = choose|b: int| 0 <= b < order@.len() && order@[b] == c;
                assert(c.index < p.index);
                if b >= a {
                    if b > a {
                        assert(order@[a].index < order@[b].index);
                    }
                }
            }
        }
        order
    }
}

} // verus!
