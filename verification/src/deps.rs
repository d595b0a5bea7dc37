//! The free variables that a term depends on.

use vstd::prelude::*;
use fxhash::FxHashSet;
use crate::names::{name_members, name_set_contains};
use crate::term::{
    ascending, child_of, children_first, children_precede, leaves_bare, lemma_reaches_trans, reachable, reaches,
    NodeView, Op, OpView, Term, TermGraph,
};

verus! {

/// Whether `leaf` is a free-variable leaf with the name `name`.
pub open spec fn is_var(nodes: Seq<NodeView>, leaf: Term, name: Seq<char>) -> bool {
    leaf.index < nodes.len() && nodes[leaf.index as int].op is Var && nodes[leaf.index as int].op->Var_0 == name
}

/// The names of the free-variable leaves that `t` reaches.
pub open spec fn free_vars(nodes: Seq<NodeView>, t: Term) -> Set<Seq<char>> {
    Set::new(|name: Seq<char>| exists|leaf: Term| reaches(nodes, t, leaf) && #[trigger] is_var(nodes, leaf, name))
}

/// Whether `t` depends on no free variable outside `known`.
pub open spec fn resolvable(nodes: Seq<NodeView>, known: Set<Seq<char>>, t: Term) -> bool {
    free_vars(nodes, t).subset_of(known)
}

/// Whether `leaf` is a free-variable leaf with the name `name` that `roots` reach.
pub open spec fn input_leaf(nodes: Seq<NodeView>, roots: Seq<Term>, name: Seq<char>, leaf: Term) -> bool {
    reachable(nodes, roots, leaf) && is_var(nodes, leaf, name)
}

/// The names of the free-variable leaves that `roots` reach.
pub open spec fn input_names(nodes: Seq<NodeView>, roots: Seq<Term>) -> Set<Seq<char>> {
    Set::new(|name: Seq<char>| exists|leaf: Term| #[trigger] input_leaf(nodes, roots, name, leaf))
}

/// Whether `leaf` is, of the free-variable leaves with the name `name` that
/// `roots` reach, the one of greatest index.
pub open spec fn last_input_leaf(nodes: Seq<NodeView>, roots: Seq<Term>, name: Seq<char>, leaf: Term) -> bool {
    &&& input_leaf(nodes, roots, name, leaf)
    &&& forall|other: Term| #[trigger] input_leaf(nodes, roots, name, other) ==> other.index <= leaf.index
}

/// A free-variable leaf is resolvable just when its name is known; any
/// other node, just when all its children are resolvable.
pub proof fn lemma_resolvable_node(nodes: Seq<NodeView>, known: Set<Seq<char>>, t: Term)
    requires
        children_first(nodes),
        leaves_bare(nodes),
        t.index < nodes.len(),
    ensures
        resolvable(nodes, known, t) <==> (match nodes[t.index as int].op {
            OpView::Var(name, _) => known.contains(name),
            _ => forall|j: int|
                0 <= j < nodes[t.index as int].cs.len() ==> resolvable(
                    nodes,
                    known,
                    #[trigger] nodes[t.index as int].cs[j],
                ),
        }),
{
    let node = nodes[t.index as int];
    match node.op {
        OpView::Var(name, _) => {
            assert(node.op.is_leaf());
            assert(is_var(nodes, t, name));
            assert(free_vars(nodes, t).contains(name));
            if known.contains(name) {
                assert forall|other: Seq<char>| free_vars(nodes, t).contains(other) implies known.contains(other) by {
                    let leaf = choose|leaf: Term| reaches(nodes, t, leaf) && #[trigger] is_var(nodes, leaf, other);
                    assert(leaf == t);
                }
            }
        },
        _ => {
            if resolvable(nodes, known, t) {
                assert forall|j: int| 0 <= j < node.cs.len() implies resolvable(
                    nodes,
                    known,
                    #[trigger] nodes[t.index as int].cs[j],
                ) by {
                    let c = node.cs[j];
                    assert(reaches(nodes, c, c));
                    assert(reaches(nodes, t, c));
                    assert forall|name: Seq<char>| free_vars(nodes, c).contains(name) implies known.contains(name) by {
                        let leaf = choose|leaf: Term| reaches(nodes, c, leaf) && #[trigger] is_var(nodes, leaf, name);
                        lemma_reaches_trans(nodes, t, c, leaf);
                        assert(free_vars(nodes, t).contains(name));
                    }
                }
            }
            if forall|j: int|
                0 <= j < node.cs.len() ==> resolvable(nodes, known, #[trigger] nodes[t.index as int].cs[j]) {
                assert forall|name: Seq<char>| free_vars(nodes, t).contains(name) implies known.contains(name) by {
                    let leaf = choose|leaf: Term| reaches(nodes, t, leaf) && #[trigger] is_var(nodes, leaf, name);
                    assert(leaf != t);
                    let j = choose|j: int|
                        0 <= j < nodes[t.index as int].cs.len() && (#[trigger] nodes[t.index as int].cs[j]).index
                            < t.index && reaches(nodes, nodes[t.index as int].cs[j], leaf);
                    assert(resolvable(nodes, known, nodes[t.index as int].cs[j]));
                    assert(free_vars(nodes, nodes[t.index as int].cs[j]).contains(name));
                }
            }
        },
    }
}

/// For each node of the graph, whether `roots` reach it and it depends on a
/// free variable outside `known`.
///
/// One traversal of the group of `roots` marks the nodes: a free-variable
/// leaf where its name is not known, any other node where one of its
/// children is marked.
pub fn unresolved(g: &TermGraph, roots: &Vec<Term>, known: &FxHashSet<String>) -> (marks: Vec<bool>)
    requires
        g.wf(),
        g.contains_all(roots@),
    ensures
        marks@.len() == g@.len(),
        forall|t: Term|
            t.index < marks@.len() ==> marks@[t.index as int] == (#[trigger] reachable(g@, roots@, t) && !resolvable(
                g@,
                name_members(*known),
                t,
            )),
{
    let order = g.post_order(roots);
    let mut marks: Vec<bool> = Vec::new();
    while marks.len() < g.len()
        invariant
            marks@.len() <= g@.len(),
            forall|i: int| 0 <= i < marks@.len() ==> !marks@[i],
        decreases g@.len() - marks@.len(),
    {
        marks.push(false);
    }
    let mut k: usize = 0;
    while k < order.len()
        invariant
            0 <= k <= order.len(),
            g.wf(),
            marks@.len() == g@.len(),
            g.contains_all(order@),
            ascending(order@),
            children_precede(g@, order@),
            forall|i: int|
                0 <= i < k ==> marks@[(#[trigger] order@[i]).index as int] == !resolvable(
                    g@,
                    name_members(*known),
                    order@[i],
                ),
            forall|m: int|
                0 <= m < marks@.len() && #[trigger] marks@[m] ==> exists|i: int|
                    0 <= i < k && order@[i].index == m,
        decreases order.len() - k,
    {
        let n = order[k];
        assert(g.contains(order@[k as int]));
        proof {
            lemma_resolvable_node(g@, name_members(*known), n);
        }
        let mark = match g.op(n) {
            Op::Var(name, _) => !name_set_contains(known, name),
            _ => {
                let cs = g.children(n);
                let mut any = false;
                let mut j: usize = 0;
                while j < cs.len()
                    invariant
                        0 <= j <= cs.len(),
                        0 <= k < order.len(),
                        n == order@[k as int],
                        n.index < g@.len(),
                        marks@.len() == g@.len(),
                        cs@ == g@[n.index as int].cs,
                        g.contains_all(order@),
                        children_precede(g@, order@),
                        forall|i: int|
                            0 <= i < k ==> marks@[(#[trigger] order@[i]).index as int] == !resolvable(
                                g@,
                                name_members(*known),
                                order@[i],
                            ),
                        any <==> exists|q: int|
                            0 <= q < j && !resolvable(g@, name_members(*known), #[trigger] g@[n.index as int].cs[q]),
                    decreases cs.len() - j,
                {
                    let c = cs[j];
                    proof {
                        assert(g@[n.index as int].cs[j as int] == c);
                        assert(child_of(g@, order@[k as int], c));
                        let i = choose|i: int| 0 <= i < k && order@[i] == c;
                        assert(g.contains(order@[i]));
                    }
                    if marks[c.index] {
                        any = true;
                    }
                    j += 1;
                }
                any
            },
        };
        let ghost before = marks@;
        marks.set(n.index, mark);
        proof {
            assert forall|m: int| 0 <= m < marks@.len() && #[trigger] marks@[m] implies exists|i: int|
                0 <= i < k + 1 && order@[i].index == m by {
                if m != n.index {
                    assert(before[m]);
                    let i = choose|i: int| 0 <= i < k && order@[i].index == m;
                    assert(0 <= i < k + 1 && order@[i].index == m);
                } else {
                    assert(order@[k as int].index == m);
                }
            }
            assert forall|i: int| 0 <= i < k + 1 implies marks@[(#[trigger] order@[i]).index as int] == !resolvable(
                g@,
                name_members(*known),
                order@[i],
            ) by {
                if i < k {
                    assert(order@[i].index < order@[k as int].index);
                }
            }
        }
        k += 1;
    }
    proof {
        assert forall|t: Term| t.index < marks@.len() implies marks@[t.index as int] == (#[trigger] reachable(
            g@,
            roots@,
            t,
        ) && !resolvable(g@, name_members(*known), t)) by {
            if reachable(g@, roots@, t) {
                assert(order@.contains(t));
                let i = choose|i: int| 0 <= i < order@.len() && order@[i] == t;
                assert(marks@[order@[i].index as int] == !resolvable(g@, name_members(*known), order@[i]));
            }
            if marks@[t.index as int] {
                let i = choose|i: int| 0 <= i < order@.len() && order@[i].index == t.index;
                assert(order@[i] == t);
                assert(order@.contains(t));
            }
        }
    }
    marks
}

} // verus!
