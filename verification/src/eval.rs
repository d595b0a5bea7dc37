//! What a term evaluates to under a binding environment and a value cache.
//!
//! A cached node keeps its value: it is not evaluated again, whatever the
//! environment has become since. Children are evaluated before their
//! parents and from left to right, and the first failure ends the
//! evaluation: the error names the node that failed.

use vstd::prelude::*;
use fxhash::FxHashMap;
use crate::names::{value_entries, value_map_get};
use crate::term::{children_first, reaches, NodeView, Op, OpView, Term, Value};

verus! {

/// Why a term has no value.
#[derive(Clone, Copy, Debug, PartialEq, Eq, Structural, Hash)]
pub enum EvalError {
    /// The environment does not bind this free variable.
    Unbound(Term),
    /// The operator of this node does not take what it was given: a variable
    /// bound to a value of another sort, or arguments of the wrong number or
    /// sort. A handle that is no node of the graph has this error too.
    IllTyped(Term),
}

/// A binding environment: names and their values.
pub type Env = Map<Seq<char>, Value>;

/// A value cache: nodes and their values.
pub type Memo = Map<Term, Value>;

/// Whether every one of `args` is an integer.
pub open spec fn all_ints(args: Seq<Value>) -> bool {
    forall|i: int| 0 <= i < args.len() ==> #[trigger] args[i] is Int
}

/// The wrapping sum of the integers `args`.
pub open spec fn wrapping_sum(args: Seq<Value>) -> i64
    decreases args.len(),
{
    if args.len() == 0 {
        0
    } else {
        wrapping_sum(args.drop_last()).wrapping_add(args.last()->Int_0)
    }
}

/// The wrapping product of the integers `args`.
pub open spec fn wrapping_product(args: Seq<Value>) -> i64
    decreases args.len(),
{
    if args.len() == 0 {
        1
    } else {
        wrapping_product(args.drop_last()).wrapping_mul(args.last()->Int_0)
    }
}

/// What `op` makes of the values `args` of its children under `env`, or
/// `None` where it makes nothing of them.
pub open spec fn apply(op: OpView, args: Seq<Value>, env: Env) -> Option<Value> {
    match op {
        OpView::Var(name, sort) => if env.contains_key(name) && env[name].sort_of() == sort {
            Some(env[name])
        } else {
            None
        },
        OpView::Const(v) => Some(v),
        OpView::Add => if all_ints(args) {
            Some(Value::Int(wrapping_sum(args)))
        } else {
            None
        },
        OpView::Mul => if all_ints(args) {
            Some(Value::Int(wrapping_product(args)))
        } else {
            None
        },
        OpView::Eq => if args.len() == 2 && args[0].sort_of() == args[1].sort_of() {
            Some(Value::Bool(args[0] == args[1]))
        } else {
            None
        },
        OpView::Ite => if args.len() == 3 && args[0] is Bool && args[1].sort_of() == args[2].sort_of() {
            Some(if args[0]->Bool_0 { args[1] } else { args[2] })
        } else {
            None
        },
    }
}

/// The error of a node on which `apply` gave `None`.
pub open spec fn failure(op: OpView, env: Env, t: Term) -> EvalError {
    match op {
        OpView::Var(name, _) => if env.contains_key(name) {
            EvalError::IllTyped(t)
        } else {
            EvalError::Unbound(t)
        },
        _ => EvalError::IllTyped(t),
    }
}

/// What `node`, which is the node `t`, makes of the values `args` of its
/// children under `env`: a value, or the error of `t`.
pub open spec fn apply_at(node: NodeView, args: Seq<Value>, env: Env, t: Term) -> Result<Value, EvalError> {
    match apply(node.op, args, env) {
        Some(v) => Ok(v),
        None => Err(failure(node.op, env, t)),
    }
}

/// What evaluating `t` under `env` returns, where cached nodes keep their
/// cached values: the value of `t`, or the error of the first node that
/// fails when children are evaluated before their parents and from left to
/// right.
pub open spec fn eval_term(nodes: Seq<NodeView>, env: Env, memo: Memo, t: Term) -> Result<Value, EvalError>
    decreases t.index, 1nat, 0nat,
{
    if memo.contains_key(t) {
        Ok(memo[t])
    } else if t.index >= nodes.len() {
        Err(EvalError::IllTyped(t))
    } else {
        match eval_children(nodes, env, memo, t, nodes[t.index as int].cs.len()) {
            Ok(args) => apply_at(nodes[t.index as int], args, env, t),
            Err(e) => Err(e),
        }
    }
}

/// What evaluating the first `k` children of `t` returns: their values, or
/// the error of the first of them that fails.
pub open spec fn eval_children(nodes: Seq<NodeView>, env: Env, memo: Memo, t: Term, k: nat) -> Result<
    Seq<Value>,
    EvalError,
>
    decreases t.index, 0nat, k,
{
    if k == 0 {
        Ok(Seq::empty())
    } else if t.index >= nodes.len() || k > nodes[t.index as int].cs.len() || nodes[t.index as int].cs[k - 1].index
        >= t.index {
        Err(EvalError::IllTyped(t))
    } else {
        match eval_children(nodes, env, memo, t, (k - 1) as nat) {
            Ok(args) => match eval_term(nodes, env, memo, nodes[t.index as int].cs[k - 1]) {
                Ok(v) => Ok(args.push(v)),
                Err(e) => Err(e),
            },
            Err(e) => Err(e),
        }
    }
}

/// The cache after `t` was evaluated with success: what was cached stays, and
/// every node that `t` reaches is cached with its value.
pub open spec fn memo_after(nodes: Seq<NodeView>, env: Env, memo: Memo, t: Term) -> Memo {
    Map::new(
        |n: Term| memo.contains_key(n) || reaches(nodes, t, n),
        |n: Term| eval_term(nodes, env, memo, n)->Ok_0,
    )
}

/// Whether a cache holds nodes of the graph only, and with each node its
/// children.
pub open spec fn closed(nodes: Seq<NodeView>, memo: Memo) -> bool {
    forall|n: Term| #[trigger]
        memo.contains_key(n) ==> n.index < nodes.len() && forall|j: int|
            0 <= j < nodes[n.index as int].cs.len() ==> memo.contains_key(
                #[trigger] nodes[n.index as int].cs[j],
            )
}

/// The first `k` children of a node evaluate with success just when each of
/// them does, and then to their values, in order.
pub proof fn lemma_children_ok(nodes: Seq<NodeView>, env: Env, memo: Memo, t: Term, k: nat)
    requires
        children_first(nodes),
        t.index < nodes.len(),
        k <= nodes[t.index as int].cs.len(),
    ensures
        eval_children(nodes, env, memo, t, k) is Ok <==> forall|j: int|
            0 <= j < k ==> eval_term(nodes, env, memo, #[trigger] nodes[t.index as int].cs[j]) is Ok,
        eval_children(nodes, env, memo, t, k) is Ok ==> eval_children(nodes, env, memo, t, k)->Ok_0.len() == k
            && forall|j: int|
            0 <= j < k ==> eval_term(nodes, env, memo, #[trigger] nodes[t.index as int].cs[j]) == Ok::<
                Value,
                EvalError,
            >(eval_children(nodes, env, memo, t, k)->Ok_0[j]),
    decreases k,
{
    if k > 0 {
        lemma_children_ok(nodes, env, memo, t, (k - 1) as nat);
        assert(nodes[t.index as int].cs[k - 1].index < t.index);
    }
}

/// Where the child `m` of a node is its first child that fails, evaluating
/// the children up to `m` or further returns the error of `m`.
pub proof fn lemma_children_err(nodes: Seq<NodeView>, env: Env, memo: Memo, t: Term, m: int, k: nat)
    requires
        children_first(nodes),
        t.index < nodes.len(),
        0 <= m < k <= nodes[t.index as int].cs.len(),
        forall|j: int| 0 <= j < m ==> eval_term(nodes, env, memo, #[trigger] nodes[t.index as int].cs[j]) is Ok,
        eval_term(nodes, env, memo, nodes[t.index as int].cs[m]) is Err,
    ensures
        eval_children(nodes, env, memo, t, k) == Err::<Seq<Value>, EvalError>(
            eval_term(nodes, env, memo, nodes[t.index as int].cs[m])->Err_0,
        ),
    decreases k,
{
    assert(nodes[t.index as int].cs[k - 1].index < t.index);
    if k == m + 1 {
        lemma_children_ok(nodes, env, memo, t, m as nat);
    } else {
        lemma_children_err(nodes, env, memo, t, m, (k - 1) as nat);
    }
}

/// A cache that holds a node holds what the node reaches.
pub proof fn lemma_closed_reaches(nodes: Seq<NodeView>, memo: Memo, a: Term, n: Term)
    requires
        closed(nodes, memo),
        memo.contains_key(a),
        reaches(nodes, a, n),
    ensures
        memo.contains_key(n),
    decreases a.index,
{
    if a != n {
        let j = choose|j: int|
            0 <= j < nodes[a.index as int].cs.len() && (#[trigger] nodes[a.index as int].cs[j]).index
                < a.index && reaches(nodes, nodes[a.index as int].cs[j], n);
        lemma_closed_reaches(nodes, memo, nodes[a.index as int].cs[j], n);
    }
}

/// Where a term evaluates with success, so does what it reaches.
pub proof fn lemma_ok_goes_down(nodes: Seq<NodeView>, env: Env, memo: Memo, a: Term, n: Term)
    requires
        children_first(nodes),
        closed(nodes, memo),
        reaches(nodes, a, n),
        eval_term(nodes, env, memo, a) is Ok,
    ensures
        eval_term(nodes, env, memo, n) is Ok,
    decreases a.index,
{
    if a != n {
        if memo.contains_key(a) {
            lemma_closed_reaches(nodes, memo, a, n);
        } else {
            let j = choose|j: int|
                0 <= j < nodes[a.index as int].cs.len() && (#[trigger] nodes[a.index as int].cs[j]).index
                    < a.index && reaches(nodes, nodes[a.index as int].cs[j], n);
            lemma_children_ok(nodes, env, memo, a, nodes[a.index as int].cs.len());
            lemma_ok_goes_down(nodes, env, memo, nodes[a.index as int].cs[j], n);
        }
    }
}

/// The integers of `args` added or multiplied, or `None` where one of them
/// is no integer.
fn fold_ints(args: &Vec<Value>, product: bool) -> (r: Option<i64>)
    ensures
        r == (if all_ints(args@) {
            Some(if product { wrapping_product(args@) } else { wrapping_sum(args@) })
        } else {
            None
        }),
{
    let mut acc: i64 = if product { 1 } else { 0 };
    let mut i: usize = 0;
    while i < args.len()
        invariant
            0 <= i <= args.len(),
            all_ints(args@.take(i as int)),
            acc == (if product { wrapping_product(args@.take(i as int)) } else { wrapping_sum(args@.take(i as int)) }),
        decreases args.len() - i,
    {
        proof {
            assert(args@.take(i as int + 1).drop_last() =~= args@.take(i as int));
            assert(args@.take(i as int + 1).last() == args@[i as int]);
        }
        match args[i] {
            Value::Int(x) => {
                acc = if product { acc.wrapping_mul(x) } else { acc.wrapping_add(x) };
                proof {
                    assert forall|k: int| 0 <= k < i + 1 implies #[trigger] args@.take(i as int + 1)[k] is Int by {
                        if k < i {
                            assert(args@.take(i as int)[k] is Int);
                        }
                    }
                }
            },
            Value::Bool(_) => {
                assert(!(args@[i as int] is Int));
                return None;
            },
        }
        i += 1;
    }
    assert(args@.take(i as int) =~= args@);
    Some(acc)
}

/// What `op` makes of the values `args` of its children under `env`.
pub fn apply_op(op: &Op, args: &Vec<Value>, env: &FxHashMap<String, Value>) -> (r: Option<Value>)
    ensures
        r == apply(op@, args@, value_entries(*env)),
{
    match op {
        Op::Var(name, sort) => match value_map_get(env, name) {
            Some(v) => if v.sort() == *sort {
                Some(v)
            } else {
                None
            },
            None => None,
        },
        Op::Const(v) => Some(*v),
        Op::Add => match fold_ints(args, false) {
            Some(x) => Some(Value::Int(x)),
            None => None,
        },
        Op::Mul => match fold_ints(args, true) {
            Some(x) => Some(Value::Int(x)),
            None => None,
        },
        Op::Eq => if args.len() == 2 && args[0].sort() == args[1].sort() {
            Some(Value::Bool(args[0] == args[1]))
        } else {
            None
        },
        Op::Ite => if args.len() == 3 && args[1].sort() == args[2].sort() {
            match args[0] {
                Value::Bool(c) => Some(if c { args[1] } else { args[2] }),
                Value::Int(_) => None,
            }
        } else {
            None
        },
    }
}

/// The error of a node on which `apply_op` gave `None`.
pub fn failure_of(op: &Op, env: &FxHashMap<String, Value>, t: Term) -> (e: EvalError)
    ensures
        e == failure(op@, value_entries(*env), t),
{
    match op {
        Op::Var(name, _) => match value_map_get(env, name) {
            Some(_) => EvalError::IllTyped(t),
            None => EvalError::Unbound(t),
        },
        _ => EvalError::IllTyped(t),
    }
}

} // verus!
