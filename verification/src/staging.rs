//! Staged evaluation: what holds of evaluating one precomputation after
//! another.
//!
//! Evaluating a composition is evaluating its first part and then, with the
//! environment and the cache that the first part left, its second part
//! (`lemma_compose_eval_cached`). The cache matters: it keeps a value even
//! when the environment rebinds a name the value was read from. Where the
//! environment that the evaluation starts from binds no output name, no
//! value is rebound, every cached value is the value its node has without a
//! cache, and the second part can as well start with an empty cache
//! (`lemma_compose_eval`).

use vstd::prelude::*;
use crate::eval::{closed, eval_children, eval_term, lemma_ok_goes_down, memo_after, Env, EvalError, Memo};
use crate::precomp::{lemma_followed_by_wf, run, run_memo, PreCompView};
use crate::term::{child_of, children_first, lemma_reaches_below, lemma_reaches_child, NodeView, Term, Value};

verus! {

/// Whether `wider` binds every name that `env` binds, to the same value.
pub open spec fn extends(wider: Env, env: Env) -> bool {
    forall|name: Seq<char>| env.contains_key(name) ==> wider.contains_key(name) && wider[name] == env[name]
}

/// Whether every cached value is the value that its node has under `env`
/// without a cache.
pub open spec fn fresh(nodes: Seq<NodeView>, env: Env, memo: Memo) -> bool {
    &&& closed(nodes, memo)
    &&& forall|n: Term| #[trigger]
        memo.contains_key(n) ==> eval_term(nodes, env, Map::empty(), n) == Ok::<Value, EvalError>(memo[n])
}

/// Whether `env` binds none of `names`.
pub open spec fn unbound(env: Env, names: Seq<Seq<char>>) -> bool {
    forall|i: int| 0 <= i < names.len() ==> !env.contains_key(#[trigger] names[i])
}

/// Whether the terms of the outputs `names` are nodes of the graph.
pub open spec fn within(nodes: Seq<NodeView>, outputs: Map<Seq<char>, Term>, names: Seq<Seq<char>>) -> bool {
    forall|i: int| 0 <= i < names.len() ==> (#[trigger] outputs[names[i]]).index < nodes.len()
}

/// A value that a term has without a cache stays when the environment gets
/// more bindings.
pub proof fn lemma_value_stays(nodes: Seq<NodeView>, env: Env, wider: Env, t: Term)
    requires
        children_first(nodes),
        extends(wider, env),
        eval_term(nodes, env, Map::empty(), t) is Ok,
    ensures
        eval_term(nodes, wider, Map::empty(), t) == eval_term(nodes, env, Map::empty(), t),
    decreases t.index, 1nat, 0nat,
{
    lemma_children_stay(nodes, env, wider, t, nodes[t.index as int].cs.len());
}

/// The values that the first `k` children of a term have without a cache
/// stay when the environment gets more bindings.
pub proof fn lemma_children_stay(nodes: Seq<NodeView>, env: Env, wider: Env, t: Term, k: nat)
    requires
        children_first(nodes),
        extends(wider, env),
        eval_children(nodes, env, Map::empty(), t, k) is Ok,
    ensures
        eval_children(nodes, wider, Map::empty(), t, k) == eval_children(nodes, env, Map::empty(), t, k),
    decreases t.index, 0nat, k,
{
    if k > 0 {
        let c = nodes[t.index as int].cs[k - 1];
        lemma_children_stay(nodes, env, wider, t, (k - 1) as nat);
        lemma_value_stays(nodes, env, wider, c);
    }
}

/// With a cache of fresh values evaluating a term returns what it returns
/// without a cache.
pub proof fn lemma_fresh_eval(nodes: Seq<NodeView>, env: Env, memo: Memo, t: Term)
    requires
        children_first(nodes),
        fresh(nodes, env, memo),
    ensures
        eval_term(nodes, env, memo, t) == eval_term(nodes, env, Map::empty(), t),
    decreases t.index, 1nat, 0nat,
{
    if !memo.contains_key(t) && t.index < nodes.len() {
        lemma_fresh_children(nodes, env, memo, t, nodes[t.index as int].cs.len());
    }
}

/// With a cache of fresh values evaluating the children of a term returns
/// what it returns without a cache.
pub proof fn lemma_fresh_children(nodes: Seq<NodeView>, env: Env, memo: Memo, t: Term, k: nat)
    requires
        children_first(nodes),
        fresh(nodes, env, memo),
    ensures
        eval_children(nodes, env, memo, t, k) == eval_children(nodes, env, Map::empty(), t, k),
    decreases t.index, 0nat, k,
{
    if k > 0 && t.index < nodes.len() && k <= nodes[t.index as int].cs.len() {
        let c = nodes[t.index as int].cs[k - 1];
        if c.index < t.index {
            lemma_fresh_children(nodes, env, memo, t, (k - 1) as nat);
            lemma_fresh_eval(nodes, env, memo, c);
        }
    }
}

/// A cache of fresh values is one still after a term was evaluated and its
/// value bound to a name that was not bound before.
pub proof fn lemma_fresh_after(nodes: Seq<NodeView>, env: Env, memo: Memo, t: Term, name: Seq<char>)
    requires
        children_first(nodes),
        fresh(nodes, env, memo),
        t.index < nodes.len(),
        !env.contains_key(name),
        eval_term(nodes, env, memo, t) is Ok,
    ensures
        fresh(
            nodes,
            env.insert(name, eval_term(nodes, env, memo, t)->Ok_0),
            memo_after(nodes, env, memo, t),
        ),
{
    let wider = env.insert(name, eval_term(nodes, env, memo, t)->Ok_0);
    let after = memo_after(nodes, env, memo, t);
    assert(extends(wider, env));
    assert forall|n: Term| #[trigger] after.contains_key(n) implies eval_term(nodes, wider, Map::empty(), n) == Ok::<
        Value,
        EvalError,
    >(after[n]) by {
        if !memo.contains_key(n) {
            lemma_ok_goes_down(nodes, env, memo, t, n);
        }
        lemma_fresh_eval(nodes, env, memo, n);
        lemma_value_stays(nodes, env, wider, n);
    }
    assert forall|n: Term| #[trigger] after.contains_key(n) implies n.index < nodes.len() && forall|j: int|
        0 <= j < nodes[n.index as int].cs.len() ==> after.contains_key(#[trigger] nodes[n.index as int].cs[j]) by {
        if !memo.contains_key(n) {
            lemma_reaches_below(nodes, t, n);
            assert forall|j: int| 0 <= j < nodes[n.index as int].cs.len() implies after.contains_key(
                #[trigger] nodes[n.index as int].cs[j],
            ) by {
                assert(child_of(nodes, n, nodes[n.index as int].cs[j]));
                lemma_reaches_child(nodes, t, n, nodes[n.index as int].cs[j]);
            }
        }
    }
}

/// The evaluation of a sequence of outputs reads the terms of these outputs
/// only.
pub proof fn lemma_run_reads(
    nodes: Seq<NodeView>,
    a: Map<Seq<char>, Term>,
    b: Map<Seq<char>, Term>,
    names: Seq<Seq<char>>,
    env: Env,
    memo: Memo,
)
    requires
        forall|i: int| 0 <= i < names.len() ==> a[#[trigger] names[i]] == b[names[i]],
    ensures
        run(nodes, a, names, env, memo) == run(nodes, b, names, env, memo),
    decreases names.len(),
{
    if names.len() > 0 {
        let name = names[0];
        let t = a[name];
        let rest = names.drop_first();
        assert forall|i: int| 0 <= i < rest.len() implies a[#[trigger] rest[i]] == b[rest[i]] by {
            assert(rest[i] == names[i + 1]);
        }
        match eval_term(nodes, env, memo, t) {
            Ok(v) => {
                lemma_run_reads(nodes, a, b, rest, env.insert(name, v), memo_after(nodes, env, memo, t));
            },
            Err(_) => {},
        }
    }
}

/// The evaluation of a sequence of outputs leaves a cache that depends on
/// the terms of these outputs only.
pub proof fn lemma_run_memo_reads(
    nodes: Seq<NodeView>,
    a: Map<Seq<char>, Term>,
    b: Map<Seq<char>, Term>,
    names: Seq<Seq<char>>,
    env: Env,
    memo: Memo,
)
    requires
        forall|i: int| 0 <= i < names.len() ==> a[#[trigger] names[i]] == b[names[i]],
    ensures
        run_memo(nodes, a, names, env, memo) == run_memo(nodes, b, names, env, memo),
    decreases names.len(),
{
    if names.len() > 0 {
        let name = names[0];
        let t = a[name];
        let rest = names.drop_first();
        assert forall|i: int| 0 <= i < rest.len() implies a[#[trigger] rest[i]] == b[rest[i]] by {
            assert(rest[i] == names[i + 1]);
        }
        match eval_term(nodes, env, memo, t) {
            Ok(v) => {
                lemma_run_memo_reads(nodes, a, b, rest, env.insert(name, v), memo_after(nodes, env, memo, t));
            },
            Err(_) => {},
        }
    }
}

/// Evaluating one sequence of outputs and then another is evaluating the
/// first and then, with the environment and the cache that it left, the
/// second.
pub proof fn lemma_run_split(
    nodes: Seq<NodeView>,
    outputs: Map<Seq<char>, Term>,
    first: Seq<Seq<char>>,
    second: Seq<Seq<char>>,
    env: Env,
    memo: Memo,
)
    ensures
        run(nodes, outputs, first + second, env, memo) == (match run(nodes, outputs, first, env, memo) {
            Ok(mid) => run(nodes, outputs, second, mid, run_memo(nodes, outputs, first, env, memo)),
            Err(e) => Err(e),
        }),
    decreases first.len(),
{
    let whole = first + second;
    if first.len() == 0 {
        assert(whole =~= second);
    } else {
        let name = first[0];
        let t = outputs[name];
        assert(whole[0] == name);
        assert(whole.drop_first() =~= first.drop_first() + second);
        match eval_term(nodes, env, memo, t) {
            Ok(v) => {
                lemma_run_split(
                    nodes,
                    outputs,
                    first.drop_first(),
                    second,
                    env.insert(name, v),
                    memo_after(nodes, env, memo, t),
                );
            },
            Err(_) => {},
        }
    }
}

/// What is left of a sequence of new names after its first is bound is a
/// sequence of new names.
proof fn lemma_rest_unbound(
    nodes: Seq<NodeView>,
    outputs: Map<Seq<char>, Term>,
    names: Seq<Seq<char>>,
    env: Env,
    v: Value,
)
    requires
        names.len() > 0,
        names.no_duplicates(),
        unbound(env, names),
        within(nodes, outputs, names),
    ensures
        names.drop_first().no_duplicates(),
        unbound(env.insert(names[0], v), names.drop_first()),
        within(nodes, outputs, names.drop_first()),
{
    let rest = names.drop_first();
    assert forall|i: int| 0 <= i < rest.len() implies !env.insert(names[0], v).contains_key(#[trigger] rest[i]) by {
        assert(rest[i] == names[i + 1]);
    }
    assert forall|i: int| 0 <= i < rest.len() implies (#[trigger] outputs[rest[i]]).index < nodes.len() by {
        assert(rest[i] == names[i + 1]);
    }
    assert forall|i: int, j: int| 0 <= i < rest.len() && 0 <= j < rest.len() && i != j implies rest[i] != rest[j] by {
        assert(rest[i] == names[i + 1]);
        assert(rest[j] == names[j + 1]);
    }
}

/// Where no output name is bound beforehand, the evaluation of a sequence
/// of outputs does not depend on which fresh values the cache holds.
pub proof fn lemma_run_fresh(
    nodes: Seq<NodeView>,
    outputs: Map<Seq<char>, Term>,
    names: Seq<Seq<char>>,
    env: Env,
    memo: Memo,
    other: Memo,
)
    requires
        children_first(nodes),
        fresh(nodes, env, memo),
        fresh(nodes, env, other),
        names.no_duplicates(),
        unbound(env, names),
        within(nodes, outputs, names),
    ensures
        run(nodes, outputs, names, env, memo) == run(nodes, outputs, names, env, other),
    decreases names.len(),
{
    if names.len() > 0 {
        let name = names[0];
        let t = outputs[name];
        lemma_fresh_eval(nodes, env, memo, t);
        lemma_fresh_eval(nodes, env, other, t);
        match eval_term(nodes, env, memo, t) {
            Ok(v) => {
                lemma_fresh_after(nodes, env, memo, t, name);
                lemma_fresh_after(nodes, env, other, t, name);
                lemma_rest_unbound(nodes, outputs, names, env, v);
                lemma_run_fresh(
                    nodes,
                    outputs,
                    names.drop_first(),
                    env.insert(name, v),
                    memo_after(nodes, env, memo, t),
                    memo_after(nodes, env, other, t),
                );
            },
            Err(_) => {},
        }
    }
}

/// Where no output name is bound beforehand, evaluating one sequence of
/// outputs and then another, with one cache, is evaluating the first and
/// then, from what it gave and with an empty cache, the second.
pub proof fn lemma_run_concat(
    nodes: Seq<NodeView>,
    outputs: Map<Seq<char>, Term>,
    first: Seq<Seq<char>>,
    second: Seq<Seq<char>>,
    env: Env,
    memo: Memo,
)
    requires
        children_first(nodes),
        fresh(nodes, env, memo),
        (first + second).no_duplicates(),
        unbound(env, first + second),
        within(nodes, outputs, first + second),
    ensures
        run(nodes, outputs, first + second, env, memo) == (match run(nodes, outputs, first, env, memo) {
            Ok(mid) => run(nodes, outputs, second, mid, Map::empty()),
            Err(e) => Err(e),
        }),
    decreases first.len(),
{
    let whole = first + second;
    if first.len() == 0 {
        assert(whole =~= second);
        assert(fresh(nodes, env, Map::empty()));
        lemma_run_fresh(nodes, outputs, second, env, memo, Map::empty());
    } else {
        let name = first[0];
        let t = outputs[name];
        assert(whole[0] == name);
        assert(whole.drop_first() =~= first.drop_first() + second);
        match eval_term(nodes, env, memo, t) {
            Ok(v) => {
                lemma_fresh_after(nodes, env, memo, t, name);
                lemma_rest_unbound(nodes, outputs, whole, env, v);
                lemma_run_concat(
                    nodes,
                    outputs,
                    first.drop_first(),
                    second,
                    env.insert(name, v),
                    memo_after(nodes, env, memo, t),
                );
            },
            Err(_) => {},
        }
    }
}

/// Composition is evaluation in stages, with one cache. Where two
/// precomputations have no output name in common, evaluating the first
/// followed by the second is evaluating the first, and then the second under
/// the environment and with the cache that the first left.
pub proof fn lemma_compose_eval_cached(nodes: Seq<NodeView>, p: PreCompView, q: PreCompView, env: Env)
    requires
        p.wf(),
        q.wf(),
        !p.collides(q),
    ensures
        p.followed_by(q).wf(),
        p.followed_by(q).eval(nodes, env) == (match p.eval(nodes, env) {
            Ok(mid) => run(
                nodes,
                q.outputs,
                q.sequence,
                mid,
                run_memo(nodes, p.outputs, p.sequence, env, Map::empty()),
            ),
            Err(e) => Err(e),
        }),
{
    let both = p.followed_by(q);
    let none = Map::<Term, Value>::empty();
    lemma_followed_by_wf(p, q);
    assert forall|i: int| 0 <= i < p.sequence.len() implies both.outputs[#[trigger] p.sequence[i]]
        == p.outputs[p.sequence[i]] by {
        assert(p.sequence.contains(p.sequence[i]));
        assert(!q.outputs.contains_key(p.sequence[i]));
    }
    assert forall|i: int| 0 <= i < q.sequence.len() implies both.outputs[#[trigger] q.sequence[i]]
        == q.outputs[q.sequence[i]] by {
        assert(q.sequence.contains(q.sequence[i]));
    }
    lemma_run_split(nodes, both.outputs, p.sequence, q.sequence, env, none);
    lemma_run_reads(nodes, both.outputs, p.outputs, p.sequence, env, none);
    lemma_run_memo_reads(nodes, both.outputs, p.outputs, p.sequence, env, none);
    match run(nodes, p.outputs, p.sequence, env, none) {
        Ok(mid) => {
            lemma_run_reads(
                nodes,
                both.outputs,
                q.outputs,
                q.sequence,
                mid,
                run_memo(nodes, p.outputs, p.sequence, env, none),
            );
        },
        Err(_) => {},
    }
}

/// Composition is evaluation in stages. Where two precomputations have no
/// output name in common, and the environment binds no output name of
/// either, evaluating the first followed by the second is evaluating the
/// first, and then the second under the environment that the first gave.
pub proof fn lemma_compose_eval(nodes: Seq<NodeView>, p: PreCompView, q: PreCompView, env: Env)
    requires
        children_first(nodes),
        p.wf(),
        q.wf(),
        !p.collides(q),
        within(nodes, p.outputs, p.sequence),
        within(nodes, q.outputs, q.sequence),
        unbound(env, p.sequence),
        unbound(env, q.sequence),
    ensures
        p.followed_by(q).eval(nodes, env) == (match p.eval(nodes, env) {
            Ok(mid) => q.eval(nodes, mid),
            Err(e) => Err(e),
        }),
{
    let both = p.followed_by(q);
    let none = Map::<Term, Value>::empty();
    assert forall|i: int| 0 <= i < p.sequence.len() implies both.outputs[#[trigger] p.sequence[i]]
        == p.outputs[p.sequence[i]] by {
        assert(p.sequence.contains(p.sequence[i]));
        assert(!q.outputs.contains_key(p.sequence[i]));
    }
    assert forall|i: int| 0 <= i < q.sequence.len() implies both.outputs[#[trigger] q.sequence[i]]
        == q.outputs[q.sequence[i]] by {
        assert(q.sequence.contains(q.sequence[i]));
    }
    let whole = p.sequence + q.sequence;
    assert(whole.no_duplicates()) by {
        assert forall|i: int, j: int| 0 <= i < whole.len() && 0 <= j < whole.len() && i != j implies whole[i]
            != whole[j] by {
            if i < p.sequence.len() && j >= p.sequence.len() {
                assert(p.sequence.contains(p.sequence[i]));
                assert(q.sequence.contains(q.sequence[j - p.sequence.len()]));
            }
            if j < p.sequence.len() && i >= p.sequence.len() {
                assert(p.sequence.contains(p.sequence[j]));
                assert(q.sequence.contains(q.sequence[i - p.sequence.len()]));
            }
        }
    }
    assert(unbound(env, whole)) by {
        assert forall|i: int| 0 <= i < whole.len() implies !env.contains_key(#[trigger] whole[i]) by {
            if i < p.sequence.len() {
                assert(whole[i] == p.sequence[i]);
            } else {
                assert(whole[i] == q.sequence[i - p.sequence.len()]);
            }
        }
    }
    assert(within(nodes, both.outputs, whole)) by {
        assert forall|i: int| 0 <= i < whole.len() implies (#[trigger] both.outputs[whole[i]]).index
            < nodes.len() by {
            if i < p.sequence.len() {
                assert(whole[i] == p.sequence[i]);
            } else {
                assert(whole[i] == q.sequence[i - p.sequence.len()]);
            }
        }
    }
    assert(fresh(nodes, env, none));
    lemma_run_concat(nodes, both.outputs, p.sequence, q.sequence, env, none);
    lemma_run_reads(nodes, both.outputs, p.outputs, p.sequence, env, none);
    match run(nodes, p.outputs, p.sequence, env, none) {
        Ok(mid) => {
            lemma_run_reads(nodes, both.outputs, q.outputs, q.sequence, mid, none);
        },
        Err(_) => {},
    }
}

/// Evaluation is a function of the graph, the precomputation and the
/// environment: the same three give the same result.
pub proof fn lemma_eval_deterministic(
    nodes: Seq<NodeView>,
    p: PreCompView,
    env: Env,
    nodes_again: Seq<NodeView>,
    p_again: PreCompView,
    env_again: Env,
)
    requires
        nodes =~= nodes_again,
        p.outputs =~= p_again.outputs,
        p.sequence =~= p_again.sequence,
        env =~= env_again,
    ensures
        p.eval(nodes, env) == p_again.eval(nodes_again, env_again),
{
}

} // verus!
