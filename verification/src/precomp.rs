//! Precomputations: named outputs, each computed by a term, in the order in
//! which they are to be resolved.

use vstd::prelude::*;
use fxhash::{FxHashMap, FxHashSet};
use crate::deps::{input_leaf, input_names, is_var, last_input_leaf, resolvable, unresolved};
use crate::cache::{eval_cached, ValueCache};
use crate::eval::{eval_term, memo_after, Env, EvalError, Memo};
use crate::lists::{lemma_filter_members, lemma_filter_next, lemma_filter_no_duplicates};
use crate::names::{
    name_members, name_set_insert, name_set_new, term_entries, term_map_get, term_map_insert, term_map_len,
    term_map_new, term_map_remove, value_entries, value_map_clone, value_map_insert,
};
use crate::term::{ascending, reachable, reaches, NodeView, Op, Term, TermGraph, Value};

verus! {

/// The names that a list of strings holds, each as its sequence of characters.
pub open spec fn names_of(v: Seq<String>) -> Seq<Seq<char>> {
    Seq::new(v.len(), |i: int| v[i]@)
}

/// What evaluating the outputs `sequence`, in order, makes of `env`: each
/// output is evaluated under the environment that holds the outputs before
/// it, and is bound in it under its name. The cache `memo` is kept from one
/// output to the next. The first failure ends the evaluation.
pub open spec fn run(
    nodes: Seq<NodeView>,
    outputs: Map<Seq<char>, Term>,
    sequence: Seq<Seq<char>>,
    env: Env,
    memo: Memo,
) -> Result<Env, EvalError>
    decreases sequence.len(),
{
    if sequence.len() == 0 {
        Ok(env)
    } else {
        let name = sequence[0];
        let t = outputs[name];
        match eval_term(nodes, env, memo, t) {
            Err(e) => Err(e),
            Ok(v) => run(
                nodes,
                outputs,
                sequence.drop_first(),
                env.insert(name, v),
                memo_after(nodes, env, memo, t),
            ),
        }
    }
}

/// The cache that evaluating the outputs `sequence` leaves, where it
/// succeeds.
pub open spec fn run_memo(
    nodes: Seq<NodeView>,
    outputs: Map<Seq<char>, Term>,
    sequence: Seq<Seq<char>>,
    env: Env,
    memo: Memo,
) -> Memo
    decreases sequence.len(),
{
    if sequence.len() == 0 {
        memo
    } else {
        let name = sequence[0];
        let t = outputs[name];
        match eval_term(nodes, env, memo, t) {
            Err(_) => memo,
            Ok(v) => run_memo(
                nodes,
                outputs,
                sequence.drop_first(),
                env.insert(name, v),
                memo_after(nodes, env, memo, t),
            ),
        }
    }
}

/// What a [`PreComp`] is: its outputs and the order they are resolved in.
pub struct PreCompView {
    pub outputs: Map<Seq<char>, Term>,
    pub sequence: Seq<Seq<char>>,
}

impl PreCompView {
    /// Whether the sequence lists every output name, once, and nothing else.
    pub open spec fn wf(self) -> bool {
        &&& self.sequence.no_duplicates()
        &&& forall|name: Seq<char>| self.outputs.contains_key(name) <==> self.sequence.contains(name)
    }

    /// The terms of the outputs, in the order of the sequence.
    pub open spec fn terms(self) -> Seq<Term> {
        Seq::new(self.sequence.len(), |i: int| self.outputs[self.sequence[i]])
    }

    /// This precomputation with the output `name` added at the end.
    pub open spec fn with_output(self, name: Seq<char>, t: Term) -> PreCompView {
        PreCompView { outputs: self.outputs.insert(name, t), sequence: self.sequence.push(name) }
    }

    /// This precomputation followed by `other`.
    pub open spec fn followed_by(self, other: PreCompView) -> PreCompView {
        PreCompView {
            outputs: self.outputs.union_prefer_right(other.outputs),
            sequence: self.sequence + other.sequence,
        }
    }

    /// Which output names stay when the precomputation is restricted to the
    /// inputs `known`: those whose terms depend on no free variable outside
    /// `known`.
    pub open spec fn kept(self, nodes: Seq<NodeView>, known: Set<Seq<char>>) -> spec_fn(Seq<char>) -> bool {
        |name: Seq<char>| resolvable(nodes, known, self.outputs[name])
    }

    /// This precomputation restricted to the inputs `known`: the outputs
    /// that stay, in their order.
    pub open spec fn restricted(self, nodes: Seq<NodeView>, known: Set<Seq<char>>) -> PreCompView {
        PreCompView {
            outputs: self.outputs.restrict(Set::new(self.kept(nodes, known))),
            sequence: self.sequence.filter(self.kept(nodes, known)),
        }
    }

    /// What evaluating this precomputation makes of `env`: `env` with every
    /// output bound to its value, or the first failure.
    pub open spec fn eval(self, nodes: Seq<NodeView>, env: Env) -> Result<Env, EvalError> {
        run(nodes, self.outputs, self.sequence, env, Map::empty())
    }

    /// Whether some name is an output of both.
    pub open spec fn collides(self, other: PreCompView) -> bool {
        exists|name: Seq<char>| self.outputs.contains_key(name) && other.outputs.contains_key(name)
    }
}

/// An output name that was given twice. Outputs are written once.
#[derive(Debug, Clone, PartialEq, Eq)]
pub struct DuplicateOutput {
    pub name: String,
}

/// A precomputation: a computation that one party runs in advance. It may
/// have several stages: an output can read, as a free variable, an output
/// that comes before it in the sequence.
#[derive(Debug, Clone, PartialEq)]
pub struct PreComp {
    /// The terms that compute the outputs, by output name.
    outputs: FxHashMap<String, Term>,
    /// The order in which the outputs are resolved.
    pub sequence: Vec<String>,
}

impl View for PreComp {
    type V = PreCompView;

    closed spec fn view(&self) -> PreCompView {
        PreCompView { outputs: term_entries(self.outputs), sequence: names_of(self.sequence@) }
    }
}

impl Default for PreComp {
    fn default() -> (p: PreComp)
        ensures
            p@.outputs == (Map::<Seq<char>, Term>::empty()),
            p@.sequence == Seq::<Seq<char>>::empty(),
    {
        PreComp::new()
    }
}

/// Adding a name at the end of a list of strings adds it at the end of its names.
proof fn lemma_names_push(v: Seq<String>, s: String)
    ensures
        names_of(v.push(s)) == names_of(v).push(s@),
{
    assert(names_of(v.push(s)) =~= names_of(v).push(s@));
}

impl PreComp {
    /// Whether the sequence lists every output name, once, and nothing else.
    pub open spec fn wf(&self) -> bool {
        self@.wf()
    }

    /// Whether the terms of all outputs are nodes of `g`.
    pub open spec fn fits(&self, g: &TermGraph) -> bool {
        forall|name: Seq<char>| self@.outputs.contains_key(name) ==> g.contains(#[trigger] self@.outputs[name])
    }

    /// A precomputation without outputs.
    pub fn new() -> (p: PreComp)
        ensures
            p@.outputs == (Map::<Seq<char>, Term>::empty()),
            p@.sequence == Seq::<Seq<char>>::empty(),
            p.wf(),
    {
        let p = PreComp { outputs: term_map_new(), sequence: Vec::new() };
        assert(p@.sequence =~= Seq::<Seq<char>>::empty());
        p
    }

    /// Whether the sequence lists every output name, once, and nothing
    /// else. This holds of every precomputation that the functions here
    /// have made; a change of `sequence` by hand can break it.
    pub fn is_wf(&self) -> (ok: bool)
        ensures
            ok == self.wf(),
    {
        let ghost names = self@.sequence;
        let ghost bound = self@.outputs.dom();
        let n = term_map_len(&self.outputs);
        let mut seen = name_set_new();
        let mut i: usize = 0;
        while i < self.sequence.len()
            invariant
                0 <= i <= self.sequence.len(),
                names == self@.sequence,
                names.take(i as int).no_duplicates(),
                forall|name: Seq<char>| name_members(seen).contains(name) <==> names.take(i as int).contains(name),
                forall|k: int| 0 <= k < i ==> self@.outputs.contains_key(#[trigger] names[k]),
            decreases self.sequence.len() - i,
        {
            let ghost here = names[i as int];
            let ghost before = names.take(i as int);
            let ghost after = names.take(i as int + 1);
            if term_map_get(&self.outputs, &self.sequence[i]).is_none() {
                assert(names.contains(here));
                return false;
            }
            if !name_set_insert(&mut seen, self.sequence[i].clone()) {
                proof {
                    let k = choose|k: int| 0 <= k < before.len() && before[k] == here;
                    assert(names[k] == names[i as int]);
                }
                return false;
            }
            proof {
                assert(after =~= before.push(here));
                assert forall|a: int, b: int| 0 <= a < after.len() && 0 <= b < after.len() && a != b implies after[a]
                    != after[b] by {
                    if a == i {
                        assert(before.contains(before[b]));
                    } else if b == i {
                        assert(before.contains(before[a]));
                    }
                }
                assert forall|name: Seq<char>| name_members(seen).contains(name) <==> after.contains(name) by {
                    if before.contains(name) {
                        let k = choose|k: int| 0 <= k < before.len() && before[k] == name;
                        assert(after[k] == name);
                    }
                    if name == here {
                        assert(after[i as int] == name);
                    }
                    if after.contains(name) && name != here {
                        let k = choose|k: int| 0 <= k < after.len() && after[k] == name;
                        assert(before[k] == name);
                    }
                }
            }
            i += 1;
        }
        proof {
            assert(names.take(i as int) =~= names);
            names.unique_seq_to_set();
            vstd::seq_lib::seq_to_set_is_finite(names);
            assert(names.to_set().subset_of(bound)) by {
                assert forall|name: Seq<char>| names.to_set().contains(name) implies bound.contains(name) by {
                    let k = choose|k: int| 0 <= k < names.len() && names[k] == name;
                    assert(self@.outputs.contains_key(names[k]));
                }
            }
            if n == self.sequence.len() {
                vstd::set_lib::lemma_subset_equality(names.to_set(), bound);
                assert forall|name: Seq<char>| self@.outputs.contains_key(name) <==> names.contains(name) by {
                    assert(bound.contains(name) == names.to_set().contains(name));
                }
            } else if self.wf() {
                assert(bound =~= names.to_set());
            }
        }
        n == self.sequence.len()
    }

    /// Whether the terms of all outputs are nodes of `g`.
    pub fn fits_in(&self, g: &TermGraph) -> (ok: bool)
        requires
            self.wf(),
        ensures
            ok == self.fits(g),
    {
        let ts = self.output_terms();
        let mut i: usize = 0;
        while i < ts.len()
            invariant
                0 <= i <= ts.len(),
                self.wf(),
                ts@ == self@.terms(),
                forall|k: int| 0 <= k < i ==> g.contains(#[trigger] ts@[k]),
            decreases ts.len() - i,
        {
            if ts[i].index >= g.len() {
                proof {
                    assert(self@.sequence.contains(self@.sequence[i as int]));
                    assert(ts@[i as int] == self@.outputs[self@.sequence[i as int]]);
                }
                return false;
            }
            i += 1;
        }
        proof {
            assert forall|name: Seq<char>| self@.outputs.contains_key(name) implies g.contains(
                #[trigger] self@.outputs[name],
            ) by {
                assert(self@.sequence.contains(name));
                let k = choose|k: int| 0 <= k < self@.sequence.len() && self@.sequence[k] == name;
                assert(ts@[k] == self@.outputs[name]);
            }
        }
        true
    }

    /// The outputs: each name with the term that computes it.
    pub fn outputs(&self) -> (m: &FxHashMap<String, Term>)
        ensures
            term_entries(*m) == self@.outputs,
    {
        &self.outputs
    }

    /// Adds the output `name`, computed by `value`, at the end of the
    /// sequence. The name must be new.
    pub fn add_output(&mut self, name: String, value: Term)
        requires
            old(self).wf(),
            !old(self)@.outputs.contains_key(name@),
        ensures
            final(self)@ == old(self)@.with_output(name@, value),
            final(self).wf(),
    {
        proof {
            lemma_names_push(self.sequence@, name);
            lemma_with_output_wf(self@, name@, value);
        }
        self.sequence.push(name.clone());
        let _ = term_map_insert(&mut self.outputs, name, value);
    }

    /// Adds the output `name` as `add_output` does, unless `name` is an
    /// output already: then nothing changes and the name comes back as the
    /// error.
    pub fn try_add_output(&mut self, name: String, value: Term) -> (r: Result<(), DuplicateOutput>)
        requires
            old(self).wf(),
        ensures
            r is Err <==> old(self)@.outputs.contains_key(name@),
            r is Err ==> *final(self) == *old(self) && r->Err_0.name == name,
            r is Ok ==> final(self)@ == old(self)@.with_output(name@, value),
            final(self).wf(),
    {
        match term_map_get(&self.outputs, &name) {
            Some(_) => Err(DuplicateOutput { name }),
            None => {
                self.add_output(name, value);
                Ok(())
            },
        }
    }

    /// The terms of the outputs, in the order of the sequence.
    pub fn output_terms(&self) -> (ts: Vec<Term>)
        requires
            self.wf(),
        ensures
            ts@ == self@.terms(),
    {
        let mut ts: Vec<Term> = Vec::new();
        let mut i: usize = 0;
        while i < self.sequence.len()
            invariant
                0 <= i <= self.sequence.len(),
                self.wf(),
                ts@.len() == i,
                forall|k: int| 0 <= k < i ==> ts@[k] == self@.outputs[self@.sequence[k]],
            decreases self.sequence.len() - i,
        {
            assert(self@.sequence.contains(self@.sequence[i as int]));
            match term_map_get(&self.outputs, &self.sequence[i]) {
                Some(t) => {
                    ts.push(t);
                },
                None => {
                    assert(false);
                },
            }
            i += 1;
        }
        assert(ts@ =~= self@.terms());
        ts
    }

    /// Keeps the outputs that can be evaluated from the inputs `known`, in
    /// their order, and drops the others.
    ///
    /// An output stays just when its term depends on no free variable
    /// outside `known`. The test is made once, against `known` as it is
    /// given: an output that stays does not make a later output that reads
    /// it by name any more resolvable.
    pub fn restrict_to_inputs(&mut self, g: &TermGraph, known: FxHashSet<String>)
        requires
            g.wf(),
            old(self).wf(),
            old(self).fits(g),
        ensures
            final(self)@ == old(self)@.restricted(g@, name_members(known)),
            final(self).wf(),
            final(self).fits(g),
    {
        let ghost before = self@;
        let ghost keep = before.kept(g@, name_members(known));
        let roots = self.output_terms();
        proof {
            assert forall|i: int| 0 <= i < roots@.len() implies g.contains(#[trigger] roots@[i]) by {
                assert(before.sequence.contains(before.sequence[i]));
            }
        }
        let marks = unresolved(g, &roots, &known);
        let mut kept: Vec<String> = Vec::new();
        let mut i: usize = 0;
        proof {
            reveal(Seq::filter);
            assert(before.sequence.take(0).filter(keep) =~= names_of(kept@));
        }
        while i < self.sequence.len()
            invariant
                0 <= i <= self.sequence.len(),
                before.wf(),
                names_of(self.sequence@) == before.sequence,
                roots@ == before.terms(),
                keep == before.kept(g@, name_members(known)),
                marks@.len() == g@.len(),
                g.contains_all(roots@),
                forall|t: Term|
                    t.index < marks@.len() ==> marks@[t.index as int] == (#[trigger] reachable(g@, roots@, t)
                        && !resolvable(g@, name_members(known), t)),
                names_of(kept@) == before.sequence.take(i as int).filter(keep),
                forall|name: Seq<char>|
                    term_entries(self.outputs).contains_key(name) <==> before.outputs.contains_key(name) && (keep(name)
                        || !before.sequence.take(i as int).contains(name)),
                forall|name: Seq<char>|
                    term_entries(self.outputs).contains_key(name) ==> #[trigger] term_entries(self.outputs)[name]
                        == before.outputs[name],
            decreases self.sequence.len() - i,
        {
            let name = self.sequence[i].clone();
            let ghost seen = before.sequence.take(i as int);
            proof {
                assert(before.sequence[i as int] == name@);
                assert(before.sequence.contains(name@));
                if seen.contains(name@) {
                    let k = choose|k: int| 0 <= k < seen.len() && seen[k] == name@;
                    assert(before.sequence[k] == before.sequence[i as int]);
                }
                lemma_filter_next(before.sequence, keep, i as int);
            }
            let ghost held = term_entries(self.outputs);
            let ghost here = name@;
            match term_map_get(&self.outputs, &name) {
                Some(t) => {
                    proof {
                        assert(roots@[i as int] == t);
                        assert(reaches(g@, roots@[i as int], t));
                        assert(reachable(g@, roots@, t));
                        assert(g.contains(roots@[i as int]));
                        assert(t == before.outputs[name@]);
                        assert(keep(name@) == resolvable(g@, name_members(known), t));
                    }
                    if marks[t.index] {
                        let _ = term_map_remove(&mut self.outputs, &name);
                    } else {
                        proof {
                            assert(names_of(kept@.push(name)) =~= names_of(kept@).push(name@));
                        }
                        kept.push(name);
                    }
                },
                None => {
                    assert(false);
                },
            }
            proof {
                let next = before.sequence.take(i as int + 1);
                assert forall|n: Seq<char>| next.contains(n) <==> seen.contains(n) || n == here by {
                    if seen.contains(n) {
                        let k = choose|k: int| 0 <= k < seen.len() && seen[k] == n;
                        assert(next[k] == n);
                    }
                    if n == here {
                        assert(next[i as int] == n);
                    }
                    if next.contains(n) {
                        let k = choose|k: int| 0 <= k < next.len() && next[k] == n;
                        if k < i {
                            assert(seen[k] == n);
                        }
                    }
                }
                assert(term_entries(self.outputs) == (if keep(here) {
                    held
                } else {
                    held.remove(here)
                }));
                assert forall|n: Seq<char>|
                    term_entries(self.outputs).contains_key(n) <==> before.outputs.contains_key(n) && (keep(n)
                        || !next.contains(n)) by {
                    assert(held.contains_key(n) <==> before.outputs.contains_key(n) && (keep(n) || !seen.contains(n)));
                    if n != here {
                        assert(next.contains(n) <==> seen.contains(n));
                    } else {
                        assert(next.contains(n));
                    }
                }
            }
            i += 1;
        }
        self.sequence = kept;
        proof {
            assert(before.sequence.take(i as int) =~= before.sequence);
            assert(self@.outputs =~= before.outputs.restrict(Set::new(keep)));
            lemma_restricted_wf(before, g@, name_members(known));
        }
    }

    /// Evaluates the outputs in the order of the sequence and returns `env`
    /// with every output bound to its value.
    ///
    /// Each output is bound as soon as it is evaluated, so that an output
    /// after it can read it as a free variable. One cache of values serves
    /// the whole call: a node is evaluated once. The result depends on the
    /// graph, the precomputation and the bindings of `env` alone.
    pub fn eval(&self, g: &TermGraph, env: &FxHashMap<String, Value>) -> (r: Result<FxHashMap<String, Value>, EvalError>)
        requires
            g.wf(),
            self.wf(),
            self.fits(g),
        ensures
            match r {
                Ok(m) => self@.eval(g@, value_entries(*env)) == Ok::<Env, EvalError>(value_entries(m)),
                Err(e) => self@.eval(g@, value_entries(*env)) == Err::<Env, EvalError>(e),
            },
    {
        let mut cache = ValueCache::new();
        let mut cur = value_map_clone(env);
        let mut i: usize = 0;
        assert(self@.sequence.skip(0) =~= self@.sequence);
        while i < self.sequence.len()
            invariant
                0 <= i <= self.sequence.len(),
                g.wf(),
                self.wf(),
                self.fits(g),
                cache.wf(g),
                self@.eval(g@, value_entries(*env)) == run(
                    g@,
                    self@.outputs,
                    self@.sequence.skip(i as int),
                    value_entries(cur),
                    cache@,
                ),
            decreases self.sequence.len() - i,
        {
            let ghost rest = self@.sequence.skip(i as int);
            proof {
                assert(rest[0] == self@.sequence[i as int]);
                assert(rest.drop_first() =~= self@.sequence.skip(i as int + 1));
                assert(self@.sequence.contains(self@.sequence[i as int]));
            }
            match term_map_get(&self.outputs, &self.sequence[i]) {
                Some(t) => {
                    match eval_cached(g, t, &cur, &mut cache) {
                        Ok(v) => {
                            let _ = value_map_insert(&mut cur, self.sequence[i].clone(), v);
                        },
                        Err(e) => {
                            return Err(e);
                        },
                    }
                },
                None => {
                    assert(false);
                },
            }
            i += 1;
        }
        Ok(cur)
    }

    /// The free variables of the outputs: each name with its leaf.
    ///
    /// These are the leaves that the terms of the outputs reach. Where
    /// leaves of different sorts have one name, the name goes with the leaf
    /// of greatest index. The name of an output is among them where a term
    /// reads it as a free variable.
    pub fn inputs_to_terms(&self, g: &TermGraph) -> (m: FxHashMap<String, Term>)
        requires
            g.wf(),
            self.wf(),
            self.fits(g),
        ensures
            term_entries(m).dom() == input_names(g@, self@.terms()),
            forall|name: Seq<char>|
                term_entries(m).contains_key(name) ==> last_input_leaf(
                    g@,
                    self@.terms(),
                    name,
                    #[trigger] term_entries(m)[name],
                ),
    {
        let roots = self.output_terms();
        proof {
            assert forall|i: int| 0 <= i < roots@.len() implies g.contains(#[trigger] roots@[i]) by {
                assert(self@.sequence.contains(self@.sequence[i]));
            }
        }
        let order = g.post_order(&roots);
        let mut m = term_map_new();
        let mut k: usize = 0;
        while k < order.len()
            invariant
                0 <= k <= order.len(),
                g.contains_all(order@),
                ascending(order@),
                forall|name: Seq<char>|
                    term_entries(m).contains_key(name) <==> exists|i: int|
                        0 <= i < k && is_var(g@, #[trigger] order@[i], name),
                forall|name: Seq<char>|
                    term_entries(m).contains_key(name) ==> is_var(g@, #[trigger] term_entries(m)[name], name)
                        && order@.contains(term_entries(m)[name]) && forall|i: int|
                        0 <= i < k && is_var(g@, #[trigger] order@[i], name) ==> order@[i].index <= term_entries(
                            m,
                        )[name].index,
            decreases order.len() - k,
        {
            let n = order[k];
            assert(g.contains(order@[k as int]));
            let ghost held = term_entries(m);
            match g.op(n) {
                Op::Var(name, _) => {
                    let _ = term_map_insert(&mut m, name.clone(), n);
                    proof {
                        assert(is_var(g@, order@[k as int], name@));
                        assert forall|other: Seq<char>| term_entries(m).contains_key(other) implies is_var(
                            g@,
                            #[trigger] term_entries(m)[other],
                            other,
                        ) && order@.contains(term_entries(m)[other]) && forall|i: int|
                            0 <= i < k + 1 && is_var(g@, #[trigger] order@[i], other) ==> order@[i].index
                                <= term_entries(m)[other].index by {
                            if other == name@ {
                                assert forall|i: int| 0 <= i < k + 1 && is_var(g@, #[trigger] order@[i], other) implies order@[i].index
                                    <= n.index by {
                                    if i < k {
                                        assert(order@[i].index < order@[k as int].index);
                                    }
                                }
                            } else {
                                assert(held.contains_key(other));
                                assert(term_entries(m)[other] == held[other]);
                            }
                        }
                    }
                },
                _ => {
                    proof {
                        assert forall|name: Seq<char>|
                            term_entries(m).contains_key(name) <==> exists|i: int|
                                0 <= i < k + 1 && is_var(g@, #[trigger] order@[i], name) by {
                            if exists|i: int| 0 <= i < k + 1 && is_var(g@, #[trigger] order@[i], name) {
                                let i = choose|i: int| 0 <= i < k + 1 && is_var(g@, #[trigger] order@[i], name);
                                assert(i < k);
                            }
                        }
                    }
                },
            }
            k += 1;
        }
        proof {
            let nodes = g@;
            let rs = self@.terms();
            assert forall|name: Seq<char>| term_entries(m).contains_key(name) <==> input_names(nodes, rs).contains(
                name,
            ) by {
                if term_entries(m).contains_key(name) {
                    let i = choose|i: int| 0 <= i < k && is_var(g@, #[trigger] order@[i], name);
                    assert(order@.contains(order@[i]));
                    assert(input_leaf(nodes, rs, name, order@[i]));
                }
                if input_names(nodes, rs).contains(name) {
                    let leaf = choose|leaf: Term| #[trigger] input_leaf(nodes, rs, name, leaf);
                    assert(order@.contains(leaf));
                    let i = choose|i: int| 0 <= i < order@.len() && order@[i] == leaf;
                    assert(is_var(g@, order@[i], name));
                }
            }
            assert(term_entries(m).dom() =~= input_names(nodes, rs));
            assert forall|name: Seq<char>| term_entries(m).contains_key(name) implies last_input_leaf(
                nodes,
                rs,
                name,
                #[trigger] term_entries(m)[name],
            ) by {
                let found = term_entries(m)[name];
                assert forall|other: Term| #[trigger] input_leaf(nodes, rs, name, other) implies other.index
                    <= found.index by {
                    assert(order@.contains(other));
                    let i = choose|i: int| 0 <= i < order@.len() && order@[i] == other;
                    assert(is_var(g@, order@[i], name));
                }
            }
        }
        m
    }

    /// The names of the free variables of the outputs: the names that
    /// `inputs_to_terms` binds.
    pub fn inputs(&self, g: &TermGraph) -> (names: FxHashSet<String>)
        requires
            g.wf(),
            self.wf(),
            self.fits(g),
        ensures
            name_members(names) == input_names(g@, self@.terms()),
    {
        let roots = self.output_terms();
        proof {
            assert forall|i: int| 0 <= i < roots@.len() implies g.contains(#[trigger] roots@[i]) by {
                assert(self@.sequence.contains(self@.sequence[i]));
            }
        }
        let order = g.post_order(&roots);
        let mut names = name_set_new();
        let mut k: usize = 0;
        while k < order.len()
            invariant
                0 <= k <= order.len(),
                g.contains_all(order@),
                forall|name: Seq<char>|
                    name_members(names).contains(name) <==> exists|i: int|
                        0 <= i < k && is_var(g@, #[trigger] order@[i], name),
            decreases order.len() - k,
        {
            let n = order[k];
            assert(g.contains(order@[k as int]));
            match g.op(n) {
                Op::Var(name, _) => {
                    let _ = name_set_insert(&mut names, name.clone());
                    proof {
                        assert(is_var(g@, order@[k as int], name@));
                    }
                },
                _ => {
                    proof {
                        assert forall|name: Seq<char>|
                            name_members(names).contains(name) <==> exists|i: int|
                                0 <= i < k + 1 && is_var(g@, #[trigger] order@[i], name) by {
                            if exists|i: int| 0 <= i < k + 1 && is_var(g@, #[trigger] order@[i], name) {
                                let i = choose|i: int| 0 <= i < k + 1 && is_var(g@, #[trigger] order@[i], name);
                                assert(i < k);
                            }
                        }
                    }
                },
            }
            k += 1;
        }
        proof {
            let nodes = g@;
            let rs = self@.terms();
            assert forall|name: Seq<char>| name_members(names).contains(name) <==> input_names(nodes, rs).contains(
                name,
            ) by {
                if name_members(names).contains(name) {
                    let i = choose|i: int| 0 <= i < k && is_var(g@, #[trigger] order@[i], name);
                    assert(order@.contains(order@[i]));
                    assert(input_leaf(nodes, rs, name, order@[i]));
                }
                if input_names(nodes, rs).contains(name) {
                    let leaf = choose|leaf: Term| #[trigger] input_leaf(nodes, rs, name, leaf);
                    assert(order@.contains(leaf));
                    let i = choose|i: int| 0 <= i < order@.len() && order@[i] == leaf;
                    assert(is_var(g@, order@[i], name));
                }
            }
            assert(name_members(names) =~= input_names(nodes, rs));
        }
        names
    }

    /// This precomputation followed by `other`: the outputs of `other` are
    /// added at the end, in their order. No term is rewritten: an output of
    /// `other` that reads an output of `self` finds it bound when the whole
    /// is evaluated. The two must have no output name in common.
    pub fn sequential_compose(self, other: &PreComp) -> (r: PreComp)
        requires
            self.wf(),
            other.wf(),
            !self@.collides(other@),
        ensures
            r@ == self@.followed_by(other@),
            r.wf(),
    {
        let mut merged = self;
        let mut i: usize = 0;
        while i < other.sequence.len()
            invariant
                0 <= i <= other.sequence.len(),
                other.wf(),
                merged.wf(),
                !self@.collides(other@),
                merged@.sequence == self@.sequence + other@.sequence.take(i as int),
                forall|name: Seq<char>|
                    merged@.outputs.contains_key(name) <==> self@.outputs.contains_key(name)
                        || other@.sequence.take(i as int).contains(name),
                forall|name: Seq<char>|
                    merged@.outputs.contains_key(name) ==> #[trigger] merged@.outputs[name] == (if other@.outputs.contains_key(
                        name,
                    ) {
                        other@.outputs[name]
                    } else {
                        self@.outputs[name]
                    }),
            decreases other.sequence.len() - i,
        {
            let ghost name = other@.sequence[i as int];
            proof {
                assert(other@.sequence.contains(name));
                if other@.sequence.take(i as int).contains(name) {
                    let k = choose|k: int| 0 <= k < i && other@.sequence.take(i as int)[k] == name;
                    assert(other@.sequence[k] == other@.sequence[i as int]);
                }
                assert(other@.sequence.take(i as int + 1) =~= other@.sequence.take(i as int).push(name));
                assert(self@.sequence + other@.sequence.take(i as int).push(name) =~= (self@.sequence
                    + other@.sequence.take(i as int)).push(name));
            }
            match term_map_get(&other.outputs, &other.sequence[i]) {
                Some(t) => {
                    merged.add_output(other.sequence[i].clone(), t);
                },
                None => {
                    assert(false);
                },
            }
            proof {
                assert forall|n: Seq<char>|
                    merged@.outputs.contains_key(n) <==> self@.outputs.contains_key(n) || other@.sequence.take(
                        i as int + 1,
                    ).contains(n) by {
                    let before = other@.sequence.take(i as int);
                    let after = other@.sequence.take(i as int + 1);
                    if before.contains(n) {
                        let k = choose|k: int| 0 <= k < before.len() && before[k] == n;
                        assert(after[k] == n);
                    }
                    if after.contains(n) && n != name {
                        let k = choose|k: int| 0 <= k < after.len() && after[k] == n;
                        assert(before[k] == n);
                    }
                    if n == name {
                        assert(after[i as int] == n);
                    }
                }
            }
            i += 1;
        }
        proof {
            assert(other@.sequence.take(i as int) =~= other@.sequence);
            assert(merged@.outputs =~= self@.outputs.union_prefer_right(other@.outputs));
        }
        merged
    }

    /// This precomputation followed by `other`, as `sequential_compose`
    /// gives it, unless the two have an output name in common: then the
    /// error holds the first name of `other` that is an output of `self`.
    pub fn try_sequential_compose(self, other: &PreComp) -> (r: Result<PreComp, DuplicateOutput>)
        requires
            self.wf(),
            other.wf(),
        ensures
            r is Err <==> self@.collides(other@),
            r is Ok ==> r->Ok_0@ == self@.followed_by(other@) && r->Ok_0.wf(),
            r is Err ==> exists|i: int|
                0 <= i < other@.sequence.len() && #[trigger] other@.sequence[i] == r->Err_0.name@
                    && self@.outputs.contains_key(other@.sequence[i]) && forall|j: int|
                    0 <= j < i ==> !self@.outputs.contains_key(#[trigger] other@.sequence[j]),
    {
        let mut i: usize = 0;
        while i < other.sequence.len()
            invariant
                0 <= i <= other.sequence.len(),
                other.wf(),
                forall|j: int| 0 <= j < i ==> !self@.outputs.contains_key(#[trigger] other@.sequence[j]),
            decreases other.sequence.len() - i,
        {
            if term_map_get(&self.outputs, &other.sequence[i]).is_some() {
                proof {
                    let name = other@.sequence[i as int];
                    assert(other@.sequence.contains(name));
                    assert(self@.outputs.contains_key(name) && other@.outputs.contains_key(name));
                }
                return Err(DuplicateOutput { name: other.sequence[i].clone() });
            }
            i += 1;
        }
        proof {
            if self@.collides(other@) {
                let name = choose|name: Seq<char>|
                    self@.outputs.contains_key(name) && other@.outputs.contains_key(name);
                assert(other@.sequence.contains(name));
                let k = choose|k: int| 0 <= k < other@.sequence.len() && other@.sequence[k] == name;
                assert(!self@.outputs.contains_key(other@.sequence[k]));
            }
        }
        Ok(self.sequential_compose(other))
    }
}

/// Restricting a precomputation keeps the sequence and the outputs in step.
pub proof fn lemma_restricted_wf(p: PreCompView, nodes: Seq<NodeView>, known: Set<Seq<char>>)
    requires
        p.wf(),
    ensures
        p.restricted(nodes, known).wf(),
{
    lemma_filter_members(p.sequence, p.kept(nodes, known));
    lemma_filter_no_duplicates(p.sequence, p.kept(nodes, known));
}

/// Putting one precomputation after another keeps the sequence and the
/// outputs in step, where the two have no output name in common.
pub proof fn lemma_followed_by_wf(p: PreCompView, q: PreCompView)
    requires
        p.wf(),
        q.wf(),
        !p.collides(q),
    ensures
        p.followed_by(q).wf(),
{
    let both = p.followed_by(q);
    let n = p.sequence.len() as int;
    assert forall|name: Seq<char>| both.outputs.contains_key(name) <==> both.sequence.contains(name) by {
        if both.sequence.contains(name) {
            let i = choose|i: int| 0 <= i < both.sequence.len() && both.sequence[i] == name;
            if i < n {
                assert(p.sequence.contains(p.sequence[i]));
            } else {
                assert(q.sequence.contains(q.sequence[i - n]));
            }
        }
        if p.outputs.contains_key(name) {
            assert(p.sequence.contains(name));
            let i = choose|i: int| 0 <= i < p.sequence.len() && p.sequence[i] == name;
            assert(both.sequence[i] == name);
        }
        if q.outputs.contains_key(name) {
            assert(q.sequence.contains(name));
            let i = choose|i: int| 0 <= i < q.sequence.len() && q.sequence[i] == name;
            assert(both.sequence[i + n] == name);
        }
    }
    assert forall|i: int, j: int|
        0 <= i < both.sequence.len() && 0 <= j < both.sequence.len() && i != j implies both.sequence[i]
        != both.sequence[j] by {
        if i < n && j >= n {
            assert(p.sequence.contains(p.sequence[i]));
            assert(q.sequence.contains(q.sequence[j - n]));
        }
        if j < n && i >= n {
            assert(p.sequence.contains(p.sequence[j]));
            assert(q.sequence.contains(q.sequence[i - n]));
        }
    }
}

/// Adding a new output keeps the sequence and the outputs in step.
pub proof fn lemma_with_output_wf(p: PreCompView, name: Seq<char>, t: Term)
    requires
        p.wf(),
        !p.outputs.contains_key(name),
    ensures
        p.with_output(name, t).wf(),
{
    let q = p.with_output(name, t);
    assert forall|n: Seq<char>| q.outputs.contains_key(n) <==> q.sequence.contains(n) by {
        if q.sequence.contains(n) {
            let i = choose|i: int| 0 <= i < q.sequence.len() && q.sequence[i] == n;
            if i < p.sequence.len() {
                assert(p.sequence[i] == n);
                assert(p.sequence.contains(n));
            }
        }
        if q.outputs.contains_key(n) {
            if n == name {
                assert(q.sequence[p.sequence.len() as int] == n);
            } else {
                assert(p.sequence.contains(n));
                let i = choose|i: int| 0 <= i < p.sequence.len() && p.sequence[i] == n;
                assert(q.sequence[i] == n);
            }
        }
    }
    assert forall|i: int, j: int| 0 <= i < q.sequence.len() && 0 <= j < q.sequence.len() && i != j implies q.sequence[i]
        != q.sequence[j] by {
        if i == p.sequence.len() {
            assert(p.sequence[j] == q.sequence[j]);
            assert(p.sequence.contains(q.sequence[j]));
        } else if j == p.sequence.len() {
            assert(p.sequence[i] == q.sequence[i]);
            assert(p.sequence.contains(q.sequence[i]));
        }
    }
}

} // verus!
