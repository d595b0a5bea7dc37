use fxhash::{FxHashMap, FxHashSet};
use precomp::{DuplicateOutput, EvalError, Op, PreComp, Sort, Term, TermGraph, Value};

fn var(g: &mut TermGraph, name: &str) -> Term {
    g.term(Op::Var(name.to_string(), Sort::Int), vec![])
}

fn num(g: &mut TermGraph, x: i64) -> Term {
    g.term(Op::Const(Value::Int(x)), vec![])
}

fn add(g: &mut TermGraph, a: Term, b: Term) -> Term {
    g.term(Op::Add, vec![a, b])
}

fn env(bindings: &[(&str, i64)]) -> FxHashMap<String, Value> {
    let mut m = FxHashMap::default();
    for (name, x) in bindings {
        m.insert(name.to_string(), Value::Int(*x));
    }
    m
}

fn names(items: &[&str]) -> FxHashSet<String> {
    let mut s = FxHashSet::default();
    for name in items {
        s.insert(name.to_string());
    }
    s
}

fn strings(items: &[&str]) -> Vec<String> {
    items.iter().map(|s| s.to_string()).collect()
}

/// Outputs `a: x` and `b: a + y`, in that order.
fn two_stages(g: &mut TermGraph) -> PreComp {
    let x = var(g, "x");
    let a = var(g, "a");
    let y = var(g, "y");
    let sum = add(g, a, y);
    let mut p = PreComp::new();
    p.add_output("a".to_string(), x);
    p.add_output("b".to_string(), sum);
    p
}

fn in_step(p: &PreComp) -> bool {
    let listed: FxHashSet<String> = p.sequence.iter().cloned().collect();
    let bound: FxHashSet<String> = p.outputs().keys().cloned().collect();
    let ok = listed.len() == p.sequence.len() && listed == bound;
    assert_eq!(p.is_wf(), ok);
    ok
}

#[test]
fn new_is_empty() {
    let p = PreComp::new();
    assert!(p.outputs().is_empty());
    assert!(p.sequence.is_empty());
    assert_eq!(p, PreComp::default());
}

#[test]
fn add_output_appends_and_binds() {
    let mut g = TermGraph::new();
    let p = two_stages(&mut g);
    assert_eq!(p.sequence, strings(&["a", "b"]));
    assert_eq!(p.outputs().len(), 2);
    assert_eq!(p.outputs().get("a"), Some(&var(&mut g, "x")));
    let a = var(&mut g, "a");
    let y = var(&mut g, "y");
    assert_eq!(p.outputs().get("b"), Some(&add(&mut g, a, y)));
}

#[test]
fn sequence_and_outputs_stay_in_step() {
    let mut g = TermGraph::new();
    let mut p = two_stages(&mut g);
    assert!(in_step(&p));
    let z = var(&mut g, "z");
    p.add_output("c".to_string(), z);
    assert!(in_step(&p));
    let mut q = PreComp::new();
    let one = num(&mut g, 1);
    q.add_output("d".to_string(), one);
    let mut both = p.sequential_compose(&q);
    assert!(in_step(&both));
    both.restrict_to_inputs(&g, names(&["x"]));
    assert!(in_step(&both));
    assert_eq!(both.sequence, strings(&["a", "d"]));
}

#[test]
fn duplicate_output_is_refused() {
    let mut g = TermGraph::new();
    let mut p = two_stages(&mut g);
    let before = p.clone();
    let z = var(&mut g, "z");
    match p.try_add_output("a".to_string(), z) {
        Err(DuplicateOutput { name }) => assert_eq!(name, "a"),
        Ok(()) => panic!("a duplicate name was taken"),
    }
    assert_eq!(p, before);
    assert_eq!(p.outputs().get("a"), Some(&var(&mut g, "x")));
}

#[test]
fn new_output_is_taken() {
    let mut g = TermGraph::new();
    let mut p = two_stages(&mut g);
    let z = var(&mut g, "z");
    assert!(p.try_add_output("c".to_string(), z).is_ok());
    assert_eq!(p.sequence, strings(&["a", "b", "c"]));
    assert_eq!(p.outputs().get("c"), Some(&z));
}

#[test]
fn staged_resolution() {
    let mut g = TermGraph::new();
    let p = two_stages(&mut g);
    let got = p.eval(&g, &env(&[("x", 1), ("y", 2)])).unwrap();
    assert_eq!(got, env(&[("x", 1), ("y", 2), ("a", 1), ("b", 3)]));
}

#[test]
fn eval_leaves_its_arguments_alone() {
    let mut g = TermGraph::new();
    let p = two_stages(&mut g);
    let before = p.clone();
    let input = env(&[("x", 1), ("y", 2)]);
    let got = p.eval(&g, &input).unwrap();
    assert_eq!(input, env(&[("x", 1), ("y", 2)]));
    assert_ne!(got, input);
    assert_eq!(p, before);
}

#[test]
fn eval_twice_gives_the_same() {
    let mut g = TermGraph::new();
    let p = two_stages(&mut g);
    let input = env(&[("x", 4), ("y", -9)]);
    assert_eq!(p.eval(&g, &input), p.eval(&g, &input));
    let missing = env(&[("y", 2)]);
    assert_eq!(p.eval(&g, &missing), p.eval(&g, &missing));
}

#[test]
fn eval_of_nothing_is_the_environment() {
    let g = TermGraph::new();
    let p = PreComp::new();
    let input = env(&[("x", 1)]);
    assert_eq!(p.eval(&g, &input), Ok(input));
}

#[test]
fn missing_input_is_reported() {
    let mut g = TermGraph::new();
    let p = two_stages(&mut g);
    let x = var(&mut g, "x");
    let y = var(&mut g, "y");
    assert_eq!(p.eval(&g, &env(&[("y", 2)])), Err(EvalError::Unbound(x)));
    assert_eq!(p.eval(&g, &env(&[("x", 1)])), Err(EvalError::Unbound(y)));
    assert_eq!(g.op(x), &Op::Var("x".to_string(), Sort::Int));
}

#[test]
fn later_output_is_not_visible_earlier() {
    let mut g = TermGraph::new();
    let x = var(&mut g, "x");
    let a = var(&mut g, "a");
    let mut p = PreComp::new();
    p.add_output("b".to_string(), a);
    p.add_output("a".to_string(), x);
    assert_eq!(p.eval(&g, &env(&[("x", 1)])), Err(EvalError::Unbound(a)));
}

#[test]
fn cached_value_outlives_a_rebinding() {
    let mut g = TermGraph::new();
    let a = var(&mut g, "a");
    let x = var(&mut g, "x");
    let mut p = PreComp::new();
    p.add_output("c".to_string(), a);
    p.add_output("a".to_string(), x);
    p.add_output("d".to_string(), a);
    let got = p.eval(&g, &env(&[("a", 7), ("x", 1)])).unwrap();
    assert_eq!(got, env(&[("x", 1), ("c", 7), ("a", 1), ("d", 7)]));
}

#[test]
fn slicing_keeps_what_the_known_inputs_resolve() {
    let mut g = TermGraph::new();
    let mut p = two_stages(&mut g);
    let before = p.clone();
    p.restrict_to_inputs(&g, names(&["x", "y", "a"]));
    assert_eq!(p, before);
}

#[test]
fn slicing_is_a_single_pass() {
    let mut g = TermGraph::new();
    let mut p = two_stages(&mut g);
    p.restrict_to_inputs(&g, names(&["x", "y"]));
    assert_eq!(p.sequence, strings(&["a"]));
    assert_eq!(p.outputs().len(), 1);
    assert_eq!(p.outputs().get("a"), Some(&var(&mut g, "x")));
    assert_eq!(p.outputs().get("b"), None);
}

#[test]
fn slicing_drop_case() {
    let mut g = TermGraph::new();
    let z = var(&mut g, "z");
    let mut p = PreComp::new();
    p.add_output("a".to_string(), z);
    p.restrict_to_inputs(&g, names(&[]));
    assert!(p.outputs().is_empty());
    assert!(p.sequence.is_empty());
}

#[test]
fn slicing_keeps_the_order() {
    let mut g = TermGraph::new();
    let x = var(&mut g, "x");
    let z = var(&mut g, "z");
    let one = num(&mut g, 1);
    let xz = add(&mut g, x, z);
    let x1 = add(&mut g, x, one);
    let mut p = PreComp::new();
    p.add_output("first".to_string(), x1);
    p.add_output("second".to_string(), xz);
    p.add_output("third".to_string(), one);
    p.add_output("fourth".to_string(), z);
    p.add_output("fifth".to_string(), x);
    p.restrict_to_inputs(&g, names(&["x"]));
    assert_eq!(p.sequence, strings(&["first", "third", "fifth"]));
    assert_eq!(p.outputs().len(), 3);
    assert_eq!(p.outputs().get("first"), Some(&x1));
    assert_eq!(p.outputs().get("third"), Some(&one));
    assert_eq!(p.outputs().get("fifth"), Some(&x));
}

#[test]
fn slicing_follows_shared_subterms() {
    let mut g = TermGraph::new();
    let x = var(&mut g, "x");
    let z = var(&mut g, "z");
    let inner = add(&mut g, x, z);
    let outer = g.term(Op::Mul, vec![inner, inner]);
    let top = g.term(Op::Add, vec![outer, x]);
    let mut p = PreComp::new();
    p.add_output("deep".to_string(), top);
    p.add_output("flat".to_string(), x);
    let mut all = p.clone();
    p.restrict_to_inputs(&g, names(&["x"]));
    assert_eq!(p.sequence, strings(&["flat"]));
    all.restrict_to_inputs(&g, names(&["z", "x"]));
    assert_eq!(all.sequence, strings(&["deep", "flat"]));
}

#[test]
fn free_variable_extraction() {
    let mut g = TermGraph::new();
    let p = two_stages(&mut g);
    assert_eq!(p.inputs(&g), names(&["x", "y", "a"]));
}

#[test]
fn inputs_to_terms_gives_the_leaves() {
    let mut g = TermGraph::new();
    let p = two_stages(&mut g);
    let got = p.inputs_to_terms(&g);
    assert_eq!(got.len(), 3);
    assert_eq!(got.get("x"), Some(&var(&mut g, "x")));
    assert_eq!(got.get("y"), Some(&var(&mut g, "y")));
    assert_eq!(got.get("a"), Some(&var(&mut g, "a")));
    let keys: FxHashSet<String> = got.keys().cloned().collect();
    assert_eq!(keys, p.inputs(&g));
}

#[test]
fn inputs_of_constants_are_none() {
    let mut g = TermGraph::new();
    let one = num(&mut g, 1);
    let two = num(&mut g, 2);
    let sum = add(&mut g, one, two);
    let _unused = var(&mut g, "w");
    let mut p = PreComp::new();
    p.add_output("s".to_string(), sum);
    assert!(p.inputs(&g).is_empty());
    assert!(p.inputs_to_terms(&g).is_empty());
    assert!(PreComp::new().inputs(&g).is_empty());
}

#[test]
fn one_name_two_sorts_goes_with_the_later_leaf() {
    let mut g = TermGraph::new();
    let as_int = g.term(Op::Var("v".to_string(), Sort::Int), vec![]);
    let as_bool = g.term(Op::Var("v".to_string(), Sort::Bool), vec![]);
    assert_ne!(as_int, as_bool);
    let mut p = PreComp::new();
    p.add_output("o1".to_string(), as_bool);
    p.add_output("o2".to_string(), as_int);
    let got = p.inputs_to_terms(&g);
    assert_eq!(got.len(), 1);
    assert_eq!(got.get("v"), Some(&as_bool));
    assert_eq!(p.inputs(&g), names(&["v"]));
}

#[test]
fn composition_ordering() {
    let mut g = TermGraph::new();
    let x = var(&mut g, "x");
    let a = var(&mut g, "a");
    let one = num(&mut g, 1);
    let a1 = add(&mut g, a, one);
    let mut first = PreComp::new();
    first.add_output("a".to_string(), x);
    let mut second = PreComp::new();
    second.add_output("b".to_string(), a1);
    let both = first.sequential_compose(&second);
    assert_eq!(both.sequence, strings(&["a", "b"]));
    assert_eq!(both.outputs().get("a"), Some(&x));
    assert_eq!(both.outputs().get("b"), Some(&a1));
    let got = both.eval(&g, &env(&[("x", 5)])).unwrap();
    assert_eq!(got.get("a"), Some(&Value::Int(5)));
    assert_eq!(got.get("b"), Some(&Value::Int(6)));
    assert_eq!(got, env(&[("x", 5), ("a", 5), ("b", 6)]));
}

#[test]
fn composition_is_evaluation_in_stages() {
    let mut g = TermGraph::new();
    let x = var(&mut g, "x");
    let y = var(&mut g, "y");
    let a = var(&mut g, "a");
    let b = var(&mut g, "b");
    let xy = add(&mut g, x, y);
    let ab = g.term(Op::Mul, vec![a, b, xy]);
    let mut first = PreComp::new();
    first.add_output("a".to_string(), xy);
    first.add_output("b".to_string(), add(&mut g, a, x));
    let mut second = PreComp::new();
    second.add_output("c".to_string(), ab);
    second.add_output("d".to_string(), add(&mut g, ab, a));
    let input = env(&[("x", 3), ("y", 4)]);
    let whole = first.clone().sequential_compose(&second).eval(&g, &input);
    let mid = first.eval(&g, &input).unwrap();
    let staged = second.eval(&g, &mid);
    assert_eq!(whole, staged);
    assert_eq!(whole, Ok(env(&[("x", 3), ("y", 4), ("a", 7), ("b", 10), ("c", 490), ("d", 497)])));
    let short = env(&[("x", 3)]);
    assert_eq!(first.clone().sequential_compose(&second).eval(&g, &short), first.eval(&g, &short));
    assert_eq!(first.eval(&g, &short), Err(EvalError::Unbound(y)));
}

#[test]
fn composition_with_nothing() {
    let mut g = TermGraph::new();
    let p = two_stages(&mut g);
    assert_eq!(p.clone().sequential_compose(&PreComp::new()), p);
    assert_eq!(PreComp::new().sequential_compose(&p), p);
}

#[test]
fn overlapping_composition_is_refused() {
    let mut g = TermGraph::new();
    let p = two_stages(&mut g);
    let one = num(&mut g, 1);
    let mut q = PreComp::new();
    q.add_output("c".to_string(), one);
    q.add_output("b".to_string(), one);
    q.add_output("a".to_string(), one);
    match p.clone().try_sequential_compose(&q) {
        Err(DuplicateOutput { name }) => assert_eq!(name, "b"),
        Ok(_) => panic!("an overlapping name was taken"),
    }
    let mut r = PreComp::new();
    r.add_output("c".to_string(), one);
    let both = p.try_sequential_compose(&r).unwrap();
    assert_eq!(both.sequence, strings(&["a", "b", "c"]));
    assert_eq!(both.outputs().get("c"), Some(&one));
}

#[test]
fn output_terms_follow_the_sequence() {
    let mut g = TermGraph::new();
    let p = two_stages(&mut g);
    let x = var(&mut g, "x");
    let a = var(&mut g, "a");
    let y = var(&mut g, "y");
    assert_eq!(p.output_terms(), vec![x, add(&mut g, a, y)]);
}

#[test]
fn a_sequence_changed_by_hand_is_found_out() {
    let mut g = TermGraph::new();
    let p = two_stages(&mut g);
    assert!(p.is_wf());
    assert!(PreComp::new().is_wf());
    let mut twice = p.clone();
    twice.sequence = strings(&["a", "b", "a"]);
    assert!(!twice.is_wf());
    let mut same_len = p.clone();
    same_len.sequence = strings(&["a", "a"]);
    assert!(!same_len.is_wf());
    let mut short = p.clone();
    short.sequence = strings(&["a"]);
    assert!(!short.is_wf());
    let mut unknown = p.clone();
    unknown.sequence = strings(&["a", "c"]);
    assert!(!unknown.is_wf());
    let mut long = p.clone();
    long.sequence = strings(&["a", "b", "c"]);
    assert!(!long.is_wf());
    let mut swapped = p.clone();
    swapped.sequence = strings(&["b", "a"]);
    assert!(swapped.is_wf());
}

#[test]
fn terms_of_another_graph_are_found_out() {
    let mut g = TermGraph::new();
    let p = two_stages(&mut g);
    assert!(p.fits_in(&g));
    assert!(PreComp::new().fits_in(&TermGraph::new()));
    assert!(!p.fits_in(&TermGraph::new()));
    let mut small = TermGraph::new();
    let x = var(&mut small, "x");
    assert!(!p.fits_in(&small));
    let mut q = PreComp::new();
    q.add_output("o".to_string(), x);
    assert!(q.fits_in(&small));
    assert!(q.fits_in(&g));
}

#[test]
fn composition_keeps_one_cache() {
    let mut g = TermGraph::new();
    let a = var(&mut g, "a");
    let x = var(&mut g, "x");
    let mut first = PreComp::new();
    first.add_output("c".to_string(), a);
    first.add_output("a".to_string(), x);
    let mut second = PreComp::new();
    second.add_output("d".to_string(), a);
    let input = env(&[("a", 7), ("x", 1)]);
    let whole = first.clone().sequential_compose(&second).eval(&g, &input).unwrap();
    assert_eq!(whole, env(&[("x", 1), ("c", 7), ("a", 1), ("d", 7)]));
    let mid = first.eval(&g, &input).unwrap();
    assert_eq!(mid, env(&[("x", 1), ("c", 7), ("a", 1)]));
    assert_eq!(second.eval(&g, &mid).unwrap(), env(&[("x", 1), ("c", 7), ("a", 1), ("d", 1)]));
}
