use fxhash::{FxHashMap, FxHashSet};
use precomp::deps::unresolved;
use precomp::cache::eval_cached;
use precomp::eval::{apply_op, failure_of};
use precomp::{EvalError, Op, Sort, Term, TermGraph, Value, ValueCache};

fn var(g: &mut TermGraph, name: &str) -> Term {
    g.term(Op::Var(name.to_string(), Sort::Int), vec![])
}

fn flag(g: &mut TermGraph, name: &str) -> Term {
    g.term(Op::Var(name.to_string(), Sort::Bool), vec![])
}

fn num(g: &mut TermGraph, x: i64) -> Term {
    g.term(Op::Const(Value::Int(x)), vec![])
}

fn env(bindings: &[(&str, Value)]) -> FxHashMap<String, Value> {
    let mut m = FxHashMap::default();
    for (name, v) in bindings {
        m.insert(name.to_string(), *v);
    }
    m
}

fn ints(xs: &[i64]) -> Vec<Value> {
    xs.iter().map(|x| Value::Int(*x)).collect()
}

fn eval(g: &TermGraph, t: Term, e: &FxHashMap<String, Value>) -> Result<Value, EvalError> {
    eval_cached(g, t, e, &mut ValueCache::new())
}

#[test]
fn sums_and_products() {
    let none = env(&[]);
    assert_eq!(apply_op(&Op::Add, &ints(&[]), &none), Some(Value::Int(0)));
    assert_eq!(apply_op(&Op::Mul, &ints(&[]), &none), Some(Value::Int(1)));
    assert_eq!(apply_op(&Op::Add, &ints(&[1, 2, 3, -10]), &none), Some(Value::Int(-4)));
    assert_eq!(apply_op(&Op::Mul, &ints(&[2, 3, -7]), &none), Some(Value::Int(-42)));
    assert_eq!(apply_op(&Op::Add, &ints(&[5]), &none), Some(Value::Int(5)));
}

#[test]
fn sums_and_products_wrap() {
    let none = env(&[]);
    assert_eq!(apply_op(&Op::Add, &ints(&[i64::MAX, 1]), &none), Some(Value::Int(i64::MIN)));
    assert_eq!(apply_op(&Op::Add, &ints(&[i64::MIN, -1]), &none), Some(Value::Int(i64::MAX)));
    assert_eq!(apply_op(&Op::Mul, &ints(&[i64::MAX, 2]), &none), Some(Value::Int(-2)));
    assert_eq!(apply_op(&Op::Mul, &ints(&[1 << 62, 4, 0]), &none), Some(Value::Int(0)));
}

#[test]
fn sums_take_integers_only() {
    let none = env(&[]);
    assert_eq!(apply_op(&Op::Add, &vec![Value::Int(1), Value::Bool(true)], &none), None);
    assert_eq!(apply_op(&Op::Mul, &vec![Value::Bool(false)], &none), None);
}

#[test]
fn equality_of_two_of_one_sort() {
    let none = env(&[]);
    assert_eq!(apply_op(&Op::Eq, &ints(&[3, 3]), &none), Some(Value::Bool(true)));
    assert_eq!(apply_op(&Op::Eq, &ints(&[3, 4]), &none), Some(Value::Bool(false)));
    assert_eq!(
        apply_op(&Op::Eq, &vec![Value::Bool(true), Value::Bool(true)], &none),
        Some(Value::Bool(true))
    );
    assert_eq!(apply_op(&Op::Eq, &vec![Value::Bool(true), Value::Int(1)], &none), None);
    assert_eq!(apply_op(&Op::Eq, &ints(&[3]), &none), None);
    assert_eq!(apply_op(&Op::Eq, &ints(&[3, 3, 3]), &none), None);
}

#[test]
fn choice_between_two_of_one_sort() {
    let none = env(&[]);
    let yes = Value::Bool(true);
    let no = Value::Bool(false);
    assert_eq!(apply_op(&Op::Ite, &vec![yes, Value::Int(1), Value::Int(2)], &none), Some(Value::Int(1)));
    assert_eq!(apply_op(&Op::Ite, &vec![no, Value::Int(1), Value::Int(2)], &none), Some(Value::Int(2)));
    assert_eq!(apply_op(&Op::Ite, &vec![no, yes, no], &none), Some(no));
    assert_eq!(apply_op(&Op::Ite, &vec![Value::Int(1), Value::Int(1), Value::Int(2)], &none), None);
    assert_eq!(apply_op(&Op::Ite, &vec![yes, Value::Int(1), no], &none), None);
    assert_eq!(apply_op(&Op::Ite, &vec![yes, Value::Int(1)], &none), None);
}

#[test]
fn leaves_read_constant_and_environment() {
    let e = env(&[("x", Value::Int(9)), ("f", Value::Bool(true))]);
    assert_eq!(apply_op(&Op::Const(Value::Int(4)), &vec![], &e), Some(Value::Int(4)));
    assert_eq!(apply_op(&Op::Var("x".to_string(), Sort::Int), &vec![], &e), Some(Value::Int(9)));
    assert_eq!(apply_op(&Op::Var("f".to_string(), Sort::Bool), &vec![], &e), Some(Value::Bool(true)));
    assert_eq!(apply_op(&Op::Var("x".to_string(), Sort::Bool), &vec![], &e), None);
    assert_eq!(apply_op(&Op::Var("y".to_string(), Sort::Int), &vec![], &e), None);
}

#[test]
fn failures_say_what_is_wrong() {
    let e = env(&[("x", Value::Int(9))]);
    let t = Term { index: 3 };
    assert_eq!(failure_of(&Op::Var("y".to_string(), Sort::Int), &e, t), EvalError::Unbound(t));
    assert_eq!(failure_of(&Op::Var("x".to_string(), Sort::Bool), &e, t), EvalError::IllTyped(t));
    assert_eq!(failure_of(&Op::Add, &e, t), EvalError::IllTyped(t));
}

#[test]
fn terms_evaluate_bottom_up() {
    let mut g = TermGraph::new();
    let x = var(&mut g, "x");
    let y = var(&mut g, "y");
    let f = flag(&mut g, "f");
    let two = num(&mut g, 2);
    let xy = g.term(Op::Add, vec![x, y]);
    let dbl = g.term(Op::Mul, vec![xy, two]);
    let same = g.term(Op::Eq, vec![dbl, xy]);
    let pick = g.term(Op::Ite, vec![f, dbl, xy]);
    let e = env(&[("x", Value::Int(3)), ("y", Value::Int(4)), ("f", Value::Bool(true))]);
    assert_eq!(eval(&g, xy, &e), Ok(Value::Int(7)));
    assert_eq!(eval(&g, dbl, &e), Ok(Value::Int(14)));
    assert_eq!(eval(&g, same, &e), Ok(Value::Bool(false)));
    assert_eq!(eval(&g, pick, &e), Ok(Value::Int(14)));
    let e2 = env(&[("x", Value::Int(3)), ("y", Value::Int(-3)), ("f", Value::Bool(false))]);
    assert_eq!(eval(&g, same, &e2), Ok(Value::Bool(true)));
    assert_eq!(eval(&g, pick, &e2), Ok(Value::Int(0)));
}

#[test]
fn evaluation_fills_the_cache() {
    let mut g = TermGraph::new();
    let x = var(&mut g, "x");
    let y = var(&mut g, "y");
    let z = var(&mut g, "z");
    let xy = g.term(Op::Add, vec![x, y]);
    let e = env(&[("x", Value::Int(3)), ("y", Value::Int(4)), ("z", Value::Int(5))]);
    let mut cache = ValueCache::new();
    assert_eq!(cache.get(x), None);
    assert_eq!(eval_cached(&g, xy, &e, &mut cache), Ok(Value::Int(7)));
    assert_eq!(cache.get(x), Some(Value::Int(3)));
    assert_eq!(cache.get(y), Some(Value::Int(4)));
    assert_eq!(cache.get(xy), Some(Value::Int(7)));
    assert_eq!(cache.get(z), None);
}

#[test]
fn cached_nodes_are_not_evaluated_again() {
    let mut g = TermGraph::new();
    let x = var(&mut g, "x");
    let y = var(&mut g, "y");
    let xy = g.term(Op::Add, vec![x, y]);
    let top = g.term(Op::Add, vec![xy, y]);
    let mut cache = ValueCache::new();
    let e = env(&[("x", Value::Int(3)), ("y", Value::Int(4))]);
    assert_eq!(eval_cached(&g, xy, &e, &mut cache), Ok(Value::Int(7)));
    let later = env(&[("x", Value::Int(100)), ("y", Value::Int(100))]);
    assert_eq!(eval_cached(&g, top, &later, &mut cache), Ok(Value::Int(11)));
    assert_eq!(eval_cached(&g, top, &env(&[]), &mut cache), Ok(Value::Int(11)));
    assert_eq!(eval(&g, top, &later), Ok(Value::Int(300)));
}

#[test]
fn failure_leaves_the_cache_as_it_was() {
    let mut g = TermGraph::new();
    let x = var(&mut g, "x");
    let y = var(&mut g, "y");
    let z = var(&mut g, "z");
    let xy = g.term(Op::Add, vec![x, y]);
    let top = g.term(Op::Add, vec![xy, z]);
    let e = env(&[("x", Value::Int(3)), ("y", Value::Int(4))]);
    let mut cache = ValueCache::new();
    assert_eq!(eval_cached(&g, x, &e, &mut cache), Ok(Value::Int(3)));
    assert_eq!(eval_cached(&g, top, &e, &mut cache), Err(EvalError::Unbound(z)));
    assert_eq!(cache.get(x), Some(Value::Int(3)));
    assert_eq!(cache.get(y), None);
    assert_eq!(cache.get(xy), None);
    assert_eq!(cache.get(top), None);
}

#[test]
fn the_first_failing_node_is_named() {
    let mut g = TermGraph::new();
    let u = var(&mut g, "u");
    let v = var(&mut g, "v");
    let f = flag(&mut g, "f");
    let vu = g.term(Op::Add, vec![v, u]);
    let bad = g.term(Op::Add, vec![f, f]);
    let left = g.term(Op::Eq, vec![bad, vu]);
    let right = g.term(Op::Eq, vec![vu, bad]);
    assert_eq!(eval(&g, vu, &env(&[])), Err(EvalError::Unbound(v)));
    assert_eq!(eval(&g, vu, &env(&[("u", Value::Int(1))])), Err(EvalError::Unbound(v)));
    assert_eq!(eval(&g, vu, &env(&[("v", Value::Int(1))])), Err(EvalError::Unbound(u)));
    let bound = env(&[("u", Value::Int(1)), ("v", Value::Int(1)), ("f", Value::Bool(true))]);
    assert_eq!(eval(&g, left, &bound), Err(EvalError::IllTyped(bad)));
    assert_eq!(eval(&g, right, &bound), Err(EvalError::IllTyped(bad)));
    let wrong = env(&[("u", Value::Bool(true)), ("v", Value::Int(1)), ("f", Value::Bool(true))]);
    assert_eq!(eval(&g, left, &wrong), Err(EvalError::IllTyped(bad)));
    assert_eq!(eval(&g, right, &wrong), Err(EvalError::IllTyped(u)));
    let unbound = env(&[("u", Value::Int(1)), ("v", Value::Int(1))]);
    assert_eq!(eval(&g, left, &unbound), Err(EvalError::Unbound(f)));
    assert_eq!(eval(&g, right, &unbound), Err(EvalError::Unbound(f)));
}

#[test]
fn long_chains_evaluate() {
    let mut g = TermGraph::new();
    let x = var(&mut g, "x");
    let one = num(&mut g, 1);
    let mut t = x;
    for _ in 0..2000 {
        t = g.term(Op::Add, vec![t, one]);
    }
    assert_eq!(eval(&g, t, &env(&[("x", Value::Int(-500))])), Ok(Value::Int(1500)));
    assert_eq!(eval(&g, t, &env(&[])), Err(EvalError::Unbound(x)));
}

#[test]
fn shared_nodes_evaluate_once() {
    let mut g = TermGraph::new();
    let x = var(&mut g, "x");
    let mut t = x;
    for _ in 0..62 {
        t = g.term(Op::Add, vec![t, t]);
    }
    assert_eq!(eval(&g, t, &env(&[("x", Value::Int(1))])), Ok(Value::Int(1 << 62)));
    let twice = g.term(Op::Add, vec![t, t]);
    assert_eq!(eval(&g, twice, &env(&[("x", Value::Int(1))])), Ok(Value::Int(i64::MIN)));
}

#[test]
fn unresolved_marks_what_depends_on_unknown_names() {
    let mut g = TermGraph::new();
    let x = var(&mut g, "x");
    let z = var(&mut g, "z");
    let one = num(&mut g, 1);
    let x1 = g.term(Op::Add, vec![x, one]);
    let xz = g.term(Op::Add, vec![x1, z]);
    let top = g.term(Op::Mul, vec![xz, x1]);
    let mut known: FxHashSet<String> = FxHashSet::default();
    known.insert("x".to_string());
    let marks = unresolved(&g, &vec![top], &known);
    assert_eq!(marks.len(), g.len());
    assert!(!marks[x.index]);
    assert!(marks[z.index]);
    assert!(!marks[one.index]);
    assert!(!marks[x1.index]);
    assert!(marks[xz.index]);
    assert!(marks[top.index]);
    known.insert("z".to_string());
    let marks = unresolved(&g, &vec![top], &known);
    assert!(marks.iter().all(|m| !m));
}
