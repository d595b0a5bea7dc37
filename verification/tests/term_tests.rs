use precomp::term::same_terms;
use precomp::{Op, Sort, Term, TermGraph, Value};

fn var(g: &mut TermGraph, name: &str) -> Term {
    g.term(Op::Var(name.to_string(), Sort::Int), vec![])
}

#[test]
fn new_graph_is_empty() {
    assert_eq!(TermGraph::new().len(), 0);
}

#[test]
fn equal_nodes_are_one_node() {
    let mut g = TermGraph::new();
    let x = var(&mut g, "x");
    let y = var(&mut g, "y");
    assert_ne!(x, y);
    assert_eq!(var(&mut g, "x"), x);
    assert_eq!(g.len(), 2);
    let s1 = g.term(Op::Add, vec![x, y]);
    let s2 = g.term(Op::Add, vec![x, y]);
    let s3 = g.term(Op::Add, vec![y, x]);
    let p = g.term(Op::Mul, vec![x, y]);
    assert_eq!(s1, s2);
    assert_ne!(s1, s3);
    assert_ne!(s1, p);
    assert_eq!(g.len(), 5);
}

#[test]
fn leaves_differ_by_name_sort_and_value() {
    let mut g = TermGraph::new();
    let a = g.term(Op::Var("v".to_string(), Sort::Int), vec![]);
    let b = g.term(Op::Var("v".to_string(), Sort::Bool), vec![]);
    let c = g.term(Op::Const(Value::Int(1)), vec![]);
    let d = g.term(Op::Const(Value::Bool(true)), vec![]);
    let e = g.term(Op::Const(Value::Int(2)), vec![]);
    assert_eq!(g.len(), 5);
    assert_eq!(vec![a, b, c, d, e], (0..5).map(|index| Term { index }).collect::<Vec<Term>>());
    assert_eq!(g.term(Op::Const(Value::Int(1)), vec![]), c);
}

#[test]
fn nodes_keep_operator_and_children() {
    let mut g = TermGraph::new();
    let x = var(&mut g, "x");
    let y = var(&mut g, "y");
    let s = g.term(Op::Add, vec![x, y, x]);
    assert_eq!(g.op(s), &Op::Add);
    assert_eq!(g.children(s), &vec![x, y, x]);
    assert_eq!(g.op(y), &Op::Var("y".to_string(), Sort::Int));
    assert!(g.children(y).is_empty());
    let _more = g.term(Op::Mul, vec![s, s]);
    assert_eq!(g.children(s), &vec![x, y, x]);
    assert_eq!(g.op(x), &Op::Var("x".to_string(), Sort::Int));
}

#[test]
fn children_come_before_parents() {
    let mut g = TermGraph::new();
    let x = var(&mut g, "x");
    let y = var(&mut g, "y");
    let s = g.term(Op::Add, vec![x, y]);
    assert!(x.index < s.index && y.index < s.index);
}

#[test]
fn post_order_lists_what_the_roots_reach() {
    let mut g = TermGraph::new();
    let x = var(&mut g, "x");
    let y = var(&mut g, "y");
    let z = var(&mut g, "z");
    let xy = g.term(Op::Add, vec![x, y]);
    let sq = g.term(Op::Mul, vec![xy, xy]);
    let yz = g.term(Op::Add, vec![y, z]);
    assert_eq!(g.post_order(&vec![sq]), vec![x, y, xy, sq]);
    assert_eq!(g.post_order(&vec![yz]), vec![y, z, yz]);
    assert_eq!(g.post_order(&vec![yz, sq, yz]), vec![x, y, z, xy, sq, yz]);
    assert_eq!(g.post_order(&vec![z]), vec![z]);
    assert_eq!(g.post_order(&vec![]), Vec::<Term>::new());
}

#[test]
fn post_order_visits_each_node_once() {
    let mut g = TermGraph::new();
    let x = var(&mut g, "x");
    let mut t = x;
    for _ in 0..20 {
        t = g.term(Op::Add, vec![t, t]);
    }
    let order = g.post_order(&vec![t]);
    assert_eq!(order.len(), 21);
    for (i, n) in order.iter().enumerate() {
        for c in g.children(*n) {
            assert!(order[..i].contains(c));
        }
    }
}

#[test]
fn operators_compare_by_what_they_are() {
    assert!(Op::Add.same(&Op::Add));
    assert!(!Op::Add.same(&Op::Mul));
    assert!(Op::Var("a".to_string(), Sort::Int).same(&Op::Var("a".to_string(), Sort::Int)));
    assert!(!Op::Var("a".to_string(), Sort::Int).same(&Op::Var("b".to_string(), Sort::Int)));
    assert!(!Op::Var("a".to_string(), Sort::Int).same(&Op::Var("a".to_string(), Sort::Bool)));
    assert!(Op::Const(Value::Int(3)).same(&Op::Const(Value::Int(3))));
    assert!(!Op::Const(Value::Int(3)).same(&Op::Const(Value::Int(4))));
    assert!(!Op::Const(Value::Bool(true)).same(&Op::Eq));
    assert!(Op::Ite.same(&Op::Ite));
    assert!(Op::Var("a".to_string(), Sort::Int).is_leaf());
    assert!(Op::Const(Value::Bool(false)).is_leaf());
    assert!(!Op::Add.is_leaf());
    assert!(!Op::Ite.is_leaf());
}

#[test]
fn handle_lists_compare_in_order() {
    let a = Term { index: 0 };
    let b = Term { index: 1 };
    assert!(same_terms(&vec![], &vec![]));
    assert!(same_terms(&vec![a, b], &vec![a, b]));
    assert!(!same_terms(&vec![a, b], &vec![b, a]));
    assert!(!same_terms(&vec![a], &vec![a, a]));
}

#[test]
fn values_have_sorts() {
    assert_eq!(Value::Int(0).sort(), Sort::Int);
    assert_eq!(Value::Bool(false).sort(), Sort::Bool);
}
