use computational_graph::graph::Graph;
use computational_graph::node::Kind;
use std::cell::Cell;

#[derive(Clone, Copy)]
enum IntOp {
    Sum,
    Product,
    Negate,
}

fn apply(op: &IntOp, args: &Vec<i64>) -> i64 {
    match op {
        IntOp::Sum => args.iter().sum(),
        IntOp::Product => args.iter().product(),
        IntOp::Negate => -args[0],
    }
}

#[test]
fn integer_values_are_exact() {
    let mut g = Graph::new(apply);
    let a = g.input("a", 3);
    let b = g.input("b", 4);
    let c = g.input("c", 5);
    let s = g.add_node(IntOp::Sum, vec![a, b, c]);
    let p = g.add_node(IntOp::Product, vec![s, a]);
    let n = g.add_node(IntOp::Negate, vec![p]);
    assert_eq!(g.size(), 6);
    assert_eq!(g.compute(n), -36);
    assert_eq!(g.get_cached_value(s), 12);
    assert_eq!(g.get_cached_value(p), 36);
    g.set(c, -7);
    assert_eq!(g.compute(n), 0);
}

#[test]
fn empty_argument_lists_use_the_identity() {
    let mut g = Graph::new(apply);
    let s = g.add_node(IntOp::Sum, vec![]);
    let p = g.add_node(IntOp::Product, vec![]);
    assert_eq!(g.compute(s), 0);
    assert_eq!(g.compute(p), 1);
}

#[test]
fn second_compute_is_a_cache_hit() {
    let calls = Cell::new(0u32);
    let mut g = Graph::new(|op: &IntOp, args: &Vec<i64>| -> i64 {
        calls.set(calls.get() + 1);
        apply(op, args)
    });
    let x = g.input("x", 2);
    let y = g.input("y", 3);
    let s = g.add_node(IntOp::Sum, vec![x, y]);
    let p = g.add_node(IntOp::Product, vec![s, s]);
    assert_eq!(g.compute(p), 25);
    assert_eq!(calls.get(), 2);
    assert_eq!(g.compute(p), 25);
    assert_eq!(calls.get(), 2);
    assert_eq!(g.compute(s), 5);
    assert_eq!(calls.get(), 2);
}

#[test]
fn set_clears_only_dependants() {
    let mut g = Graph::new(apply);
    let x = g.input("x", 1);
    let y = g.input("y", 10);
    let fx = g.add_node(IntOp::Negate, vec![x]);
    let fy = g.add_node(IntOp::Negate, vec![y]);
    let top = g.add_node(IntOp::Sum, vec![fx, fy]);
    assert_eq!(g.compute(top), -11);
    g.set(x, 2);
    assert!(!g.has_cached_value(fx));
    assert!(!g.has_cached_value(top));
    assert!(g.has_cached_value(fy));
    assert_eq!(g.get_cached_value(fy), -10);
    assert!(g.has_cached_value(x));
    assert_eq!(g.get_cached_value(x), 2);
    assert_eq!(g.compute(top), -12);
}

#[test]
fn partial_recomputation_after_one_input_changes() {
    let calls = Cell::new(0u32);
    let mut g = Graph::new(|op: &IntOp, args: &Vec<i64>| -> i64 {
        calls.set(calls.get() + 1);
        apply(op, args)
    });
    let x1 = g.input("x1", 1);
    let x2 = g.input("x2", 2);
    let x3 = g.input("x3", 3);
    let cube = g.add_node(IntOp::Product, vec![x3, x3, x3]);
    let inner = g.add_node(IntOp::Sum, vec![x2, cube]);
    let neg = g.add_node(IntOp::Negate, vec![inner]);
    let mul = g.add_node(IntOp::Product, vec![x2, neg]);
    let root = g.add_node(IntOp::Sum, vec![x1, mul]);
    assert_eq!(g.compute(root), 1 - 2 * 29);
    assert_eq!(calls.get(), 5);
    g.set(x1, 10);
    assert_eq!(g.compute(root), 10 - 2 * 29);
    assert_eq!(calls.get(), 6);
    g.set(x2, 1);
    assert!(g.has_cached_value(cube));
    assert_eq!(g.compute(root), 10 - 28);
    assert_eq!(calls.get(), 10);
}

#[test]
fn shared_argument_invalidates_both_consumers() {
    let mut g = Graph::new(apply);
    let x = g.input("x", 4);
    let shared = g.add_node(IntOp::Negate, vec![x]);
    let left = g.add_node(IntOp::Sum, vec![shared, x]);
    let right = g.add_node(IntOp::Product, vec![shared, shared]);
    assert_eq!(g.compute(left), 0);
    assert_eq!(g.compute(right), 16);
    g.set(x, 5);
    assert!(!g.has_cached_value(shared));
    assert!(!g.has_cached_value(left));
    assert!(!g.has_cached_value(right));
    assert_eq!(g.compute(left), 0);
    assert_eq!(g.compute(right), 25);
}

#[test]
fn no_operator_is_cached_before_computing() {
    let mut g = Graph::new(apply);
    let x = g.input("x", 7);
    let y = g.input("y", 8);
    let s = g.add_node(IntOp::Sum, vec![x, y]);
    let n = g.add_node(IntOp::Negate, vec![s]);
    assert!(g.has_cached_value(x));
    assert!(g.has_cached_value(y));
    assert!(!g.has_cached_value(s));
    assert!(!g.has_cached_value(n));
    assert_eq!(g.get_cached_value(x), 7);
}

#[test]
fn invalidate_cache_clears_the_node_and_what_depends_on_it() {
    let mut g = Graph::new(apply);
    let x = g.input("x", 2);
    let a = g.add_node(IntOp::Negate, vec![x]);
    let b = g.add_node(IntOp::Negate, vec![a]);
    let c = g.add_node(IntOp::Sum, vec![x, x]);
    assert_eq!(g.compute(b), 2);
    assert_eq!(g.compute(c), 4);
    g.invalidate_cache(a);
    assert!(!g.has_cached_value(a));
    assert!(!g.has_cached_value(b));
    assert!(g.has_cached_value(c));
    assert!(g.has_cached_value(x));
    g.invalidate_cache(x);
    assert!(!g.has_cached_value(c));
    assert!(g.has_cached_value(x));
    assert_eq!(g.compute(b), 2);
}

#[test]
fn kind_of_reads_name_and_operator() {
    let mut g = Graph::new(apply);
    let x = g.input("x", 1);
    let n = g.add_node(IntOp::Negate, vec![x]);
    assert!(matches!(g.kind_of(x), Kind::Input { name } if *name == "x"));
    assert!(matches!(g.kind_of(n), Kind::Operator { op: IntOp::Negate }));
    assert!(g.is_input_leaf(x));
    assert!(!g.is_input_leaf(n));
}

#[test]
fn repeated_argument_is_registered_twice() {
    let calls = Cell::new(0u32);
    let mut g = Graph::new(|op: &IntOp, args: &Vec<i64>| -> i64 {
        calls.set(calls.get() + 1);
        apply(op, args)
    });
    let x = g.input("x", 3);
    let sq = g.add_node(IntOp::Product, vec![x, x]);
    assert_eq!(g.compute(sq), 9);
    g.set(x, 4);
    assert!(!g.has_cached_value(sq));
    assert_eq!(g.compute(sq), 16);
    assert_eq!(calls.get(), 2);
}
