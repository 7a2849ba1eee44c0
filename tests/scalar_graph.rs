use computational_graph::graph::Graph;

#[derive(Clone, Copy)]
enum Op {
    Add,
    Mul,
    Pow(f32),
    Sin,
}

fn eval(op: &Op, args: &Vec<f32>) -> f32 {
    match op {
        Op::Add => args.iter().fold(0.0f32, |acc, v| acc + v),
        Op::Mul => args.iter().fold(1.0f32, |acc, v| acc * v),
        Op::Pow(exp) => {
            assert_eq!(args.len(), 1);
            args[0].powf(*exp)
        }
        Op::Sin => {
            assert_eq!(args.len(), 1);
            args[0].sin()
        }
    }
}

fn round(x: f32, precision: u32) -> f32 {
    let m = 10i32.pow(precision) as f32;
    (x * m).round() / m
}

type ScalarGraph = Graph<f32, Op, fn(&Op, &Vec<f32>) -> f32>;

fn new_graph() -> ScalarGraph {
    Graph::new(eval as fn(&Op, &Vec<f32>) -> f32)
}

#[test]
fn example_test() {
    // y = x1 + x2 * sin(x2 + pow(x3, 3))
    let mut g = new_graph();
    let x1 = g.input("x1", 0.0);
    let x2 = g.input("x2", 0.0);
    let x3 = g.input("x3", 0.0);
    let pow = g.add_node(Op::Pow(3.0), vec![x3]);
    let add = g.add_node(Op::Add, vec![x2, pow]);
    let sin = g.add_node(Op::Sin, vec![add]);
    let mul = g.add_node(Op::Mul, vec![x2, sin]);
    let graph = g.add_node(Op::Add, vec![x1, mul]);
    g.set(x1, 1.0);
    g.set(x2, 2.0);
    g.set(x3, 3.0);
    let mut result = g.compute(graph);
    result = round(result, 5);
    println!("Graph output = {}", result);
    assert_eq!(round(result, 5), -0.32727);
    g.set(x1, 2.0);
    g.set(x2, 3.0);
    g.set(x3, 4.0);
    result = g.compute(graph);
    result = round(result, 5);
    println!("Graph output = {}", result);
    assert_eq!(round(result, 5), -0.56656);
}

#[test]
fn example_destructured_ops_test() {
    let mut g = new_graph();
    let x1 = g.input("x1", 0.0);
    let x2 = g.input("x2", 0.0);
    let x3 = g.input("x3", 0.0);

    let pow_op = g.add_node(Op::Pow(3.0), vec![x3]);
    let add_op = g.add_node(Op::Add, vec![x2, pow_op]);
    let sin_op = g.add_node(Op::Sin, vec![add_op]);
    let mul_op = g.add_node(Op::Mul, vec![x2, sin_op]);
    let graph = g.add_node(Op::Add, vec![x1, mul_op]);
    g.set(x1, 1.0);
    g.set(x2, 2.0);
    g.set(x3, 3.0);
    let mut result = g.compute(graph);
    result = round(result, 5);
    println!("Graph output = {}", result);
    assert_eq!(round(result, 5), -0.32727);
    g.set(x1, 2.0);
    g.set(x2, 3.0);
    g.set(x3, 4.0);
    result = g.compute(graph);
    result = round(result, 5);
    println!("Graph output = {}", result);
    assert_eq!(round(result, 5), -0.56656);
}

#[test]
fn example_destructured_ops_cache_test() {
    let mut g = new_graph();
    let x1 = g.input("x1", 0.0);
    let x2 = g.input("x2", 0.0);
    let x3 = g.input("x3", 0.0);

    let pow_op = g.add_node(Op::Pow(3.0), vec![x3]);
    let add_op = g.add_node(Op::Add, vec![x2, pow_op]);
    let sin_op = g.add_node(Op::Sin, vec![add_op]);
    let mul_op = g.add_node(Op::Mul, vec![x2, sin_op]);
    let graph = g.add_node(Op::Add, vec![x1, mul_op]);
    assert!(!g.has_cached_value(pow_op));
    assert!(!g.has_cached_value(add_op));
    assert!(!g.has_cached_value(sin_op));
    assert!(!g.has_cached_value(mul_op));
    assert!(!g.has_cached_value(graph));
    g.set(x1, 1.0);
    g.set(x2, 2.0);
    g.set(x3, 3.0);
    let mut result = g.compute(graph);
    result = round(result, 5);
    println!("Graph output = {}", result);
    assert_eq!(round(result, 5), -0.32727);
    assert!(g.has_cached_value(pow_op));
    assert!(g.has_cached_value(add_op));
    assert!(g.has_cached_value(sin_op));
    assert!(g.has_cached_value(mul_op));
    assert!(g.has_cached_value(graph));

    g.set(x1, 2.0);
    // only the outer sum has to be recomputed
    assert!(g.has_cached_value(pow_op));
    assert!(g.has_cached_value(add_op));
    assert!(g.has_cached_value(sin_op));
    assert!(g.has_cached_value(mul_op));
    assert!(!g.has_cached_value(graph));

    result = g.compute(graph);
    result = round(result, 5);
    println!("Graph output = {}", result);
    assert_eq!(round(result, 5), 0.67273);
    assert!(g.has_cached_value(pow_op));
    assert!(g.has_cached_value(add_op));
    assert!(g.has_cached_value(sin_op));
    assert!(g.has_cached_value(mul_op));
    assert!(g.has_cached_value(graph));

    g.set(x2, 6.0);
    // everything but the power has to be recomputed
    assert!(g.has_cached_value(pow_op));
    assert!(!g.has_cached_value(add_op));
    assert!(!g.has_cached_value(sin_op));
    assert!(!g.has_cached_value(mul_op));
    assert!(!g.has_cached_value(graph));
    result = g.compute(graph);
    result = round(result, 5);
    println!("Graph output = {}", result);
    assert_eq!(round(result, 5), 7.99947);
}

#[test]
fn add_test() {
    let mut g = new_graph();
    let x1 = g.input("x1", 0.0);
    let x2 = g.input("x2", 0.0);
    g.set(x1, 1.0);
    g.set(x2, 2.34567);
    let add = g.add_node(Op::Add, vec![x1, x2]);
    let add = g.compute(add);
    assert_eq!(round(add, 5), 3.34567);
}

#[test]
fn mul_test() {
    let mut g = new_graph();
    let x1 = g.input("x1", 0.0);
    let x2 = g.input("x2", 0.0);
    g.set(x1, -2.0);
    g.set(x2, 3.56789);
    let mul = g.add_node(Op::Mul, vec![x1, x2]);
    let mul = g.compute(mul);
    assert_eq!(round(mul, 5), -7.13578);
}

#[test]
fn pow_test() {
    let mut g = new_graph();
    let x1 = g.input("x1", 0.0);
    g.set(x1, 2.0);
    let pow = g.add_node(Op::Pow(3.0), vec![x1]);
    let pow = g.compute(pow);
    assert_eq!(round(pow, 5), 8.0);
}

#[test]
fn sin_test() {
    let mut g = new_graph();
    let x1 = g.input("x1", 0.0);
    g.set(x1, std::f32::consts::PI / 2.0);
    let sin = g.add_node(Op::Sin, vec![x1]);
    let sin = g.compute(sin);
    assert_eq!(round(sin, 5), 1.0);
}
