use autograd::Graph;
use autograd::ScalarOp;
use autograd::Session;

/// IEEE-754 single-precision arithmetic over raw bit patterns: the evaluator
/// callback the engine delegates all scalar computation to.
fn arith(p: ScalarOp) -> u32 {
    match p {
        ScalarOp::Add(a, b) => (f32::from_bits(a) + f32::from_bits(b)).to_bits(),
        ScalarOp::Mul(a, b) => (f32::from_bits(a) * f32::from_bits(b)).to_bits(),
        ScalarOp::Neg(a) => (-f32::from_bits(a)).to_bits(),
        ScalarOp::Exp(a) => f32::from_bits(a).exp().to_bits(),
        ScalarOp::Ln(a) => f32::from_bits(a).ln().to_bits(),
    }
}

fn bits(x: f32) -> u32 {
    x.to_bits()
}

fn close(v: u32, expected: f32) -> bool {
    (f32::from_bits(v) - expected).abs() < 1e-4
}

fn eval_two_var(
    a_val: f32,
    b_val: f32,
    op: impl Fn(&mut Session, usize, usize) -> usize,
) -> (f32, f32, f32) {
    let mut s = Session::new();
    let a = s.constant(bits(a_val));
    let b = s.constant(bits(b_val));
    let c = op(&mut s, a, b);
    let graph = Graph::construct(vec![c], &s);
    let out = s.eval_graph(&graph, None, &arith);
    let (deriv_graph, deriv_nodes) = graph.generate_deriv_graph(&mut s);
    s.eval_graph(&deriv_graph, None, &arith);
    let da = s.get_value(&deriv_nodes.get(a));
    let db = s.get_value(&deriv_nodes.get(b));
    (
        f32::from_bits(out[0]),
        f32::from_bits(da),
        f32::from_bits(db),
    )
}

fn eval_one_var(a_val: f32, op: impl Fn(&mut Session, usize) -> usize) -> (f32, f32) {
    let mut s = Session::new();
    let a = s.constant(bits(a_val));
    let c = op(&mut s, a);
    let graph = Graph::construct(vec![c], &s);
    let out = s.eval_graph(&graph, None, &arith);
    let (deriv_graph, deriv_nodes) = graph.generate_deriv_graph(&mut s);
    s.eval_graph(&deriv_graph, None, &arith);
    let da = s.get_value(&deriv_nodes.get(a));
    (f32::from_bits(out[0]), f32::from_bits(da))
}

#[test]
fn test_sum() {
    let (out, da, db) = eval_two_var(2.0, 3.0, |s, a, b| s.sum(a, b));
    assert_eq!(out, 5.0);
    assert_eq!(da, 1.0);
    assert_eq!(db, 1.0);
}

#[test]
fn test_multiply() {
    let (out, da, db) = eval_two_var(2.0, 3.0, |s, a, b| s.multiply(a, b));
    assert_eq!(out, 6.0);
    assert_eq!(da, 3.0);
    assert_eq!(db, 2.0);
}

#[test]
fn test_subtract() {
    let (out, da, db) = eval_two_var(2.0, 3.0, |s, a, b| s.subtract(a, b));
    assert_eq!(out, -1.0);
    assert_eq!(da, 1.0);
    assert_eq!(db, -1.0);
}

#[test]
fn test_divide() {
    let (out, da, db) = eval_two_var(1.0, 2.0, |s, a, b| s.divide(a, b));
    assert!((out - 0.5).abs() < 1e-4);
    assert!((da - 0.5).abs() < 1e-4);
    assert!((db - -0.25).abs() < 1e-4);
}

#[test]
fn test_power() {
    let (out, da, db) = eval_two_var(2.0, 3.0, |s, a, b| s.pow(a, b));
    assert!((out - 8.0).abs() < 1e-4);
    assert!((da - 12.0).abs() < 1e-3);
    assert!((db - 2_f32.ln() * 8.0).abs() < 1e-3);
}

#[test]
fn test_negative() {
    let (out, da) = eval_one_var(2.0, |s, a| s.negative(a));
    assert_eq!(out, -2.0);
    assert_eq!(da, -1.0);
}

#[test]
fn test_exp() {
    let (out, da) = eval_one_var(2.0, |s, a| s.exp(a));
    assert_eq!(out, 2_f32.exp());
    assert_eq!(da, 2_f32.exp());
}

#[test]
fn test_ln() {
    let (out, da) = eval_one_var(2.0, |s, a| s.ln(a));
    assert_eq!(out, 2_f32.ln());
    assert!((out - 0.6931472).abs() < 1e-4);
    assert!((da - 0.5).abs() < 1e-4);
}

#[test]
fn test_square() {
    // Multi-consumer accumulation: square(x) = multiply(x, x) must receive
    // the sum of both chain-rule contributions, 2x, not a single x.
    let (out, da) = eval_one_var(2.0, |s, a| s.square(a));
    assert_eq!(out, 4.0);
    assert_eq!(da, 4.0);
}

#[test]
fn duplicate_primitives_distinct_ids_same_value() {
    let mut s = Session::new();
    let a = s.constant(bits(2.0));
    let b = s.constant(bits(3.0));
    let c1 = s.sum(a, b);
    let c2 = s.sum(a, b);
    assert_ne!(c1, c2);
    let graph = Graph::construct(vec![c1, c2], &s);
    let out = s.eval_graph(&graph, None, &arith);
    assert_eq!(out.len(), 2);
    assert_eq!(out[0], out[1]);
    assert_eq!(f32::from_bits(out[0]), 5.0);
}

#[test]
fn closure_counts_shared_subexpressions_once() {
    let mut s = Session::new();
    let x = s.placeholder();
    let y = s.square(x);
    let z = s.sum(y, y);
    let graph = Graph::construct(vec![z, y], &s);
    // Closure of {z, y}: exactly {x, y, z}, each ancestor once.
    assert_eq!(graph.get_n_nodes(), 3);
    let small = Graph::construct(vec![y], &s);
    assert_eq!(small.get_n_nodes(), 2);
}

#[test]
fn reset_discards_stale_values() {
    let mut s = Session::new();
    let w = s.placeholder();
    let e = s.square(w);
    let graph = Graph::construct(vec![e], &s);
    let out = s.eval_graph(&graph, Some(vec![(w, bits(3.0))]), &arith);
    assert_eq!(f32::from_bits(out[0]), 9.0);
    // Without a reset the dependent node keeps its cached value even though
    // the feed changed: memoization is by presence, not staleness.
    let stale = s.eval_graph(&graph, Some(vec![(w, bits(4.0))]), &arith);
    assert_eq!(f32::from_bits(stale[0]), 9.0);
    // After a reset nothing cached survives and the new feed takes effect.
    s.reset();
    let fresh = s.eval_graph(&graph, Some(vec![(w, bits(4.0))]), &arith);
    assert_eq!(f32::from_bits(fresh[0]), 16.0);
}

#[test]
fn training_error_scenario() {
    // error = (x*w - y)^2 with x = 2, y = 8, w fed 3:
    // forward = (6 - 8)^2 = 4; d(error)/dw = 2*(x*w - y)*x = -8.
    let mut s = Session::new();
    let x = s.constant(bits(2.0));
    let w = s.placeholder();
    let y = s.constant(bits(8.0));
    let xw = s.multiply(x, w);
    let diff = s.subtract(xw, y);
    let error = s.square(diff);
    let graph = Graph::construct(vec![error], &s);
    let out = s.eval_graph(&graph, Some(vec![(w, bits(3.0))]), &arith);
    assert_eq!(f32::from_bits(out[0]), 4.0);
    let (deriv_graph, deriv_nodes) = graph.generate_deriv_graph(&mut s);
    s.eval_graph(&deriv_graph, Some(vec![(w, bits(3.0))]), &arith);
    let dw = s.get_value(&deriv_nodes.get(w));
    assert_eq!(f32::from_bits(dw), -8.0);
}

#[test]
fn unused_leaf_has_no_gradient_entry() {
    let mut s = Session::new();
    let x = s.placeholder();
    let unused = s.placeholder();
    let e = s.square(x);
    let graph = Graph::construct(vec![e], &s);
    let (_deriv_graph, deriv_nodes) = graph.generate_deriv_graph(&mut s);
    assert!(deriv_nodes.contains(x));
    assert!(!deriv_nodes.contains(unused));
    // The map covers exactly the nodes that existed before differentiation.
    assert_eq!(deriv_nodes.len(), 3);
}

#[test]
fn fed_values_take_precedence_over_computation() {
    let mut s = Session::new();
    let a = s.constant(bits(2.0));
    let b = s.constant(bits(3.0));
    let c = s.sum(a, b);
    let graph = Graph::construct(vec![c], &s);
    // Overriding the sum node itself short-circuits its computation.
    let out = s.eval_graph(&graph, Some(vec![(c, bits(42.0))]), &arith);
    assert_eq!(f32::from_bits(out[0]), 42.0);
    assert!(close(s.get_value(&a), 2.0));
}

#[test]
fn get_n_nodes_counts_composite_expansion() {
    let mut s = Session::new();
    let a = s.constant(bits(2.0));
    let b = s.constant(bits(3.0));
    // pow expands to ln, multiply, exp: five nodes in the closure.
    let p = s.pow(a, b);
    let graph = Graph::construct(vec![p], &s);
    assert_eq!(graph.get_n_nodes(), 5);
}
