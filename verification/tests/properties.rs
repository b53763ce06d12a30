use rustgrad::Graph;

fn bits(x: f64) -> u64 {
    x.to_bits()
}

fn val(b: u64) -> f64 {
    f64::from_bits(b)
}

#[test]
fn diamond_accumulates() {
    // A node used twice receives both contributions exactly once each:
    // for d = a * a, the gradient of a is 2 * a.data.
    let mut g = Graph::new();
    let a = g.value(bits(3.0));
    let d = g.mul(a, a);
    g.backward(d);
    assert_eq!(val(g.data(d)), 9.0);
    assert_eq!(val(g.grad(a)), 6.0);
}

#[test]
fn repeated_backward_accumulates() {
    // A second backward without a reset adds onto the gradients the first left.
    let mut g = Graph::new();
    let a = g.value(bits(4.0));
    let b = g.value(bits(-2.0));
    let c = g.mul(a, b);
    g.backward(c);
    g.backward(c);
    assert_eq!(val(g.grad(a)), -4.0);
    assert_eq!(val(g.grad(b)), 8.0);
    assert_eq!(val(g.grad(c)), 1.0);
}

#[test]
fn zero_grad_is_idempotent() {
    let mut g = Graph::new();
    let a = g.value(bits(2.0));
    let b = g.value(bits(3.0));
    let c = g.mul(a, b);
    g.backward(c);
    g.zero_grad(c);
    g.zero_grad(c);
    assert_eq!(val(g.grad(a)), 0.0);
    assert_eq!(val(g.grad(b)), 0.0);
    assert_eq!(val(g.grad(c)), 0.0);
    assert_eq!(val(g.data(c)), 6.0);
}

#[test]
fn zero_grad_leaves_unreachable_nodes_alone() {
    // z is not reachable from c, so clearing c's subgraph must not touch it.
    let mut g = Graph::new();
    let z = g.value(bits(7.0));
    g.backward(z);
    assert_eq!(val(g.grad(z)), 1.0);
    let a = g.value(bits(2.0));
    let b = g.value(bits(3.0));
    let c = g.mul(a, b);
    g.backward(c);
    g.zero_grad(c);
    assert_eq!(val(g.grad(a)), 0.0);
    assert_eq!(val(g.grad(b)), 0.0);
    assert_eq!(val(g.grad(c)), 0.0);
    assert_eq!(val(g.grad(z)), 1.0);
}

#[test]
fn backward_on_a_leaf_seeds_one() {
    let mut g = Graph::new();
    let a = g.value(bits(5.0));
    g.backward(a);
    assert_eq!(val(g.grad(a)), 1.0);
}

#[test]
fn sub_gradients() {
    // The subtrahend's gradient is -1, not +1.
    let mut g = Graph::new();
    let a = g.value(bits(5.0));
    let b = g.value(bits(2.0));
    let c = g.sub(a, b);
    g.backward(c);
    assert_eq!(val(g.data(c)), 3.0);
    assert_eq!(val(g.grad(a)), 1.0);
    assert_eq!(val(g.grad(b)), -1.0);
}

#[test]
fn neg_gradient_is_minus_one() {
    let mut g = Graph::new();
    let a = g.value(bits(3.0));
    let b = g.neg(a);
    g.backward(b);
    assert_eq!(val(g.grad(a)), -1.0);
}

#[test]
fn division_by_zero_gives_infinity() {
    // Total over the extended reals: nothing traps, the infinity propagates.
    let mut g = Graph::new();
    let a = g.value(bits(1.0));
    let b = g.value(bits(0.0));
    let c = g.div(a, b);
    assert!(val(g.data(c)).is_infinite());
    g.backward(c);
    assert!(val(g.grad(a)).is_infinite());
}

#[test]
fn negative_base_pow_propagates_nan() {
    // ln of a negative base gives NaN in the exponent's gradient; the base's
    // own gradient is still exact and the engine continues.
    let mut g = Graph::new();
    let base = g.value(bits(-2.0));
    let exponent = g.value(bits(2.0));
    let y = g.pow(base, exponent);
    assert_eq!(val(g.data(y)), 4.0);
    g.backward(y);
    assert_eq!(val(g.grad(base)), -4.0);
    assert!(val(g.grad(exponent)).is_nan());
}

#[test]
fn topo_order_emits_operands_first() {
    let mut g = Graph::new();
    let a = g.value(bits(1.0));
    let b = g.value(bits(2.0));
    let c = g.add(a, b);
    let order = g.topo_order(c);
    assert_eq!(order, vec![a, b, c]);
}

#[test]
fn topo_order_dedups_shared_nodes() {
    // A shared subexpression is emitted on its first visit only.
    let mut g = Graph::new();
    let a = g.value(bits(2.0));
    let d = g.mul(a, a);
    let e = g.add(d, a);
    let order = g.topo_order(e);
    assert_eq!(order, vec![a, d, e]);
}

#[test]
fn topo_order_covers_only_the_reachable_subgraph() {
    let mut g = Graph::new();
    let other = g.value(bits(9.0));
    let a = g.value(bits(1.0));
    let b = g.value(bits(2.0));
    let c = g.mul(a, b);
    let order = g.topo_order(c);
    assert_eq!(order, vec![a, b, c]);
    assert!(!order.contains(&other));
}

#[test]
fn sigmoid_matches_its_formula() {
    // Would fail if the exponential wrapper handed its argument back unchanged.
    let mut g = Graph::new();
    let x = g.value(bits(2.0));
    let y = g.sigmoid(x);
    let expected = 1.0 / (1.0 + (-2.0f64).exp());
    assert!((val(g.data(y)) - expected).abs() < 1e-9);
    assert!(val(g.data(y)) != 2.0);
}

#[test]
fn gradients_of_inner_nodes_use_the_chain_rule() {
    // l = (a + b) * f: the leaves' gradients go through the sum node.
    let mut g = Graph::new();
    let a = g.value(bits(1.5));
    let b = g.value(bits(2.5));
    let s = g.add(a, b);
    let f = g.value(bits(3.0));
    let l = g.mul(s, f);
    g.backward(l);
    assert_eq!(val(g.data(l)), 12.0);
    assert_eq!(val(g.grad(s)), 3.0);
    assert_eq!(val(g.grad(f)), 4.0);
    assert_eq!(val(g.grad(a)), 3.0);
    assert_eq!(val(g.grad(b)), 3.0);
}
