use rustgrad::Graph;

fn bits(x: f64) -> u64 {
    x.to_bits()
}

fn val(b: u64) -> f64 {
    f64::from_bits(b)
}

fn close(x: f64, y: f64, tol: f64) -> bool {
    (x - y).abs() < tol
}

#[test]
fn unit_tests_values_are_created() {
    let mut g = Graph::new();
    let a = g.value(bits(4.0));
    assert_eq!(val(g.data(a)), 4.0);
}

#[test]
fn unit_tests_values_are_adding() {
    let mut g = Graph::new();
    let a = g.value(bits(4.0));
    let b = g.value(bits(3.0));
    let c = g.add(a, b);
    assert_eq!(val(g.data(c)), 7.0);
}

#[test]
fn unit_tests_values_are_subtracting() {
    let mut g = Graph::new();
    let a = g.value(bits(5.0));
    let b = g.value(bits(2.0));
    let c = g.sub(a, b);
    assert_eq!(val(g.data(c)), 3.0);
}

#[test]
fn unit_tests_values_are_multiplying() {
    let mut g = Graph::new();
    let a = g.value(bits(5.0));
    let b = g.value(bits(3.0));
    let c = g.mul(a, b);
    assert_eq!(val(g.data(c)), 15.0);
}

#[test]
fn unit_tests_values_derive_mult() {
    let mut g = Graph::new();
    let a = g.value(bits(4.0));
    let b = g.value(bits(-2.0));
    let c = g.mul(a, b);
    g.backward(c);
    assert_eq!(val(g.grad(a)), -2.0);
    assert_eq!(val(g.grad(b)), 4.0);
    assert_eq!(val(g.data(c)), -8.0);
}

#[test]
fn unit_tests_values_derive_adding() {
    let mut g = Graph::new();
    let a = g.value(bits(12.0));
    let b = g.value(bits(10.0));
    let c = g.add(a, b);
    assert_eq!(val(g.data(c)), 22.0);

    g.backward(c);

    assert_eq!(val(g.grad(a)), 1.0);
    assert_eq!(val(g.grad(b)), 1.0);
}

#[test]
fn test_from_video() {
    let mut g = Graph::new();
    let a = g.value(bits(2.0));
    let b = g.value(bits(-3.0));
    let c = g.value(bits(10.0));
    let e = g.mul(a, b);
    let d = g.add(e, c);
    let f = g.value(bits(-2.0));
    let l = g.mul(d, f);
    g.backward(l);
    assert_eq!(val(g.data(l)), -8.0);
    assert_eq!(val(g.grad(d)), -2.0);
    assert_eq!(val(g.grad(f)), 4.0);
    assert_eq!(val(g.grad(c)), -2.0);
    assert_eq!(val(g.grad(e)), -2.0);
    assert_eq!(val(g.grad(a)), 6.0);
    assert_eq!(val(g.grad(b)), -4.0);
}

#[test]
fn nodes_are_diving() {
    let mut g = Graph::new();
    let a = g.value(bits(12.0));
    let b = g.value(bits(3.0));
    let c = g.div(a, b);
    assert_eq!(val(g.data(c)), 4.0);
}

#[test]
fn nodes_are_diving_and_deriving() {
    let mut g = Graph::new();
    let a = g.value(bits(12.0));
    let b = g.value(bits(3.0));
    let c = g.div(a, b);
    g.backward(c);
    assert_eq!(val(g.data(c)), 4.0);
    assert!(close(val(g.grad(a)), 0.333333, 0.1));
    assert!(close(val(g.grad(b)), -1.333333, 0.1));
}

#[test]
fn nodes_can_negate() {
    let mut g = Graph::new();
    let a = g.value(bits(3.0));
    let b = g.neg(a);
    assert_eq!(val(g.data(b)), -3.0);
}

#[test]
fn test_pow_forward() {
    let mut g = Graph::new();
    let a = g.value(bits(2.0));
    let b = g.value(bits(3.0));
    let c = g.pow(a, b);
    assert!(close(val(g.data(c)), 8.0, 1e-6));
}

#[test]
fn test_pow_backward_constant_exponent() {
    let mut g = Graph::new();
    let x = g.value(bits(2.0));
    let exponent = g.value(bits(3.0));
    let y = g.pow(x, exponent);
    g.backward(y);

    // dy/dx = n * x^(n-1) = 3 * 2^2 = 12
    assert!(close(val(g.grad(x)), 12.0, 1e-6));
    assert!(close(val(g.grad(exponent)), 2.0_f64.ln() * 8.0, 1e-6)); // dy/dn = ln(x) * x^n
}

#[test]
fn test_pow_backward_variable_exponent() {
    let mut g = Graph::new();
    let base = g.value(bits(3.0));
    let exp = g.value(bits(2.0));
    let out = g.pow(base, exp);
    g.backward(out);

    let expected_base_grad = 2.0 * 3.0_f64.powf(1.0); // 2 * 3^1 = 6
    let expected_exp_grad = 3.0_f64.ln() * 9.0; // ln(3) * 9

    assert!(close(val(g.grad(base)), expected_base_grad, 1e-6));
    assert!(close(val(g.grad(exp)), expected_exp_grad, 1e-6));
}

#[test]
fn test_pow_with_negative_exponent() {
    let mut g = Graph::new();
    let base = g.value(bits(2.0));
    let exponent = g.value(bits(-1.0));
    let result = g.pow(base, exponent);
    g.backward(result);

    // f(x) = x^-1 => f'(x) = -1 * x^-2 = -0.25
    assert!(close(val(g.grad(base)), -0.25, 1e-6));
}

#[test]
fn test_pow_with_zero_exponent() {
    let mut g = Graph::new();
    let base = g.value(bits(5.0));
    let exponent = g.value(bits(0.0));
    let result = g.pow(base, exponent);
    g.backward(result);

    // x^0 = 1, derivative w.r.t base is 0
    assert!(close(val(g.data(result)), 1.0, 1e-6));
    assert!(close(val(g.grad(base)), 0.0, 1e-6));
    // d/dn(x^n) = ln(x) * x^n
    assert!(close(val(g.grad(exponent)), 5.0_f64.ln(), 1e-6));
}

#[test]
fn test_zero_grad() {
    let mut g = Graph::new();
    let a = g.value(bits(2.0));
    let b = g.value(bits(3.0));
    let c = g.mul(a, b);
    g.backward(c);

    assert_eq!(val(g.grad(a)), 3.0);
    assert_eq!(val(g.grad(b)), 2.0);
    assert_eq!(val(g.grad(c)), 1.0);

    g.zero_grad(c); // clears all values

    assert_eq!(val(g.grad(a)), 0.0);
    assert_eq!(val(g.grad(b)), 0.0);
    assert_eq!(val(g.grad(c)), 0.0);
}

#[test]
fn test_sigmoid_forward() {
    let mut g = Graph::new();
    let x = g.value(bits(0.0));
    let y = g.sigmoid(x);
    assert!(close(val(g.data(y)), 0.5, 1e-6));

    let x = g.value(bits(2.0));
    let y = g.sigmoid(x);
    let expected = 1.0 / (1.0 + (-2.0f64).exp());
    assert!(close(val(g.data(y)), expected, 1e-6));
}

#[test]
fn test_sigmoid_backward() {
    let mut g = Graph::new();
    let x = g.value(bits(0.0));
    let y = g.sigmoid(x);
    g.backward(y);

    // Sigmoid at 0 is 0.5, derivative is s * (1 - s) = 0.25
    assert!(close(val(g.grad(x)), 0.25, 1e-6));
}

#[test]
fn test_sigmoid_backward_nonzero_input() {
    let mut g = Graph::new();
    let x = g.value(bits(2.0));
    let y = g.sigmoid(x);
    g.backward(y);

    let s = 1.0 / (1.0 + (-2.0f64).exp());
    let expected_grad = s * (1.0 - s);
    assert!(close(val(g.grad(x)), expected_grad, 1e-6));
}

#[test]
fn test_sigmoid_chain_rule() {
    let mut g = Graph::new();
    let a = g.value(bits(1.0));
    let b = g.sigmoid(a);
    let c = g.mul(b, b);
    g.backward(c);

    // dy/dx = 2s * ds/dx = 2s * s(1 - s)
    let s = 1.0 / (1.0 + (-1.0f64).exp());
    let expected_grad = 2.0 * s * s * (1.0 - s);
    assert!(close(val(g.grad(a)), expected_grad, 1e-6));
}

#[test]
fn test_sigmoid_large_negative_input() {
    let mut g = Graph::new();
    let x = g.value(bits(-100.0));
    let y = g.sigmoid(x);
    g.backward(y);

    assert!(close(val(g.data(y)), 0.0, 1e-6));
    assert!(close(val(g.grad(x)), 0.0, 1e-6)); // gradient should be ~0
}
