use rustgrad::Graph;

fn bits(x: f64) -> u64 {
    x.to_bits()
}

fn val(b: u64) -> f64 {
    f64::from_bits(b)
}

#[test]
fn mod_values_are_created() {
    let mut g = Graph::new();
    let a = g.value(bits(4.0));
    assert_eq!(val(g.data(a)), 4.0);
}

#[test]
fn mod_values_are_adding() {
    let mut g = Graph::new();
    let a = g.value(bits(4.0));
    let b = g.value(bits(3.0));
    let c = g.add(a, b);
    assert_eq!(val(g.data(c)), 7.0);
}

#[test]
fn mod_values_are_subtracting() {
    let mut g = Graph::new();
    let a = g.value(bits(5.0));
    let b = g.value(bits(2.0));
    let c = g.sub(a, b);
    assert_eq!(val(g.data(c)), 3.0);
}

#[test]
fn mod_values_are_multiplying() {
    let mut g = Graph::new();
    let a = g.value(bits(5.0));
    let b = g.value(bits(3.0));
    let c = g.mul(a, b);
    assert_eq!(val(g.data(c)), 15.0);
}

#[test]
fn mod_values_derive_mult() {
    let mut g = Graph::new();
    let a = g.value(bits(4.0));
    let b = g.value(bits(-2.0));
    let c = g.mul(a, b);
    g.backward(c);
    assert_eq!(val(g.grad(a)), -2.0);
    assert_eq!(val(g.grad(b)), 4.0);
    assert_eq!(val(g.data(c)), -8.0);
}

#[test]
fn mod_values_derive_adding() {
    let mut g = Graph::new();
    let a = g.value(bits(12.0));
    let b = g.value(bits(10.0));
    let c = g.add(a, b);
    assert_eq!(val(g.data(c)), 22.0);

    g.backward(c);

    assert_eq!(val(g.grad(a)), 1.0);
    assert_eq!(val(g.grad(b)), 1.0);
}
