//! Scenario tests for the graph builders and the backward pass.

use scalargrad::graph::{Graph, Value};

fn bits(x: f64) -> u64 {
    x.to_bits()
}

fn fl(b: u64) -> f64 {
    f64::from_bits(b)
}

fn approx(a: f64, b: f64, tol: f64) -> bool {
    (a - b).abs() <= tol
}

#[test]
fn diamond_shared_subexpression() {
    let mut g = Graph::new();
    let x = Value::new(&mut g, bits(3.0));
    let y = x.add(&mut g, x);
    y.backward(&mut g);
    assert_eq!(fl(y.val(&g)), 6.0);
    assert_eq!(fl(x.grad(&g)), 2.0);
}

#[test]
fn product_rule() {
    let mut g = Graph::new();
    let a = Value::new(&mut g, bits(2.0));
    let b = Value::new(&mut g, bits(-3.0));
    let c = a.mul(&mut g, b);
    c.backward(&mut g);
    assert_eq!(fl(c.val(&g)), -6.0);
    assert_eq!(fl(a.grad(&g)), -3.0);
    assert_eq!(fl(b.grad(&g)), 2.0);
}

#[test]
fn power_rule() {
    let mut g = Graph::new();
    let a = Value::new(&mut g, bits(2.0));
    let c = a.pow(&mut g, bits(3.0));
    c.backward(&mut g);
    assert_eq!(fl(c.val(&g)), 8.0);
    assert_eq!(fl(a.grad(&g)), 12.0);
}

#[test]
fn rectify_subgradient_blocks_nonpositive() {
    let mut g = Graph::new();
    let a = Value::new(&mut g, bits(-2.0));
    let c = a.relu(&mut g);
    c.backward(&mut g);
    assert_eq!(fl(c.val(&g)), 0.0);
    assert_eq!(fl(a.grad(&g)), 0.0);
}

#[test]
fn rectify_passes_positive_through() {
    let mut g = Graph::new();
    let a = Value::new(&mut g, bits(3.0));
    let c = a.relu(&mut g);
    c.backward(&mut g);
    assert_eq!(fl(c.val(&g)), 3.0);
    assert_eq!(fl(a.grad(&g)), 1.0);
}

#[test]
fn backward_on_a_bare_leaf() {
    let mut g = Graph::new();
    let a = Value::new(&mut g, bits(7.0));
    a.backward(&mut g);
    assert_eq!(fl(a.val(&g)), 7.0);
    assert_eq!(fl(a.grad(&g)), 1.0);
}

#[test]
fn rectified_power_of_negative_base() {
    let mut g = Graph::new();
    let a = Value::new(&mut g, bits(-2.0));
    let p = a.pow(&mut g, bits(3.0));
    let r = p.relu(&mut g);
    r.backward(&mut g);
    assert_eq!(fl(p.val(&g)), -8.0);
    assert_eq!(fl(r.val(&g)), 0.0);
    assert_eq!(fl(p.grad(&g)), 0.0);
    assert_eq!(fl(a.grad(&g)), 0.0);
}

#[test]
fn rectify_scales_any_upstream_gradient_by_one_or_zero() {
    let mut g = Graph::new();
    let x = Value::new(&mut g, bits(2.0));
    let r = x.relu(&mut g);
    let y = r.mul_const(&mut g, bits(5.0));
    y.backward(&mut g);
    assert_eq!(fl(r.grad(&g)), 5.0);
    assert_eq!(fl(x.grad(&g)), 5.0);

    let mut g2 = Graph::new();
    let x2 = Value::new(&mut g2, bits(-2.0));
    let r2 = x2.relu(&mut g2);
    let y2 = r2.mul_const(&mut g2, bits(5.0));
    y2.backward(&mut g2);
    assert_eq!(fl(r2.grad(&g2)), 5.0);
    assert_eq!(fl(x2.grad(&g2)), 0.0);
}

#[test]
fn hyperbolic_tangent_derivative_at_zero() {
    let mut g = Graph::new();
    let a = Value::new(&mut g, bits(0.0));
    let c = a.tanh(&mut g);
    c.backward(&mut g);
    assert_eq!(fl(c.val(&g)), 0.0);
    assert_eq!(fl(a.grad(&g)), 1.0);
}

#[test]
fn hyperbolic_tangent_derivative_general() {
    let mut g = Graph::new();
    let a = Value::new(&mut g, bits(0.5));
    let c = a.tanh(&mut g);
    c.backward(&mut g);
    let t = 0.5f64.tanh();
    assert!(approx(fl(c.val(&g)), t, 1e-12));
    assert!(approx(fl(a.grad(&g)), 1.0 - t * t, 1e-12));
}

#[test]
fn exponential_derivative() {
    let mut g = Graph::new();
    let a = Value::new(&mut g, bits(1.0));
    let c = a.exp(&mut g);
    c.backward(&mut g);
    let e = 1.0f64.exp();
    assert!(approx(fl(c.val(&g)), e, 1e-12));
    assert!(approx(fl(a.grad(&g)), e, 1e-12));
}

#[test]
fn subtraction_gradients() {
    let mut g = Graph::new();
    let a = Value::new(&mut g, bits(5.0));
    let b = Value::new(&mut g, bits(3.0));
    let c = a.sub(&mut g, b);
    c.backward(&mut g);
    assert_eq!(fl(c.val(&g)), 2.0);
    assert_eq!(fl(a.grad(&g)), 1.0);
    assert_eq!(fl(b.grad(&g)), -1.0);
}

#[test]
fn division_gradients() {
    let mut g = Graph::new();
    let a = Value::new(&mut g, bits(1.0));
    let b = Value::new(&mut g, bits(8.0));
    let c = a.div(&mut g, b);
    c.backward(&mut g);
    assert_eq!(fl(c.val(&g)), 0.125);
    assert_eq!(fl(a.grad(&g)), 0.125);
    assert_eq!(fl(b.grad(&g)), -1.0 / 64.0);
}

#[test]
fn negation_and_reciprocal() {
    let mut g = Graph::new();
    let a = Value::new(&mut g, bits(4.0));
    let n = a.neg(&mut g);
    assert_eq!(fl(n.val(&g)), -4.0);
    let r = a.reciprocal(&mut g);
    assert_eq!(fl(r.val(&g)), 0.25);
    r.backward(&mut g);
    // d(1/a)/da = -1/a^2 = -1/16
    assert_eq!(fl(a.grad(&g)), -0.0625);
}

#[test]
fn scalar_operand_builders() {
    let mut g = Graph::new();
    let x = Value::new(&mut g, bits(3.0));
    let s1 = x.add_const(&mut g, bits(1.5));
    assert_eq!(fl(s1.val(&g)), 4.5);
    let s2 = x.const_add(&mut g, bits(1.5));
    assert_eq!(fl(s2.val(&g)), 4.5);
    let s3 = x.sub_const(&mut g, bits(1.0));
    assert_eq!(fl(s3.val(&g)), 2.0);
    let s4 = x.const_sub(&mut g, bits(10.0));
    assert_eq!(fl(s4.val(&g)), 7.0);
    let s5 = x.mul_const(&mut g, bits(2.0));
    assert_eq!(fl(s5.val(&g)), 6.0);
    let s6 = x.const_mul(&mut g, bits(-2.0));
    assert_eq!(fl(s6.val(&g)), -6.0);
    let s7 = x.div_const(&mut g, bits(2.0));
    assert_eq!(fl(s7.val(&g)), 1.5);
    let s8 = x.const_div(&mut g, bits(6.0));
    assert_eq!(fl(s8.val(&g)), 2.0);
    s8.backward(&mut g);
    // d(6/x)/dx = -6/x^2 = -2/3
    assert!(approx(fl(x.grad(&g)), -2.0 / 3.0, 1e-12));
}

#[test]
fn set_value_only_changes_that_leaf() {
    let mut g = Graph::new();
    let a = Value::new(&mut g, bits(1.0));
    let b = Value::new(&mut g, bits(2.0));
    let c = a.add(&mut g, b);
    a.set_val(&mut g, bits(5.0));
    assert_eq!(fl(a.val(&g)), 5.0);
    assert_eq!(fl(b.val(&g)), 2.0);
    // the derived node keeps the value computed from the old leaf value
    assert_eq!(fl(c.val(&g)), 3.0);
}

#[test]
fn descend_steps_against_the_gradient() {
    let mut g = Graph::new();
    let a = Value::new(&mut g, bits(2.0));
    let b = Value::new(&mut g, bits(3.0));
    let c = a.mul(&mut g, b);
    c.backward(&mut g);
    assert_eq!(fl(a.grad(&g)), 3.0);
    a.descend(&mut g);
    assert_eq!(fl(a.val(&g)), 2.0 - 0.05 * 3.0);
}

#[test]
fn regression_fixture() {
    let mut g = Graph::new();
    let a = Value::new(&mut g, bits(-4.0));
    let b = Value::new(&mut g, bits(2.0));
    let mut c = a.add(&mut g, b);
    let ab = a.mul(&mut g, b);
    let b3 = b.pow(&mut g, bits(3.0));
    let mut d = ab.add(&mut g, b3);
    // c += c + 1
    let c1 = c.add_const(&mut g, bits(1.0));
    c = c.add(&mut g, c1);
    // c += 1 + c + (-a)
    let t1 = c.const_add(&mut g, bits(1.0));
    let na = a.neg(&mut g);
    let t2 = t1.add(&mut g, na);
    c = c.add(&mut g, t2);
    // d += d * 2 + relu(b + a)
    let d2 = d.mul_const(&mut g, bits(2.0));
    let ba = b.add(&mut g, a);
    let r1 = ba.relu(&mut g);
    let t3 = d2.add(&mut g, r1);
    d = d.add(&mut g, t3);
    // d += 3 * d + relu(b - a)
    let d3 = d.const_mul(&mut g, bits(3.0));
    let bma = b.sub(&mut g, a);
    let r2 = bma.relu(&mut g);
    let t4 = d3.add(&mut g, r2);
    d = d.add(&mut g, t4);
    let e = c.sub(&mut g, d);
    let f = e.pow(&mut g, bits(2.0));
    // g = f / 2 + 10 / f
    let h1 = f.div_const(&mut g, bits(2.0));
    let h2 = f.const_div(&mut g, bits(10.0));
    let out = h1.add(&mut g, h2);
    out.backward(&mut g);
    assert!(approx(fl(out.val(&g)), 24.70408, 1e-3));
    assert!(approx(fl(a.grad(&g)), 138.83382, 1e-3));
    assert!(approx(fl(b.grad(&g)), 645.57727, 1e-3));
}
