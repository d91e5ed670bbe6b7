//! Cross-checks of the gradients: a numerical-derivative comparison and the
//! re-seeding behaviour of repeated backward passes.

use scalargrad::graph::{Graph, Value};

/// Builds one fixed expression over two inputs, runs a backward pass, and
/// returns the root's value and both input gradients.
fn forward_and_backward(x: f64, y: f64) -> (f64, f64, f64) {
    let mut g = Graph::new();
    let xv = Value::new(&mut g, x.to_bits());
    let yv = Value::new(&mut g, y.to_bits());
    let p = xv.mul(&mut g, yv);
    let ey = yv.exp(&mut g);
    let q = p.add(&mut g, ey);
    let r = xv.div(&mut g, yv);
    let t = q.sub(&mut g, r);
    let h = t.tanh(&mut g);
    let u = h.add_const(&mut g, 2.0f64.to_bits());
    let w = u.pow(&mut g, 2.0f64.to_bits());
    let out = w.relu(&mut g);
    out.backward(&mut g);
    (
        f64::from_bits(out.val(&g)),
        f64::from_bits(xv.grad(&g)),
        f64::from_bits(yv.grad(&g)),
    )
}

#[test]
fn numerical_gradient_cross_check() {
    let points = [(0.7, 1.3), (-0.4, 0.9), (1.1, -0.8)];
    let eps = 1e-6;
    for &(x, y) in points.iter() {
        let (v0, gx, gy) = forward_and_backward(x, y);
        let (vx, _, _) = forward_and_backward(x + eps, y);
        let (vy, _, _) = forward_and_backward(x, y + eps);
        let num_gx = (vx - v0) / eps;
        let num_gy = (vy - v0) / eps;
        assert!((num_gx - gx).abs() <= 1e-3 * (1.0 + gx.abs()));
        assert!((num_gy - gy).abs() <= 1e-3 * (1.0 + gy.abs()));
    }
}

#[test]
fn backward_twice_gives_identical_gradients() {
    let mut g = Graph::new();
    let a = Value::new(&mut g, (-4.0f64).to_bits());
    let b = Value::new(&mut g, 2.0f64.to_bits());
    let s = a.add(&mut g, b);
    let p = a.mul(&mut g, s);
    let q = p.tanh(&mut g);
    let root = q.add(&mut g, p);
    root.backward(&mut g);
    let first = [a.grad(&g), b.grad(&g), s.grad(&g), p.grad(&g), q.grad(&g), root.grad(&g)];
    root.backward(&mut g);
    let second = [a.grad(&g), b.grad(&g), s.grad(&g), p.grad(&g), q.grad(&g), root.grad(&g)];
    assert_eq!(first, second);
}

#[test]
fn backward_from_new_root_overwrites_gradients() {
    let mut g = Graph::new();
    let a = Value::new(&mut g, 2.0f64.to_bits());
    let twice = a.mul_const(&mut g, 2.0f64.to_bits());
    let thrice = a.mul_const(&mut g, 3.0f64.to_bits());
    twice.backward(&mut g);
    assert_eq!(f64::from_bits(a.grad(&g)), 2.0);
    thrice.backward(&mut g);
    assert_eq!(f64::from_bits(a.grad(&g)), 3.0);
}
