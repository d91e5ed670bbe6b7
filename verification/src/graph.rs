//! The computation graph: an arena of nodes joined by integer indices.
//!
//! A node holds a scalar value, a gradient accumulator, and its provenance:
//! either it is a leaf (an input constant or a trainable parameter), or it
//! was derived by an operator from nodes that already existed when it was
//! built. Children are referenced by arena index, so a node can only point
//! at nodes with strictly smaller indices and the graph is acyclic by
//! construction. Diamond sharing (one node a child of many parents) is
//! expected and handled by the backward pass.

use vstd::prelude::*;

use crate::scalar::{
    add_bits, div_bits, exp_bits, fadd, fdiv, fexp, fgt_zero, fmul, fpow, fsub, ftanh, gt_zero_bits,
    mul_bits, pow_bits, sub_bits, tanh_bits, NEG_ONE_BITS, ONE_BITS, ZERO_BITS,
};

verus! {

/// Bit pattern of the double 0.05, the step size of [`Value::descend`].
pub const DESCENT_RATE_BITS: u64 = 0x3FA999999999999A;

/// The provenance of a node: how it was derived, and from which arena
/// indices. The operand order is fixed at construction and determines the
/// traversal order of the backward pass.
#[derive(Clone, Copy)]
pub enum Op {
    /// An input constant or trainable parameter; no children.
    Leaf,
    /// The sum of two children.
    Sum(usize, usize),
    /// The product of two children.
    Mul(usize, usize),
    /// One child raised to a fixed exponent (the exponent's bit pattern).
    Pow(usize, u64),
    /// The rectified-linear image of one child.
    Relu(usize),
    /// The hyperbolic tangent of one child.
    Tanh(usize),
    /// The exponential of one child.
    Exp(usize),
}

/// One arena slot: a scalar value, a gradient accumulator, and provenance.
#[derive(Clone, Copy)]
pub struct Node {
    /// The scalar computed when the node was built (bits of a double).
    pub val: u64,
    /// The derivative of some root with respect to this node, valid only
    /// right after a backward pass rooted at that root (bits of a double).
    pub grad: u64,
    /// How the node was derived.
    pub op: Op,
}

/// A node with the given fields.
pub open spec fn node(val: u64, grad: u64, op: Op) -> Node {
    Node { val, grad, op }
}

/// The node `n` with its gradient replaced.
pub open spec fn with_grad(n: Node, grad: u64) -> Node {
    Node { grad, ..n }
}

/// The node `n` with its value replaced.
pub open spec fn with_val(n: Node, val: u64) -> Node {
    Node { val, ..n }
}

/// Every child index of `op` is smaller than `n`: an operator stored at
/// slot `n` may only reference nodes that already existed.
pub open spec fn op_wf(op: Op, n: int) -> bool {
    match op {
        Op::Leaf => true,
        Op::Sum(a, b) => a < n && b < n,
        Op::Mul(a, b) => a < n && b < n,
        Op::Pow(a, _e) => a < n,
        Op::Relu(a) => a < n,
        Op::Tanh(a) => a < n,
        Op::Exp(a) => a < n,
    }
}

/// The node at slot `i` only references earlier slots.
pub open spec fn node_wf(s: Seq<Node>, i: int) -> bool {
    op_wf(s[i].op, i)
}

/// Every node only references earlier slots, so the graph is acyclic.
pub open spec fn graph_wf(s: Seq<Node>) -> bool {
    forall|i: int| 0 <= i < s.len() ==> node_wf(s, i)
}

/// The arena that owns every node of a computation graph.
pub struct Graph {
    pub(crate) nodes: Vec<Node>,
}

impl View for Graph {
    type V = Seq<Node>;

    closed spec fn view(&self) -> Seq<Node> {
        self.nodes@
    }
}

/// A handle to one node of a [`Graph`]: its arena index.
#[derive(Clone, Copy)]
pub struct Value {
    /// The arena index of the node this handle designates.
    pub idx: usize,
}

impl Graph {
    /// The arena is acyclic.
    pub open spec fn wf(&self) -> bool {
        graph_wf(self@)
    }

    /// An empty arena.
    pub fn new() -> (g: Graph)
        ensures
            g@ == Seq::<Node>::empty(),
            g.wf(),
    {
        Graph { nodes: Vec::new() }
    }

    /// The view of the arena is exactly its node sequence.
    pub(crate) proof fn view_is_nodes(&self)
        ensures
            self@ == self.nodes@,
    {
    }

    /// How many nodes the arena holds.
    pub fn len(&self) -> (n: usize)
        ensures
            n == self@.len(),
    {
        self.nodes.len()
    }

    /// Appends a node with gradient zero, returning its handle.
    fn push_node(&mut self, val: u64, op: Op) -> (v: Value)
        requires
            old(self).wf(),
            op_wf(op, old(self)@.len() as int),
        ensures
            final(self).wf(),
            final(self)@ == old(self)@.push(node(val, ZERO_BITS, op)),
            v.idx == old(self)@.len(),
            v.wf(final(self)),
    {
        let v = Value { idx: self.nodes.len() };
        self.nodes.push(Node { val, grad: ZERO_BITS, op });
        proof {
            lemma_push_preserves_wf(old(self)@, node(val, ZERO_BITS, op));
        }
        v
    }
}

/// Appending a node whose children all lie in the old arena keeps the
/// arena acyclic.
proof fn lemma_push_preserves_wf(s: Seq<Node>, n: Node)
    requires
        graph_wf(s),
        op_wf(n.op, s.len() as int),
    ensures
        graph_wf(s.push(n)),
{
    let t = s.push(n);
    assert forall|i: int| 0 <= i < t.len() implies node_wf(t, i) by {
        if i < s.len() {
            assert(t[i] == s[i]);
            assert(node_wf(s, i));
        } else {
            assert(t[i] == n);
        }
    }
}

impl Value {
    /// The handle points into the arena.
    pub open spec fn wf(&self, g: &Graph) -> bool {
        self.idx < g@.len()
    }

    /// The stored value of the node, as the bits of a double.
    pub open spec fn spec_val(&self, g: &Graph) -> u64 {
        g@[self.idx as int].val
    }

    /// The stored gradient of the node, as the bits of a double.
    pub open spec fn spec_grad(&self, g: &Graph) -> u64 {
        g@[self.idx as int].grad
    }

    /// Wraps a scalar as a fresh leaf node: that value, gradient zero, no
    /// provenance.
    pub fn new(g: &mut Graph, bits: u64) -> (v: Value)
        requires
            old(g).wf(),
        ensures
            final(g).wf(),
            final(g)@ == old(g)@.push(node(bits, ZERO_BITS, Op::Leaf)),
            v.idx == old(g)@.len(),
            v.wf(final(g)),
    {
        g.push_node(bits, Op::Leaf)
    }

    /// Reads the node's scalar value.
    pub fn val(&self, g: &Graph) -> (r: u64)
        requires
            self.wf(g),
        ensures
            r == self.spec_val(g),
    {
        g.nodes[self.idx].val
    }

    /// Reads the node's gradient accumulator.
    pub fn grad(&self, g: &Graph) -> (r: u64)
        requires
            self.wf(g),
        ensures
            r == self.spec_grad(g),
    {
        g.nodes[self.idx].grad
    }

    /// Overwrites the scalar of a leaf in place, leaving every other node
    /// untouched; derived nodes computed from the old value do not change.
    pub fn set_val(&self, g: &mut Graph, bits: u64)
        requires
            old(g).wf(),
            self.wf(old(g)),
            old(g)@[self.idx as int].op is Leaf,
        ensures
            final(g).wf(),
            final(g)@ == old(g)@.update(self.idx as int, with_val(old(g)@[self.idx as int], bits)),
    {
        let nd = g.nodes[self.idx];
        g.nodes.set(self.idx, Node { val: bits, grad: nd.grad, op: nd.op });
        proof {
            lemma_update_same_op_preserves_wf(
                old(g)@,
                self.idx as int,
                with_val(old(g)@[self.idx as int], bits),
            );
        }
    }

    /// One gradient-descent step on this node's value, with step size 0.05:
    /// `value <- value - 0.05 * gradient`.
    pub fn descend(&self, g: &mut Graph)
        requires
            old(g).wf(),
            self.wf(old(g)),
        ensures
            final(g).wf(),
            final(g)@ == old(g)@.update(
                self.idx as int,
                with_val(
                    old(g)@[self.idx as int],
                    fsub(
                        old(g)@[self.idx as int].val,
                        fmul(DESCENT_RATE_BITS, old(g)@[self.idx as int].grad),
                    ),
                ),
            ),
    {
        let nd = g.nodes[self.idx];
        let step = mul_bits(DESCENT_RATE_BITS, nd.grad);
        let nv = sub_bits(nd.val, step);
        g.nodes.set(self.idx, Node { val: nv, grad: nd.grad, op: nd.op });
        proof {
            lemma_update_same_op_preserves_wf(
                old(g)@,
                self.idx as int,
                with_val(old(g)@[self.idx as int], fsub(nd.val, fmul(DESCENT_RATE_BITS, nd.grad))),
            );
        }
    }
}

impl Value {
    /// Builds the sum of two nodes: a new node whose value is the sum of the
    /// operands' values, with the operands as its children in the given order.
    pub fn add(&self, g: &mut Graph, other: Value) -> (v: Value)
        requires
            old(g).wf(),
            self.wf(old(g)),
            other.wf(old(g)),
        ensures
            final(g).wf(),
            v.idx == old(g)@.len(),
            v.wf(final(g)),
            final(g)@ == old(g)@.push(
                node(
                    fadd(old(g)@[self.idx as int].val, old(g)@[other.idx as int].val),
                    ZERO_BITS,
                    Op::Sum(self.idx, other.idx),
                ),
            ),
    {
        let r = add_bits(g.nodes[self.idx].val, g.nodes[other.idx].val);
        g.push_node(r, Op::Sum(self.idx, other.idx))
    }

    /// Builds the product of two nodes, with the operands as its children in
    /// the given order.
    pub fn mul(&self, g: &mut Graph, other: Value) -> (v: Value)
        requires
            old(g).wf(),
            self.wf(old(g)),
            other.wf(old(g)),
        ensures
            final(g).wf(),
            v.idx == old(g)@.len(),
            v.wf(final(g)),
            final(g)@ == old(g)@.push(
                node(
                    fmul(old(g)@[self.idx as int].val, old(g)@[other.idx as int].val),
                    ZERO_BITS,
                    Op::Mul(self.idx, other.idx),
                ),
            ),
    {
        let r = mul_bits(g.nodes[self.idx].val, g.nodes[other.idx].val);
        g.push_node(r, Op::Mul(self.idx, other.idx))
    }

    /// Builds the negation of a node as the product of a fresh -1 leaf and
    /// the node: two new nodes, the leaf first.
    pub fn neg(&self, g: &mut Graph) -> (v: Value)
        requires
            old(g).wf(),
            self.wf(old(g)),
        ensures
            final(g).wf(),
            v.idx == old(g)@.len() + 1,
            v.wf(final(g)),
            final(g)@ == old(g)@
                .push(node(NEG_ONE_BITS, ZERO_BITS, Op::Leaf))
                .push(node(
                    fmul(NEG_ONE_BITS, old(g)@[self.idx as int].val),
                    ZERO_BITS,
                    Op::Mul(old(g)@.len() as usize, self.idx),
                )),
    {
        let m = Value::new(g, NEG_ONE_BITS);
        m.mul(g, *self)
    }

    /// Builds the difference of two nodes. The stored value is the
    /// difference of the operands' values; the children are the left operand
    /// and a freshly built negation of the right one, so three nodes are
    /// appended: the -1 leaf, the negation, and the difference itself.
    pub fn sub(&self, g: &mut Graph, other: Value) -> (v: Value)
        requires
            old(g).wf(),
            self.wf(old(g)),
            other.wf(old(g)),
        ensures
            final(g).wf(),
            v.idx == old(g)@.len() + 2,
            v.wf(final(g)),
            final(g)@ == old(g)@
                .push(node(NEG_ONE_BITS, ZERO_BITS, Op::Leaf))
                .push(node(
                    fmul(NEG_ONE_BITS, old(g)@[other.idx as int].val),
                    ZERO_BITS,
                    Op::Mul(old(g)@.len() as usize, other.idx),
                ))
                .push(node(
                    fsub(old(g)@[self.idx as int].val, old(g)@[other.idx as int].val),
                    ZERO_BITS,
                    Op::Sum(self.idx, (old(g)@.len() + 1) as usize),
                )),
    {
        let va = g.nodes[self.idx].val;
        let vb = g.nodes[other.idx].val;
        let nb = other.neg(g);
        let r = sub_bits(va, vb);
        g.push_node(r, Op::Sum(self.idx, nb.idx))
    }

    /// Builds the reciprocal of a node: its value is one over the operand's
    /// value, recorded as a power with exponent -1.
    pub fn reciprocal(&self, g: &mut Graph) -> (v: Value)
        requires
            old(g).wf(),
            self.wf(old(g)),
        ensures
            final(g).wf(),
            v.idx == old(g)@.len(),
            v.wf(final(g)),
            final(g)@ == old(g)@.push(
                node(
                    fdiv(ONE_BITS, old(g)@[self.idx as int].val),
                    ZERO_BITS,
                    Op::Pow(self.idx, NEG_ONE_BITS),
                ),
            ),
    {
        let r = div_bits(ONE_BITS, g.nodes[self.idx].val);
        g.push_node(r, Op::Pow(self.idx, NEG_ONE_BITS))
    }

    /// Builds the quotient of two nodes. The stored value is the quotient of
    /// the operands' values; the children are the left operand and a freshly
    /// built reciprocal of the right one, recorded as a product.
    pub fn div(&self, g: &mut Graph, other: Value) -> (v: Value)
        requires
            old(g).wf(),
            self.wf(old(g)),
            other.wf(old(g)),
        ensures
            final(g).wf(),
            v.idx == old(g)@.len() + 1,
            v.wf(final(g)),
            final(g)@ == old(g)@
                .push(node(
                    fdiv(ONE_BITS, old(g)@[other.idx as int].val),
                    ZERO_BITS,
                    Op::Pow(other.idx, NEG_ONE_BITS),
                ))
                .push(node(
                    fdiv(old(g)@[self.idx as int].val, old(g)@[other.idx as int].val),
                    ZERO_BITS,
                    Op::Mul(self.idx, old(g)@.len() as usize),
                )),
    {
        let va = g.nodes[self.idx].val;
        let vb = g.nodes[other.idx].val;
        let rec = other.reciprocal(g);
        let r = div_bits(va, vb);
        g.push_node(r, Op::Mul(self.idx, rec.idx))
    }

    /// Builds the node raised to a fixed exponent (given as the bits of a
    /// double); the exponent is carried on the operator, not as a child.
    pub fn pow(&self, g: &mut Graph, exp: u64) -> (v: Value)
        requires
            old(g).wf(),
            self.wf(old(g)),
        ensures
            final(g).wf(),
            v.idx == old(g)@.len(),
            v.wf(final(g)),
            final(g)@ == old(g)@.push(
                node(
                    fpow(old(g)@[self.idx as int].val, exp),
                    ZERO_BITS,
                    Op::Pow(self.idx, exp),
                ),
            ),
    {
        let r = pow_bits(g.nodes[self.idx].val, exp);
        g.push_node(r, Op::Pow(self.idx, exp))
    }

    /// Builds the rectified-linear image of a node: the operand's value if
    /// it is strictly positive, and 0.0 otherwise.
    pub fn relu(&self, g: &mut Graph) -> (v: Value)
        requires
            old(g).wf(),
            self.wf(old(g)),
        ensures
            final(g).wf(),
            v.idx == old(g)@.len(),
            v.wf(final(g)),
            final(g)@ == old(g)@.push(
                node(
                    if fgt_zero(old(g)@[self.idx as int].val) {
                        old(g)@[self.idx as int].val
                    } else {
                        ZERO_BITS
                    },
                    ZERO_BITS,
                    Op::Relu(self.idx),
                ),
            ),
    {
        let x = g.nodes[self.idx].val;
        let r = if gt_zero_bits(x) {
            x
        } else {
            ZERO_BITS
        };
        g.push_node(r, Op::Relu(self.idx))
    }

    /// Builds the hyperbolic tangent of a node.
    pub fn tanh(&self, g: &mut Graph) -> (v: Value)
        requires
            old(g).wf(),
            self.wf(old(g)),
        ensures
            final(g).wf(),
            v.idx == old(g)@.len(),
            v.wf(final(g)),
            final(g)@ == old(g)@.push(
                node(ftanh(old(g)@[self.idx as int].val), ZERO_BITS, Op::Tanh(self.idx)),
            ),
    {
        let r = tanh_bits(g.nodes[self.idx].val);
        g.push_node(r, Op::Tanh(self.idx))
    }

    /// Builds the exponential of a node.
    pub fn exp(&self, g: &mut Graph) -> (v: Value)
        requires
            old(g).wf(),
            self.wf(old(g)),
        ensures
            final(g).wf(),
            v.idx == old(g)@.len(),
            v.wf(final(g)),
            final(g)@ == old(g)@.push(
                node(fexp(old(g)@[self.idx as int].val), ZERO_BITS, Op::Exp(self.idx)),
            ),
    {
        let r = exp_bits(g.nodes[self.idx].val);
        g.push_node(r, Op::Exp(self.idx))
    }

    /// Builds the sum of a node and a raw scalar: the scalar is wrapped as a
    /// fresh leaf, which becomes the second child.
    pub fn add_const(&self, g: &mut Graph, c: u64) -> (v: Value)
        requires
            old(g).wf(),
            self.wf(old(g)),
        ensures
            final(g).wf(),
            v.idx == old(g)@.len() + 1,
            v.wf(final(g)),
            final(g)@ == old(g)@
                .push(node(c, ZERO_BITS, Op::Leaf))
                .push(node(
                    fadd(old(g)@[self.idx as int].val, c),
                    ZERO_BITS,
                    Op::Sum(self.idx, old(g)@.len() as usize),
                )),
    {
        let cl = Value::new(g, c);
        self.add(g, cl)
    }

    /// Builds the sum of a raw scalar and a node: the scalar is wrapped as a
    /// fresh leaf, which becomes the first child.
    pub fn const_add(&self, g: &mut Graph, c: u64) -> (v: Value)
        requires
            old(g).wf(),
            self.wf(old(g)),
        ensures
            final(g).wf(),
            v.idx == old(g)@.len() + 1,
            v.wf(final(g)),
            final(g)@ == old(g)@
                .push(node(c, ZERO_BITS, Op::Leaf))
                .push(node(
                    fadd(c, old(g)@[self.idx as int].val),
                    ZERO_BITS,
                    Op::Sum(old(g)@.len() as usize, self.idx),
                )),
    {
        let cl = Value::new(g, c);
        cl.add(g, *self)
    }

    /// Builds the difference of a node and a raw scalar, wrapping the scalar
    /// as a fresh leaf that is then negated as in [`Value::sub`].
    pub fn sub_const(&self, g: &mut Graph, c: u64) -> (v: Value)
        requires
            old(g).wf(),
            self.wf(old(g)),
        ensures
            final(g).wf(),
            v.idx == old(g)@.len() + 3,
            v.wf(final(g)),
            final(g)@ == old(g)@
                .push(node(c, ZERO_BITS, Op::Leaf))
                .push(node(NEG_ONE_BITS, ZERO_BITS, Op::Leaf))
                .push(node(
                    fmul(NEG_ONE_BITS, c),
                    ZERO_BITS,
                    Op::Mul((old(g)@.len() + 1) as usize, old(g)@.len() as usize),
                ))
                .push(node(
                    fsub(old(g)@[self.idx as int].val, c),
                    ZERO_BITS,
                    Op::Sum(self.idx, (old(g)@.len() + 2) as usize),
                )),
    {
        let cl = Value::new(g, c);
        self.sub(g, cl)
    }

    /// Builds the difference of a raw scalar and a node, wrapping the scalar
    /// as a fresh leaf that becomes the left operand of [`Value::sub`].
    pub fn const_sub(&self, g: &mut Graph, c: u64) -> (v: Value)
        requires
            old(g).wf(),
            self.wf(old(g)),
        ensures
            final(g).wf(),
            v.idx == old(g)@.len() + 3,
            v.wf(final(g)),
            final(g)@ == old(g)@
                .push(node(c, ZERO_BITS, Op::Leaf))
                .push(node(NEG_ONE_BITS, ZERO_BITS, Op::Leaf))
                .push(node(
                    fmul(NEG_ONE_BITS, old(g)@[self.idx as int].val),
                    ZERO_BITS,
                    Op::Mul((old(g)@.len() + 1) as usize, self.idx),
                ))
                .push(node(
                    fsub(c, old(g)@[self.idx as int].val),
                    ZERO_BITS,
                    Op::Sum(old(g)@.len() as usize, (old(g)@.len() + 2) as usize),
                )),
    {
        let cl = Value::new(g, c);
        cl.sub(g, *self)
    }

    /// Builds the product of a node and a raw scalar: the scalar is wrapped
    /// as a fresh leaf, which becomes the second child.
    pub fn mul_const(&self, g: &mut Graph, c: u64) -> (v: Value)
        requires
            old(g).wf(),
            self.wf(old(g)),
        ensures
            final(g).wf(),
            v.idx == old(g)@.len() + 1,
            v.wf(final(g)),
            final(g)@ == old(g)@
                .push(node(c, ZERO_BITS, Op::Leaf))
                .push(node(
                    fmul(old(g)@[self.idx as int].val, c),
                    ZERO_BITS,
                    Op::Mul(self.idx, old(g)@.len() as usize),
                )),
    {
        let cl = Value::new(g, c);
        self.mul(g, cl)
    }

    /// Builds the product of a raw scalar and a node: the scalar is wrapped
    /// as a fresh leaf, which becomes the first child.
    pub fn const_mul(&self, g: &mut Graph, c: u64) -> (v: Value)
        requires
            old(g).wf(),
            self.wf(old(g)),
        ensures
            final(g).wf(),
            v.idx == old(g)@.len() + 1,
            v.wf(final(g)),
            final(g)@ == old(g)@
                .push(node(c, ZERO_BITS, Op::Leaf))
                .push(node(
                    fmul(c, old(g)@[self.idx as int].val),
                    ZERO_BITS,
                    Op::Mul(old(g)@.len() as usize, self.idx),
                )),
    {
        let cl = Value::new(g, c);
        cl.mul(g, *self)
    }

    /// Builds the quotient of a node by a raw scalar as a product with the
    /// scalar's reciprocal, which is computed eagerly and wrapped as a leaf.
    pub fn div_const(&self, g: &mut Graph, c: u64) -> (v: Value)
        requires
            old(g).wf(),
            self.wf(old(g)),
        ensures
            final(g).wf(),
            v.idx == old(g)@.len() + 1,
            v.wf(final(g)),
            final(g)@ == old(g)@
                .push(node(fdiv(ONE_BITS, c), ZERO_BITS, Op::Leaf))
                .push(node(
                    fmul(old(g)@[self.idx as int].val, fdiv(ONE_BITS, c)),
                    ZERO_BITS,
                    Op::Mul(self.idx, old(g)@.len() as usize),
                )),
    {
        let rc = div_bits(ONE_BITS, c);
        let cl = Value::new(g, rc);
        self.mul(g, cl)
    }

    /// Builds the quotient of a raw scalar by a node as the product of the
    /// scalar's leaf and the node's reciprocal.
    pub fn const_div(&self, g: &mut Graph, c: u64) -> (v: Value)
        requires
            old(g).wf(),
            self.wf(old(g)),
        ensures
            final(g).wf(),
            v.idx == old(g)@.len() + 2,
            v.wf(final(g)),
            final(g)@ == old(g)@
                .push(node(c, ZERO_BITS, Op::Leaf))
                .push(node(
                    fdiv(ONE_BITS, old(g)@[self.idx as int].val),
                    ZERO_BITS,
                    Op::Pow(self.idx, NEG_ONE_BITS),
                ))
                .push(node(
                    fmul(c, fdiv(ONE_BITS, old(g)@[self.idx as int].val)),
                    ZERO_BITS,
                    Op::Mul(old(g)@.len() as usize, (old(g)@.len() + 1) as usize),
                )),
    {
        let cl = Value::new(g, c);
        let rec = self.reciprocal(g);
        cl.mul(g, rec)
    }
}

/// Replacing a node without changing its operator keeps the arena acyclic.
proof fn lemma_update_same_op_preserves_wf(s: Seq<Node>, i: int, n: Node)
    requires
        graph_wf(s),
        0 <= i < s.len(),
        n.op == s[i].op,
    ensures
        graph_wf(s.update(i, n)),
{
    let t = s.update(i, n);
    assert forall|j: int| 0 <= j < t.len() implies node_wf(t, j) by {
        assert(node_wf(s, j));
        if j != i {
            assert(t[j] == s[j]);
        }
    }
}

} // verus!
