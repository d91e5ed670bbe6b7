//! The traversal and backward executor.
//!
//! A backward pass rooted at a node runs in three phases, each mirrored by a
//! spec function so the executable code has an exact functional contract:
//! first a depth-first postorder traversal from the root records every
//! reachable node once ([`dfs`]), children before parents and in the order
//! fixed at construction; then every recorded node's gradient is reset to
//! zero and the root's is seeded to one ([`reset_grads`]); finally the
//! recorded sequence is walked in reverse — root first, leaves last — and
//! each derived node adds its operator's backward contribution into its
//! children's gradient accumulators ([`propagate`]).

use vstd::prelude::*;

use crate::graph::{graph_wf, node_wf, with_grad, Graph, Node, Op, Value};
use crate::scalar::{
    add_bits, fadd, fgt_zero, fmul, fpow, fsub, gt_zero_bits, mul_bits, pow_bits, sub_bits,
    ONE_BITS, ZERO_BITS,
};

verus! {

/// Depth-first postorder traversal of the graph from node `i`.
///
/// `vis` marks the nodes already seen (keyed by arena index, so two nodes
/// with equal values stay distinct) and `ord` is the traversal sequence
/// recorded so far. An unseen node is marked, its children are traversed in
/// construction order, and the node itself is then appended, so every child
/// precedes its parents in the result.
pub open spec fn dfs(s: Seq<Node>, i: usize, vis: Seq<bool>, ord: Seq<usize>) -> (Seq<
    bool,
>, Seq<usize>)
    decreases i,
        when graph_wf(s) && (i as int) < s.len()
        via dfs_decreases
{
    if vis[i as int] {
        (vis, ord)
    } else {
        let v1 = vis.update(i as int, true);
        match s[i as int].op {
            Op::Leaf => (v1, ord.push(i)),
            Op::Sum(a, b) => {
                let r1 = dfs(s, a, v1, ord);
                let r2 = dfs(s, b, r1.0, r1.1);
                (r2.0, r2.1.push(i))
            },
            Op::Mul(a, b) => {
                let r1 = dfs(s, a, v1, ord);
                let r2 = dfs(s, b, r1.0, r1.1);
                (r2.0, r2.1.push(i))
            },
            Op::Pow(a, _e) => {
                let r1 = dfs(s, a, v1, ord);
                (r1.0, r1.1.push(i))
            },
            Op::Relu(a) => {
                let r1 = dfs(s, a, v1, ord);
                (r1.0, r1.1.push(i))
            },
            Op::Tanh(a) => {
                let r1 = dfs(s, a, v1, ord);
                (r1.0, r1.1.push(i))
            },
            Op::Exp(a) => {
                let r1 = dfs(s, a, v1, ord);
                (r1.0, r1.1.push(i))
            },
        }
    }
}

#[via_fn]
proof fn dfs_decreases(s: Seq<Node>, i: usize, vis: Seq<bool>, ord: Seq<usize>) {
    assert(node_wf(s, i as int));
}

/// The first `k` entries of the traversal sequence with their gradients
/// reset to zero, in order.
pub open spec fn reset_grads(s: Seq<Node>, ord: Seq<usize>, k: int) -> Seq<Node>
    decreases k,
{
    if k <= 0 {
        s
    } else {
        let t = reset_grads(s, ord, k - 1);
        t.update(ord[k - 1] as int, with_grad(t[ord[k - 1] as int], ZERO_BITS))
    }
}

/// Adds the contribution `d` into the gradient accumulator of node `j`.
pub open spec fn bump(s: Seq<Node>, j: int, d: u64) -> Seq<Node> {
    s.update(j, with_grad(s[j], fadd(s[j].grad, d)))
}

/// One propagation step: node `i` adds its operator's backward contribution
/// into each child's gradient, given its own now-final gradient `g` and its
/// forward value `v`. A leaf propagates nothing. When both children are the
/// same node the two contributions accumulate in sequence.
pub open spec fn backstep(s: Seq<Node>, i: int) -> Seq<Node> {
    let g = s[i].grad;
    let v = s[i].val;
    match s[i].op {
        Op::Leaf => s,
        Op::Sum(a, b) => bump(bump(s, a as int, g), b as int, g),
        Op::Mul(a, b) => bump(
            bump(s, a as int, fmul(s[b as int].val, g)),
            b as int,
            fmul(s[a as int].val, g),
        ),
        Op::Pow(a, e) => bump(
            s,
            a as int,
            fmul(fmul(e, fpow(s[a as int].val, fsub(e, ONE_BITS))), g),
        ),
        Op::Relu(a) => if fgt_zero(s[a as int].val) {
            bump(s, a as int, g)
        } else {
            s
        },
        Op::Tanh(a) => bump(s, a as int, fmul(g, fsub(ONE_BITS, fmul(v, v)))),
        Op::Exp(a) => bump(s, a as int, fmul(g, v)),
    }
}

/// The first `k` steps of the backward walk: the traversal sequence is
/// processed in strict reverse order, root first, leaves last.
pub open spec fn propagate(s: Seq<Node>, ord: Seq<usize>, k: int) -> Seq<Node>
    decreases k,
{
    if k <= 0 {
        s
    } else {
        backstep(propagate(s, ord, k - 1), ord[ord.len() - k] as int)
    }
}

/// The traversal sequence of a backward pass rooted at `root`: a depth-first
/// postorder over the nodes reachable from it, starting with nothing seen
/// and nothing recorded.
pub open spec fn topo_order(s: Seq<Node>, root: usize) -> Seq<usize> {
    dfs(s, root, Seq::new(s.len(), |j: int| false), Seq::<usize>::empty()).1
}

/// The whole backward pass from `root`: traverse, reset every recorded
/// gradient to zero, seed the root's gradient to one, and propagate in
/// reverse traversal order.
pub open spec fn backward_spec(s: Seq<Node>, root: usize) -> Seq<Node> {
    let ord = topo_order(s, root);
    let t = reset_grads(s, ord, ord.len() as int);
    let seeded = t.update(root as int, with_grad(t[root as int], ONE_BITS));
    propagate(seeded, ord, ord.len() as int)
}

/// The traversal leaves the visited marks as long as the arena and records
/// only in-range indices, at least as many as it was handed.
proof fn lemma_dfs_bounds(s: Seq<Node>, i: usize, vis: Seq<bool>, ord: Seq<usize>)
    requires
        graph_wf(s),
        (i as int) < s.len(),
        vis.len() == s.len(),
        forall|m: int| 0 <= m < ord.len() ==> (ord[m] as int) < s.len(),
    ensures
        dfs(s, i, vis, ord).0.len() == s.len(),
        dfs(s, i, vis, ord).1.len() >= ord.len(),
        forall|m: int|
            0 <= m < dfs(s, i, vis, ord).1.len() ==> (dfs(s, i, vis, ord).1[m] as int) < s.len(),
    decreases i,
{
    if !vis[i as int] {
        let v1 = vis.update(i as int, true);
        assert(node_wf(s, i as int));
        match s[i as int].op {
            Op::Leaf => {},
            Op::Sum(a, b) => {
                lemma_dfs_bounds(s, a, v1, ord);
                let r1 = dfs(s, a, v1, ord);
                lemma_dfs_bounds(s, b, r1.0, r1.1);
            },
            Op::Mul(a, b) => {
                lemma_dfs_bounds(s, a, v1, ord);
                let r1 = dfs(s, a, v1, ord);
                lemma_dfs_bounds(s, b, r1.0, r1.1);
            },
            Op::Pow(a, _e) => {
                lemma_dfs_bounds(s, a, v1, ord);
            },
            Op::Relu(a) => {
                lemma_dfs_bounds(s, a, v1, ord);
            },
            Op::Tanh(a) => {
                lemma_dfs_bounds(s, a, v1, ord);
            },
            Op::Exp(a) => {
                lemma_dfs_bounds(s, a, v1, ord);
            },
        }
    }
}

/// Two arenas with the same length, values and operators everywhere; only
/// the gradient accumulators may differ.
pub open spec fn same_structure(s1: Seq<Node>, s2: Seq<Node>) -> bool {
    &&& s1.len() == s2.len()
    &&& forall|i: int|
        0 <= i < s1.len() ==> ((#[trigger] s2[i]).val == s1[i].val && s2[i].op == s1[i].op)
}

/// Acyclicity only depends on the operators, so it carries over to any
/// arena with the same structure.
pub proof fn lemma_same_structure_wf(s1: Seq<Node>, s2: Seq<Node>)
    requires
        graph_wf(s1),
        same_structure(s1, s2),
    ensures
        graph_wf(s2),
{
    assert forall|i: int| 0 <= i < s2.len() implies node_wf(s2, i) by {
        assert(node_wf(s1, i));
        assert(s2[i].op == s1[i].op);
    }
}

/// Resetting gradients never changes the structure.
pub(crate) proof fn lemma_reset_structure(s: Seq<Node>, ord: Seq<usize>, k: int)
    requires
        forall|m: int| 0 <= m < ord.len() ==> (ord[m] as int) < s.len(),
        k <= ord.len(),
    ensures
        same_structure(s, reset_grads(s, ord, k)),
    decreases k,
{
    if k > 0 {
        lemma_reset_structure(s, ord, k - 1);
    }
}

/// A single gradient contribution never changes the structure.
pub(crate) proof fn lemma_bump_structure(s: Seq<Node>, j: int, d: u64)
    requires
        0 <= j < s.len(),
    ensures
        same_structure(s, bump(s, j, d)),
{
}

/// One backward step never changes the structure.
pub(crate) proof fn lemma_backstep_structure(s: Seq<Node>, i: int)
    requires
        graph_wf(s),
        0 <= i < s.len(),
    ensures
        same_structure(s, backstep(s, i)),
{
    assert(node_wf(s, i));
    match s[i].op {
        Op::Leaf => {},
        Op::Sum(a, b) => {
            lemma_bump_structure(s, a as int, s[i].grad);
            lemma_bump_structure(bump(s, a as int, s[i].grad), b as int, s[i].grad);
        },
        Op::Mul(a, b) => {
            let d0 = fmul(s[b as int].val, s[i].grad);
            let d1 = fmul(s[a as int].val, s[i].grad);
            lemma_bump_structure(s, a as int, d0);
            lemma_bump_structure(bump(s, a as int, d0), b as int, d1);
        },
        Op::Pow(a, e) => {
            lemma_bump_structure(
                s,
                a as int,
                fmul(fmul(e, fpow(s[a as int].val, fsub(e, ONE_BITS))), s[i].grad),
            );
        },
        Op::Relu(a) => {
            if fgt_zero(s[a as int].val) {
                lemma_bump_structure(s, a as int, s[i].grad);
            }
        },
        Op::Tanh(a) => {
            lemma_bump_structure(
                s,
                a as int,
                fmul(s[i].grad, fsub(ONE_BITS, fmul(s[i].val, s[i].val))),
            );
        },
        Op::Exp(a) => {
            lemma_bump_structure(s, a as int, fmul(s[i].grad, s[i].val));
        },
    }
}

/// Adds the contribution `d` into the gradient accumulator of node `j`.
fn bump_exec(nodes: &mut Vec<Node>, j: usize, d: u64)
    requires
        (j as int) < old(nodes)@.len(),
    ensures
        final(nodes)@ == bump(old(nodes)@, j as int, d),
{
    let nd = nodes[j];
    let ng = add_bits(nd.grad, d);
    nodes.set(j, Node { val: nd.val, grad: ng, op: nd.op });
}

/// Applies the backward contribution of node `i` to its children.
fn backstep_exec(nodes: &mut Vec<Node>, i: usize)
    requires
        graph_wf(old(nodes)@),
        (i as int) < old(nodes)@.len(),
    ensures
        final(nodes)@ == backstep(old(nodes)@, i as int),
{
    proof {
        assert(node_wf(nodes@, i as int));
    }
    let nd = nodes[i];
    match nd.op {
        Op::Leaf => {},
        Op::Sum(a, b) => {
            bump_exec(nodes, a, nd.grad);
            bump_exec(nodes, b, nd.grad);
        },
        Op::Mul(a, b) => {
            let va = nodes[a].val;
            let vb = nodes[b].val;
            let d0 = mul_bits(vb, nd.grad);
            bump_exec(nodes, a, d0);
            let d1 = mul_bits(va, nd.grad);
            bump_exec(nodes, b, d1);
        },
        Op::Pow(a, e) => {
            let va = nodes[a].val;
            let em1 = sub_bits(e, ONE_BITS);
            let p = pow_bits(va, em1);
            let d = mul_bits(mul_bits(e, p), nd.grad);
            bump_exec(nodes, a, d);
        },
        Op::Relu(a) => {
            let va = nodes[a].val;
            if gt_zero_bits(va) {
                bump_exec(nodes, a, nd.grad);
            }
        },
        Op::Tanh(a) => {
            let d = mul_bits(nd.grad, sub_bits(ONE_BITS, mul_bits(nd.val, nd.val)));
            bump_exec(nodes, a, d);
        },
        Op::Exp(a) => {
            let d = mul_bits(nd.grad, nd.val);
            bump_exec(nodes, a, d);
        },
    }
}

/// Records the depth-first postorder traversal from node `i` into `ord`,
/// marking every node it sees in `vis` so a shared sub-expression is
/// traversed at most once.
fn postorder(nodes: &Vec<Node>, i: usize, vis: &mut Vec<bool>, ord: &mut Vec<usize>)
    requires
        graph_wf(nodes@),
        (i as int) < nodes@.len(),
        old(vis)@.len() == nodes@.len(),
    ensures
        final(vis)@ == dfs(nodes@, i, old(vis)@, old(ord)@).0,
        final(ord)@ == dfs(nodes@, i, old(vis)@, old(ord)@).1,
        final(vis)@.len() == old(vis)@.len(),
    decreases i,
{
    if vis[i] {
        return ;
    }
    vis.set(i, true);
    proof {
        assert(node_wf(nodes@, i as int));
    }
    let nd = nodes[i];
    match nd.op {
        Op::Leaf => {
            ord.push(i);
        },
        Op::Sum(a, b) => {
            postorder(nodes, a, vis, ord);
            postorder(nodes, b, vis, ord);
            ord.push(i);
        },
        Op::Mul(a, b) => {
            postorder(nodes, a, vis, ord);
            postorder(nodes, b, vis, ord);
            ord.push(i);
        },
        Op::Pow(a, _e) => {
            postorder(nodes, a, vis, ord);
            ord.push(i);
        },
        Op::Relu(a) => {
            postorder(nodes, a, vis, ord);
            ord.push(i);
        },
        Op::Tanh(a) => {
            postorder(nodes, a, vis, ord);
            ord.push(i);
        },
        Op::Exp(a) => {
            postorder(nodes, a, vis, ord);
            ord.push(i);
        },
    }
}

impl Value {
    /// Runs a backward pass rooted at this node: computes a topological
    /// traversal of the sub-graph below it, resets every traversed node's
    /// gradient to zero, seeds this node's gradient to one, and walks the
    /// traversal in reverse so each node adds its operator's contribution
    /// into its children's gradients. Values and operators are untouched.
    pub fn backward(&self, g: &mut Graph)
        requires
            old(g).wf(),
            self.wf(old(g)),
        ensures
            final(g).wf(),
            final(g)@.len() == old(g)@.len(),
            final(g)@ == backward_spec(old(g)@, self.idx),
    {
        proof {
            g.view_is_nodes();
        }
        let ghost s0 = g@;
        let n = g.nodes.len();
        let mut vis: Vec<bool> = Vec::new();
        while vis.len() < n
            invariant
                vis@.len() <= n,
                forall|j: int| 0 <= j < vis@.len() ==> vis@[j] == false,
            decreases n - vis@.len(),
        {
            vis.push(false);
        }
        proof {
            assert(vis@ =~= Seq::new(s0.len(), |j: int| false));
        }
        let mut ord: Vec<usize> = Vec::new();
        proof {
            assert(ord@ =~= Seq::<usize>::empty());
        }
        postorder(&g.nodes, self.idx, &mut vis, &mut ord);
        let ghost ordg = ord@;
        proof {
            lemma_dfs_bounds(s0, self.idx, Seq::new(s0.len(), |j: int| false), Seq::<
                usize,
            >::empty());
        }

        // Seeding: reset every traversed gradient to zero.
        let mut k: usize = 0;
        while k < ord.len()
            invariant
                ord@ == ordg,
                k <= ordg.len(),
                forall|m: int| 0 <= m < ordg.len() ==> (ordg[m] as int) < s0.len(),
                g.nodes@ == reset_grads(s0, ordg, k as int),
                g.nodes@.len() == s0.len(),
            decreases ordg.len() - k,
        {
            let j = ord[k];
            let nd = g.nodes[j];
            g.nodes.set(j, Node { val: nd.val, grad: ZERO_BITS, op: nd.op });
            k += 1;
        }

        // Seeding: the root's own derivative with respect to itself is one.
        let nd = g.nodes[self.idx];
        g.nodes.set(self.idx, Node { val: nd.val, grad: ONE_BITS, op: nd.op });
        let ghost t = reset_grads(s0, ordg, ordg.len() as int);
        let ghost seeded = t.update(self.idx as int, with_grad(t[self.idx as int], ONE_BITS));
        proof {
            assert(g.nodes@ == seeded);
            lemma_reset_structure(s0, ordg, ordg.len() as int);
            assert(same_structure(s0, seeded));
            lemma_same_structure_wf(s0, seeded);
        }

        // Propagation: walk the traversal in strict reverse order.
        let mut k2: usize = ord.len();
        while k2 > 0
            invariant
                ord@ == ordg,
                k2 <= ordg.len(),
                forall|m: int| 0 <= m < ordg.len() ==> (ordg[m] as int) < s0.len(),
                g.nodes@ == propagate(seeded, ordg, (ordg.len() - k2) as int),
                g.nodes@.len() == s0.len(),
                graph_wf(g.nodes@),
            decreases k2,
        {
            k2 = k2 - 1;
            let i = ord[k2];
            let ghost before = g.nodes@;
            backstep_exec(&mut g.nodes, i);
            proof {
                lemma_backstep_structure(before, i as int);
                lemma_same_structure_wf(before, g.nodes@);
                assert(g.nodes@ == propagate(seeded, ordg, (ordg.len() - k2) as int));
            }
        }
        proof {
            g.view_is_nodes();
            assert(g.nodes@ == backward_spec(s0, self.idx));
        }
    }
}

} // verus!
