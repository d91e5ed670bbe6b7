//! Laws of the traversal and of the backward pass.
//!
//! The traversal sequence computed by a backward pass is a genuine
//! topological order of the sub-graph below the root: it records exactly the
//! nodes the root reaches, none of them twice, each node's children stand
//! strictly before it, and the root stands last. The pass itself only
//! rewrites gradients: values and operators are untouched, a node the root
//! does not reach comes out exactly as it went in, and the root's own
//! gradient ends every pass at one, the chain-rule base case. Finally,
//! running a backward pass twice in a row from the same root leaves exactly
//! the gradients of the first run: re-seeding wipes every accumulator the
//! pass touches, so nothing leaks from one invocation into the next.

use vstd::prelude::*;

use crate::backward::{
    backstep, backward_spec, bump, dfs, propagate, reset_grads, same_structure, topo_order,
};
use crate::graph::{graph_wf, node_wf, with_grad, Node, Op};
use crate::scalar::{fadd, fgt_zero, ONE_BITS, ZERO_BITS};

verus! {

/// The children of an operator, in their fixed construction order.
pub open spec fn op_children(op: Op) -> Seq<usize> {
    match op {
        Op::Leaf => Seq::<usize>::empty(),
        Op::Sum(a, b) => seq![a, b],
        Op::Mul(a, b) => seq![a, b],
        Op::Pow(a, _e) => seq![a],
        Op::Relu(a) => seq![a],
        Op::Tanh(a) => seq![a],
        Op::Exp(a) => seq![a],
    }
}

/// Node `j` lies in the sub-graph rooted at `i`: it is `i` itself, or it
/// lies in the sub-graph rooted at one of `i`'s children.
pub open spec fn reaches(s: Seq<Node>, i: usize, j: usize) -> bool
    decreases i,
        when graph_wf(s) && (i as int) < s.len()
        via reaches_decreases
{
    i == j || match s[i as int].op {
        Op::Leaf => false,
        Op::Sum(a, b) => reaches(s, a, j) || reaches(s, b, j),
        Op::Mul(a, b) => reaches(s, a, j) || reaches(s, b, j),
        Op::Pow(a, _e) => reaches(s, a, j),
        Op::Relu(a) => reaches(s, a, j),
        Op::Tanh(a) => reaches(s, a, j),
        Op::Exp(a) => reaches(s, a, j),
    }
}

#[via_fn]
proof fn reaches_decreases(s: Seq<Node>, i: usize, j: usize) {
    assert(node_wf(s, i as int));
}

/// Whatever a child reaches, its parent reaches through it.
proof fn lemma_reaches_step(s: Seq<Node>, i: usize, k: usize, j: usize)
    requires
        graph_wf(s),
        (i as int) < s.len(),
        op_children(s[i as int].op).contains(k),
        reaches(s, k, j),
    ensures
        reaches(s, i, j),
{
    assert(node_wf(s, i as int));
    let c = choose|c: int|
        0 <= c < op_children(s[i as int].op).len() && op_children(s[i as int].op)[c] == k;
    match s[i as int].op {
        Op::Leaf => {},
        Op::Sum(a, b) => {
            assert(op_children(s[i as int].op)[0] == a && op_children(s[i as int].op)[1] == b);
            assert(k == a || k == b);
        },
        Op::Mul(a, b) => {
            assert(op_children(s[i as int].op)[0] == a && op_children(s[i as int].op)[1] == b);
            assert(k == a || k == b);
        },
        Op::Pow(a, _e) => {
            assert(op_children(s[i as int].op)[0] == a);
            assert(k == a);
        },
        Op::Relu(a) => {
            assert(op_children(s[i as int].op)[0] == a);
            assert(k == a);
        },
        Op::Tanh(a) => {
            assert(op_children(s[i as int].op)[0] == a);
            assert(k == a);
        },
        Op::Exp(a) => {
            assert(op_children(s[i as int].op)[0] == a);
            assert(k == a);
        },
    }
}

/// Node `k` appears in `ord` strictly before position `m`.
pub open spec fn appears_before(ord: Seq<usize>, m: int, k: usize) -> bool {
    exists|p: int| 0 <= p < m && ord[p] == k
}

/// Every child of `op` appears in `ord` strictly before position `m`.
pub open spec fn children_before(op: Op, ord: Seq<usize>, m: int) -> bool {
    forall|c: int|
        0 <= c < op_children(op).len() ==> appears_before(ord, m, #[trigger] op_children(op)[c])
}

/// Every recorded node's children are recorded strictly before it: `ord` is
/// a topological order of the nodes it holds.
pub open spec fn ord_closed(s: Seq<Node>, ord: Seq<usize>) -> bool {
    forall|m: int| 0 <= m < ord.len() ==> children_before(#[trigger] s[ord[m] as int].op, ord, m)
}

/// The record is closed under reachability: everything lying below a
/// recorded node is recorded too.
spec fn ord_reach_closed(s: Seq<Node>, ord: Seq<usize>) -> bool {
    forall|m: int, j: usize|
        #![trigger reaches(s, ord[m], j)]
        0 <= m < ord.len() && reaches(s, ord[m], j) ==> ord.contains(j)
}

/// Every visited node with index at most `i` has been recorded.
spec fn visited_below_recorded(vis: Seq<bool>, ord: Seq<usize>, i: int) -> bool {
    forall|j: int| 0 <= j < vis.len() && #[trigger] vis[j] && j <= i ==> ord.contains(j as usize)
}

/// The state invariant of the traversal: the marks cover the arena, every
/// recorded node is marked and in range, the record is a topological order,
/// and nothing is recorded twice.
spec fn dfs_inv(s: Seq<Node>, vis: Seq<bool>, ord: Seq<usize>) -> bool {
    &&& vis.len() == s.len()
    &&& forall|m: int|
        0 <= m < ord.len() ==> ((#[trigger] ord[m]) as int) < s.len() && vis[ord[m] as int]
    &&& ord_closed(s, ord)
    &&& ord_reach_closed(s, ord)
    &&& ord.no_duplicates()
}

/// What one traversal call guarantees, relating its starting state to its
/// final state `(vis2, ord2)` when started at node `i`.
spec fn dfs_post(
    s: Seq<Node>,
    vis: Seq<bool>,
    ord: Seq<usize>,
    i: usize,
    vis2: Seq<bool>,
    ord2: Seq<usize>,
) -> bool {
    &&& vis2.len() == vis.len()
    &&& forall|j: int| 0 <= j < vis.len() && #[trigger] vis[j] ==> vis2[j]
    &&& ord2.len() >= ord.len()
    &&& forall|m: int| 0 <= m < ord.len() ==> #[trigger] ord2[m] == ord[m]
    &&& vis2[i as int]
    &&& ord2.contains(i)
    &&& forall|j: int| 0 <= j < vis.len() && #[trigger] vis2[j] ==> vis[j] || j <= i
    &&& forall|j: usize|
        (j as int) < vis.len() ==> (#[trigger] ord2.contains(j) <==> ord.contains(j) || (!vis[
            j as int
        ] && vis2[j as int]))
    &&& forall|j: usize|
        #![trigger ord2.contains(j)]
        ord2.contains(j) && !ord.contains(j) ==> reaches(s, i, j)
    &&& dfs_inv(s, vis2, ord2)
    &&& visited_below_recorded(vis2, ord2, i as int)
}

/// The state in the middle of visiting node `i`: its children have been
/// traversed, `i` itself is marked but not yet recorded.
spec fn dfs_mid(
    s: Seq<Node>,
    vis: Seq<bool>,
    ord: Seq<usize>,
    i: usize,
    vis2: Seq<bool>,
    ord2: Seq<usize>,
) -> bool {
    &&& vis2.len() == vis.len()
    &&& forall|j: int| 0 <= j < vis.len() && #[trigger] vis[j] ==> vis2[j]
    &&& ord2.len() >= ord.len()
    &&& forall|m: int| 0 <= m < ord.len() ==> #[trigger] ord2[m] == ord[m]
    &&& vis2[i as int]
    &&& forall|j: int| 0 <= j < vis.len() && #[trigger] vis2[j] ==> vis[j] || j <= i
    &&& forall|j: usize|
        (j as int) < vis.len() && j != i ==> (#[trigger] ord2.contains(j) <==> ord.contains(j) || (
        !vis[j as int] && vis2[j as int]))
    &&& forall|j: usize|
        #![trigger ord2.contains(j)]
        ord2.contains(j) && !ord.contains(j) ==> reaches(s, i, j)
    &&& dfs_inv(s, vis2, ord2)
    &&& !ord2.contains(i)
    &&& visited_below_recorded(vis2, ord2, i - 1)
}

/// A sequence that extends another keeps everything the shorter one holds.
proof fn lemma_contains_prefix(ord1: Seq<usize>, ord2: Seq<usize>, k: usize)
    requires
        ord2.len() >= ord1.len(),
        forall|m: int| 0 <= m < ord1.len() ==> #[trigger] ord2[m] == ord1[m],
        ord1.contains(k),
    ensures
        ord2.contains(k),
{
    let p = choose|p: int| 0 <= p < ord1.len() && ord1[p] == k;
    assert(ord2[p] == k);
}

/// What a pushed sequence holds: everything of the old one, and the new
/// element.
proof fn lemma_push_contains(ord: Seq<usize>, x: usize, k: usize)
    ensures
        ord.push(x).contains(k) <==> ord.contains(k) || k == x,
{
    if ord.push(x).contains(k) {
        let p = choose|p: int| 0 <= p < ord.push(x).len() && ord.push(x)[p] == k;
        if p < ord.len() {
            assert(ord[p] == k);
        }
    }
    if ord.contains(k) {
        let p = choose|p: int| 0 <= p < ord.len() && ord[p] == k;
        assert(ord.push(x)[p] == k);
    }
    if k == x {
        assert(ord.push(x)[ord.len() as int] == k);
    }
}

/// A topological prefix stays topological in any extension.
proof fn lemma_children_before_prefix(op: Op, ord1: Seq<usize>, ord2: Seq<usize>, m: int)
    requires
        children_before(op, ord1, m),
        m <= ord1.len(),
        ord2.len() >= ord1.len(),
        forall|p: int| 0 <= p < ord1.len() ==> #[trigger] ord2[p] == ord1[p],
    ensures
        children_before(op, ord2, m),
{
    assert forall|c: int| 0 <= c < op_children(op).len() implies appears_before(
        ord2,
        m,
        #[trigger] op_children(op)[c],
    ) by {
        let k = op_children(op)[c];
        assert(appears_before(ord1, m, k));
        let p = choose|p: int| 0 <= p < m && ord1[p] == k;
        assert(ord2[p] == k);
    }
}

/// From the middle state of visiting `i`, with `i`'s children already
/// recorded before the end of the record, appending `i` restores every
/// guarantee of the traversal.
proof fn lemma_dfs_push_post(
    s: Seq<Node>,
    i: usize,
    vis: Seq<bool>,
    ord: Seq<usize>,
    vis2: Seq<bool>,
    ord2: Seq<usize>,
)
    requires
        graph_wf(s),
        (i as int) < s.len(),
        dfs_inv(s, vis, ord),
        !vis[i as int],
        dfs_mid(s, vis, ord, i, vis2, ord2),
        children_before(s[i as int].op, ord2.push(i), ord2.len() as int),
    ensures
        dfs_post(s, vis, ord, i, vis2, ord2.push(i)),
{
    let ofin = ord2.push(i);
    assert(ofin[ord2.len() as int] == i);
    assert(ofin.contains(i));
    assert forall|j: usize| (j as int) < vis.len() implies (#[trigger] ofin.contains(j)
        <==> ord.contains(j) || (!vis[j as int] && vis2[j as int])) by {
        lemma_push_contains(ord2, i, j);
    }
    assert forall|m: int, p: int|
        0 <= m < ofin.len() && 0 <= p < ofin.len() && m != p implies ofin[m] != ofin[p] by {
        if m < ord2.len() && p < ord2.len() {
            assert(ord2[m] != ord2[p]);
        } else if m < ord2.len() {
            assert(ord2[m] != i);
        } else if p < ord2.len() {
            assert(ord2[p] != i);
        }
    }
    assert forall|m: int|
        0 <= m < ofin.len() implies children_before(#[trigger] s[ofin[m] as int].op, ofin, m) by {
        if m < ord2.len() {
            assert(children_before(s[ord2[m] as int].op, ord2, m));
            lemma_children_before_prefix(s[ord2[m] as int].op, ord2, ofin, m);
        } else {
            assert(ofin[m] == i);
        }
    }
    assert forall|j: usize| #[trigger] ofin.contains(j) && !ord.contains(j) implies reaches(
        s,
        i,
        j,
    ) by {
        lemma_push_contains(ord2, i, j);
        if j == i {
            assert(reaches(s, i, i));
        } else {
            assert(ord2.contains(j));
        }
    }
    assert forall|m: int, j: usize|
        #![trigger reaches(s, ofin[m], j)]
        0 <= m < ofin.len() && reaches(s, ofin[m], j) implies ofin.contains(j) by {
        if m < ord2.len() {
            assert(reaches(s, ord2[m], j));
            assert(ord2.contains(j));
            lemma_contains_prefix(ord2, ofin, j);
        } else {
            assert(ofin[m] == i);
            if j == i {
                assert(ofin.contains(i));
            } else {
                assert(node_wf(s, i as int));
                let reached_kid = match s[i as int].op {
                    Op::Leaf => i,
                    Op::Sum(a, b) => if reaches(s, a, j) {
                        a
                    } else {
                        b
                    },
                    Op::Mul(a, b) => if reaches(s, a, j) {
                        a
                    } else {
                        b
                    },
                    Op::Pow(a, _e) => a,
                    Op::Relu(a) => a,
                    Op::Tanh(a) => a,
                    Op::Exp(a) => a,
                };
                assert(reaches(s, reached_kid, j));
                assert(appears_before(ord2.push(i), ord2.len() as int, reached_kid)) by {
                    assert(op_children(s[i as int].op).contains(reached_kid)) by {
                        match s[i as int].op {
                            Op::Leaf => {},
                            Op::Sum(a, b) => {
                                assert(op_children(s[i as int].op)[0] == a);
                                assert(op_children(s[i as int].op)[1] == b);
                            },
                            Op::Mul(a, b) => {
                                assert(op_children(s[i as int].op)[0] == a);
                                assert(op_children(s[i as int].op)[1] == b);
                            },
                            Op::Pow(a, _e) => {
                                assert(op_children(s[i as int].op)[0] == a);
                            },
                            Op::Relu(a) => {
                                assert(op_children(s[i as int].op)[0] == a);
                            },
                            Op::Tanh(a) => {
                                assert(op_children(s[i as int].op)[0] == a);
                            },
                            Op::Exp(a) => {
                                assert(op_children(s[i as int].op)[0] == a);
                            },
                        }
                    }
                    let c = choose|c: int|
                        0 <= c < op_children(s[i as int].op).len() && op_children(
                            s[i as int].op,
                        )[c] == reached_kid;
                    assert(appears_before(ofin, ord2.len() as int, op_children(s[i as int].op)[c]));
                }
                let p = choose|p: int| 0 <= p < ord2.len() && ofin[p] == reached_kid;
                assert(ord2[p] == reached_kid);
                assert(ord2.contains(reached_kid));
                assert(reaches(s, ord2[p], j));
                assert(ord2.contains(j));
                lemma_contains_prefix(ord2, ofin, j);
            }
        }
    }
    assert(dfs_inv(s, vis2, ofin));
    assert forall|j: int|
        0 <= j < vis2.len() && #[trigger] vis2[j] && j <= i implies ofin.contains(j as usize) by {
        if j == i {
            assert(ofin.contains(i));
        } else {
            assert(ord2.contains(j as usize));
            lemma_contains_prefix(ord2, ofin, j as usize);
        }
    }
}

/// Composes the guarantees of traversing one child into the middle state of
/// the parent `i`.
proof fn lemma_dfs_compose_one(
    s: Seq<Node>,
    vis: Seq<bool>,
    ord: Seq<usize>,
    i: usize,
    a: usize,
    vis2: Seq<bool>,
    ord2: Seq<usize>,
)
    requires
        graph_wf(s),
        (i as int) < s.len(),
        dfs_inv(s, vis, ord),
        visited_below_recorded(vis, ord, i as int),
        !vis[i as int],
        (a as int) < i,
        op_children(s[i as int].op).contains(a),
        dfs_post(s, vis.update(i as int, true), ord, a, vis2, ord2),
    ensures
        dfs_mid(s, vis, ord, i, vis2, ord2),
{
    assert forall|j: usize| #[trigger] ord2.contains(j) && !ord.contains(j) implies reaches(
        s,
        i,
        j,
    ) by {
        assert(reaches(s, a, j));
        lemma_reaches_step(s, i, a, j);
    }
    let vv = vis.update(i as int, true);
    assert(vv[i as int]);
    assert(vis2[i as int]);
    assert forall|j: int| 0 <= j < vis.len() && #[trigger] vis[j] implies vis2[j] by {
        assert(vv[j]);
    }
    assert forall|j: int| 0 <= j < vis.len() && #[trigger] vis2[j] implies vis[j] || j <= i by {
        if !vv[j] {
            assert(j <= a);
        } else if j != i {
            assert(vis[j]);
        }
    }
    assert(!ord2.contains(i)) by {
        if ord2.contains(i) {
            if ord.contains(i) {
                assert(vis[i as int]);
            } else {
                assert(!vv[i as int]);
            }
        }
    }
    assert forall|j: usize|
        (j as int) < vis.len() && j != i implies (#[trigger] ord2.contains(j) <==> ord.contains(j)
        || (!vis[j as int] && vis2[j as int])) by {
        let ji = j as int;
        if ord2.contains(j) {
            if !ord.contains(j) {
                assert(!vv[ji] && vis2[ji]);
                assert(!vis[ji]);
            }
        }
        if ord.contains(j) {
            lemma_contains_prefix(ord, ord2, j);
        }
        if !vis[ji] && vis2[ji] {
            if vv[ji] {
                assert(ji == i);
            } else {
                assert(ji <= a);
                assert(ord2.contains(j));
            }
        }
    }
    assert forall|j: int|
        0 <= j < vis2.len() && #[trigger] vis2[j] && j <= i - 1 implies ord2.contains(
        j as usize,
    ) by {
        if vis[j] {
            assert(ord.contains(j as usize));
            lemma_contains_prefix(ord, ord2, j as usize);
        } else {
            assert(ord2.contains(j as usize));
        }
    }
}

/// Composes the guarantees of traversing a second child, carrying the middle
/// state of the parent `i` through it.
proof fn lemma_dfs_compose_two(
    s: Seq<Node>,
    vis: Seq<bool>,
    ord: Seq<usize>,
    i: usize,
    b: usize,
    vis1: Seq<bool>,
    ord1: Seq<usize>,
    vis2: Seq<bool>,
    ord2: Seq<usize>,
)
    requires
        graph_wf(s),
        (i as int) < s.len(),
        dfs_inv(s, vis, ord),
        !vis[i as int],
        (b as int) < i,
        op_children(s[i as int].op).contains(b),
        dfs_mid(s, vis, ord, i, vis1, ord1),
        dfs_post(s, vis1, ord1, b, vis2, ord2),
    ensures
        dfs_mid(s, vis, ord, i, vis2, ord2),
{
    assert forall|j: usize| #[trigger] ord2.contains(j) && !ord.contains(j) implies reaches(
        s,
        i,
        j,
    ) by {
        if ord1.contains(j) {
            assert(reaches(s, i, j));
        } else {
            assert(reaches(s, b, j));
            lemma_reaches_step(s, i, b, j);
        }
    }
    assert(vis2[i as int]);
    assert forall|j: int| 0 <= j < vis.len() && #[trigger] vis2[j] implies vis[j] || j <= i by {
        if !vis1[j] {
            assert(j <= b);
        }
    }
    assert(!ord2.contains(i)) by {
        if ord2.contains(i) {
            if ord1.contains(i) {
            } else {
                assert(!vis1[i as int]);
            }
        }
    }
    assert forall|j: usize|
        (j as int) < vis.len() && j != i implies (#[trigger] ord2.contains(j) <==> ord.contains(j)
        || (!vis[j as int] && vis2[j as int])) by {
        let ji = j as int;
        if ord2.contains(j) {
            if ord1.contains(j) {
                if !ord.contains(j) {
                    assert(!vis[ji] && vis1[ji]);
                    assert(vis2[ji]);
                }
            } else {
                assert(!vis1[ji] && vis2[ji]);
                assert(!vis[ji]);
            }
        }
        if ord.contains(j) {
            lemma_contains_prefix(ord, ord1, j);
            lemma_contains_prefix(ord1, ord2, j);
        }
        if !vis[ji] && vis2[ji] {
            if vis1[ji] {
                assert(ord1.contains(j));
                lemma_contains_prefix(ord1, ord2, j);
            } else {
                assert(ji <= b);
                assert(ord2.contains(j));
            }
        }
    }
    assert forall|j: int|
        0 <= j < vis2.len() && #[trigger] vis2[j] && j <= i - 1 implies ord2.contains(
        j as usize,
    ) by {
        if vis1[j] {
            assert(ord1.contains(j as usize));
            lemma_contains_prefix(ord1, ord2, j as usize);
        } else {
            assert(j <= b);
            assert(ord2.contains(j as usize));
        }
    }
}

/// The master induction for the traversal: from a consistent state, visiting
/// any in-range node leaves a consistent state and extends the record as
/// [`dfs_post`] says; when the node was unseen it lands at the very end of
/// the record.
proof fn lemma_dfs_visit(s: Seq<Node>, i: usize, vis: Seq<bool>, ord: Seq<usize>)
    requires
        graph_wf(s),
        (i as int) < s.len(),
        dfs_inv(s, vis, ord),
        visited_below_recorded(vis, ord, i as int),
    ensures
        dfs_post(s, vis, ord, i, dfs(s, i, vis, ord).0, dfs(s, i, vis, ord).1),
        !vis[i as int] ==> dfs(s, i, vis, ord).1.len() > ord.len() && dfs(s, i, vis, ord).1[dfs(
            s,
            i,
            vis,
            ord,
        ).1.len() - 1] == i,
    decreases i, 2int,
{
    if vis[i as int] {
        assert(ord.contains(i));
    } else {
        assert(node_wf(s, i as int));
        match s[i as int].op {
            Op::Leaf => {
                lemma_dfs_mid_enter(s, i, vis, ord);
                lemma_dfs_push_post(s, i, vis, ord, vis.update(i as int, true), ord);
                assert(dfs(s, i, vis, ord) == (vis.update(i as int, true), ord.push(i)));
            },
            Op::Sum(a, b) => {
                lemma_dfs_visit_two(s, i, a, b, vis, ord);
            },
            Op::Mul(a, b) => {
                lemma_dfs_visit_two(s, i, a, b, vis, ord);
            },
            Op::Pow(a, _e) => {
                lemma_dfs_visit_one(s, i, a, vis, ord);
            },
            Op::Relu(a) => {
                lemma_dfs_visit_one(s, i, a, vis, ord);
            },
            Op::Tanh(a) => {
                lemma_dfs_visit_one(s, i, a, vis, ord);
            },
            Op::Exp(a) => {
                lemma_dfs_visit_one(s, i, a, vis, ord);
            },
        }
    }
}

/// Marking an unseen node puts the traversal in its middle state before any
/// child has been visited.
proof fn lemma_dfs_mid_enter(s: Seq<Node>, i: usize, vis: Seq<bool>, ord: Seq<usize>)
    requires
        (i as int) < s.len(),
        dfs_inv(s, vis, ord),
        visited_below_recorded(vis, ord, i as int),
        !vis[i as int],
    ensures
        dfs_mid(s, vis, ord, i, vis.update(i as int, true), ord),
{
    let v1 = vis.update(i as int, true);
    assert(!ord.contains(i)) by {
        if ord.contains(i) {
            let p = choose|p: int| 0 <= p < ord.len() && ord[p] == i;
            assert(vis[ord[p] as int]);
        }
    }
    assert(dfs_inv(s, v1, ord)) by {
        assert forall|m: int|
            0 <= m < ord.len() implies ((#[trigger] ord[m]) as int) < s.len() && v1[ord[
            m
        ] as int] by {
            assert(vis[ord[m] as int]);
        }
    }
    assert forall|j: int|
        0 <= j < v1.len() && #[trigger] v1[j] && j <= i - 1 implies ord.contains(j as usize) by {
        assert(vis[j]);
    }
}

/// The one-child case of the induction.
proof fn lemma_dfs_visit_one(s: Seq<Node>, i: usize, a: usize, vis: Seq<bool>, ord: Seq<usize>)
    requires
        graph_wf(s),
        (i as int) < s.len(),
        dfs_inv(s, vis, ord),
        visited_below_recorded(vis, ord, i as int),
        !vis[i as int],
        (a as int) < i,
        match s[i as int].op {
            Op::Pow(x, _e) => x == a,
            Op::Relu(x) => x == a,
            Op::Tanh(x) => x == a,
            Op::Exp(x) => x == a,
            _ => false,
        },
    ensures
        dfs_post(s, vis, ord, i, dfs(s, i, vis, ord).0, dfs(s, i, vis, ord).1),
        dfs(s, i, vis, ord).1.len() > ord.len(),
        dfs(s, i, vis, ord).1[dfs(s, i, vis, ord).1.len() - 1] == i,
    decreases i, 1int,
{
    let v1 = vis.update(i as int, true);
    lemma_dfs_mid_enter(s, i, vis, ord);
    assert(visited_below_recorded(v1, ord, a as int)) by {
        assert forall|j: int|
            0 <= j < v1.len() && #[trigger] v1[j] && j <= a implies ord.contains(j as usize) by {
            assert(vis[j]);
        }
    }
    lemma_dfs_visit(s, a, v1, ord);
    let r1 = dfs(s, a, v1, ord);
    assert(op_children(s[i as int].op).contains(a)) by {
        assert(op_children(s[i as int].op) =~= seq![a]);
        assert(op_children(s[i as int].op)[0] == a);
    }
    lemma_dfs_compose_one(s, vis, ord, i, a, r1.0, r1.1);
    let ofin = r1.1.push(i);
    assert(dfs(s, i, vis, ord) == (r1.0, ofin));
    assert(children_before(s[i as int].op, ofin, r1.1.len() as int)) by {
        assert(r1.1.contains(a));
        let p = choose|p: int| 0 <= p < r1.1.len() && r1.1[p] == a;
        assert(ofin[p] == a);
        assert(appears_before(ofin, r1.1.len() as int, a));
        assert(op_children(s[i as int].op) =~= seq![a]);
        assert forall|c: int| 0 <= c < op_children(s[i as int].op).len() implies appears_before(
            ofin,
            r1.1.len() as int,
            #[trigger] op_children(s[i as int].op)[c],
        ) by {
            assert(op_children(s[i as int].op)[c] == a);
        }
    }
    lemma_dfs_push_post(s, i, vis, ord, r1.0, r1.1);
    assert(ofin[ofin.len() - 1] == i);
}

/// The two-children case of the induction.
proof fn lemma_dfs_visit_two(
    s: Seq<Node>,
    i: usize,
    a: usize,
    b: usize,
    vis: Seq<bool>,
    ord: Seq<usize>,
)
    requires
        graph_wf(s),
        (i as int) < s.len(),
        dfs_inv(s, vis, ord),
        visited_below_recorded(vis, ord, i as int),
        !vis[i as int],
        (a as int) < i,
        (b as int) < i,
        match s[i as int].op {
            Op::Sum(x, y) => x == a && y == b,
            Op::Mul(x, y) => x == a && y == b,
            _ => false,
        },
    ensures
        dfs_post(s, vis, ord, i, dfs(s, i, vis, ord).0, dfs(s, i, vis, ord).1),
        dfs(s, i, vis, ord).1.len() > ord.len(),
        dfs(s, i, vis, ord).1[dfs(s, i, vis, ord).1.len() - 1] == i,
    decreases i, 1int,
{
    let v1 = vis.update(i as int, true);
    lemma_dfs_mid_enter(s, i, vis, ord);
    assert(visited_below_recorded(v1, ord, a as int)) by {
        assert forall|j: int|
            0 <= j < v1.len() && #[trigger] v1[j] && j <= a implies ord.contains(j as usize) by {
            assert(vis[j]);
        }
    }
    lemma_dfs_visit(s, a, v1, ord);
    let r1 = dfs(s, a, v1, ord);
    assert(op_children(s[i as int].op) =~= seq![a, b]);
    assert(op_children(s[i as int].op).contains(a)) by {
        assert(op_children(s[i as int].op)[0] == a);
    }
    assert(op_children(s[i as int].op).contains(b)) by {
        assert(op_children(s[i as int].op)[1] == b);
    }
    lemma_dfs_compose_one(s, vis, ord, i, a, r1.0, r1.1);
    assert(visited_below_recorded(r1.0, r1.1, b as int)) by {
        assert forall|j: int|
            0 <= j < r1.0.len() && #[trigger] r1.0[j] && j <= b implies r1.1.contains(
            j as usize,
        ) by {
            assert(j <= i - 1);
        }
    }
    lemma_dfs_visit(s, b, r1.0, r1.1);
    let r2 = dfs(s, b, r1.0, r1.1);
    lemma_dfs_compose_two(s, vis, ord, i, b, r1.0, r1.1, r2.0, r2.1);
    let ofin = r2.1.push(i);
    assert(dfs(s, i, vis, ord) == (r2.0, ofin));
    assert(children_before(s[i as int].op, ofin, r2.1.len() as int)) by {
        assert(r1.1.contains(a));
        lemma_contains_prefix(r1.1, r2.1, a);
        let pa = choose|p: int| 0 <= p < r2.1.len() && r2.1[p] == a;
        assert(ofin[pa] == a);
        assert(appears_before(ofin, r2.1.len() as int, a));
        assert(r2.1.contains(b));
        let pb = choose|p: int| 0 <= p < r2.1.len() && r2.1[p] == b;
        assert(ofin[pb] == b);
        assert(appears_before(ofin, r2.1.len() as int, b));
        assert(op_children(s[i as int].op) =~= seq![a, b]);
        assert forall|c: int| 0 <= c < op_children(s[i as int].op).len() implies appears_before(
            ofin,
            r2.1.len() as int,
            #[trigger] op_children(s[i as int].op)[c],
        ) by {
            assert(c == 0 || c == 1);
            assert(op_children(s[i as int].op)[0] == a);
            assert(op_children(s[i as int].op)[1] == b);
        }
    }
    lemma_dfs_push_post(s, i, vis, ord, r2.0, r2.1);
    assert(ofin[ofin.len() - 1] == i);
}

/// The traversal sequence of a backward pass is a topological order of the
/// sub-graph reachable from the root: no node is recorded twice, every
/// recorded node's children are recorded strictly before it, every index is
/// in range, and the root is recorded last.
pub proof fn lemma_topo_order_sound(s: Seq<Node>, root: usize)
    requires
        graph_wf(s),
        (root as int) < s.len(),
    ensures
        topo_order(s, root).no_duplicates(),
        ord_closed(s, topo_order(s, root)),
        forall|m: int|
            0 <= m < topo_order(s, root).len() ==> ((#[trigger] topo_order(s, root)[m]) as int)
                < s.len(),
        topo_order(s, root).len() > 0,
        topo_order(s, root)[topo_order(s, root).len() - 1] == root,
        topo_order(s, root).contains(root),
        forall|m: int|
            0 <= m < topo_order(s, root).len() ==> ((#[trigger] topo_order(s, root)[m]) as int)
                <= root as int,
        forall|j: usize| #[trigger] topo_order(s, root).contains(j) <==> reaches(s, root, j),
{
    let vis0 = Seq::new(s.len(), |j: int| false);
    let ord0 = Seq::<usize>::empty();
    assert(dfs_inv(s, vis0, ord0));
    lemma_dfs_visit(s, root, vis0, ord0);
    let ord = topo_order(s, root);
    let vis2 = dfs(s, root, vis0, ord0).0;
    assert forall|m: int| 0 <= m < ord.len() implies ((#[trigger] ord[m]) as int)
        <= root as int by {
        assert(vis2[ord[m] as int]);
        assert(!vis0[ord[m] as int]);
    }
    assert forall|j: usize| #[trigger] ord.contains(j) implies reaches(s, root, j) by {
        assert(!ord0.contains(j));
    }
    assert forall|j: usize| reaches(s, root, j) implies #[trigger] ord.contains(j) by {
        let m = ord.len() - 1;
        assert(ord[m as int] == root);
        assert(reaches(s, ord[m as int], j));
    }
}

/// Two traversals over arenas of the same structure take the same steps:
/// the traversal never reads a gradient.
proof fn lemma_dfs_structure(s1: Seq<Node>, s2: Seq<Node>, i: usize, vis: Seq<bool>, ord: Seq<usize>)
    requires
        graph_wf(s1),
        same_structure(s1, s2),
        (i as int) < s1.len(),
    ensures
        dfs(s1, i, vis, ord) == dfs(s2, i, vis, ord),
    decreases i,
{
    crate::backward::lemma_same_structure_wf(s1, s2);
    assert(node_wf(s1, i as int));
    assert(s2[i as int].op == s1[i as int].op);
    if !vis[i as int] {
        let v1 = vis.update(i as int, true);
        match s1[i as int].op {
            Op::Leaf => {},
            Op::Sum(a, b) => {
                lemma_dfs_structure(s1, s2, a, v1, ord);
                let r1 = dfs(s1, a, v1, ord);
                lemma_dfs_structure(s1, s2, b, r1.0, r1.1);
            },
            Op::Mul(a, b) => {
                lemma_dfs_structure(s1, s2, a, v1, ord);
                let r1 = dfs(s1, a, v1, ord);
                lemma_dfs_structure(s1, s2, b, r1.0, r1.1);
            },
            Op::Pow(a, _e) => {
                lemma_dfs_structure(s1, s2, a, v1, ord);
            },
            Op::Relu(a) => {
                lemma_dfs_structure(s1, s2, a, v1, ord);
            },
            Op::Tanh(a) => {
                lemma_dfs_structure(s1, s2, a, v1, ord);
            },
            Op::Exp(a) => {
                lemma_dfs_structure(s1, s2, a, v1, ord);
            },
        }
    }
}

/// Appearing somewhere in a sequence is the same as appearing before its
/// end.
proof fn lemma_appears_is_contains(ord: Seq<usize>, k: usize)
    ensures
        appears_before(ord, ord.len() as int, k) <==> ord.contains(k),
{
    if appears_before(ord, ord.len() as int, k) {
        let p = choose|p: int| 0 <= p < ord.len() && ord[p] == k;
        assert(ord[p] == k);
    }
    if ord.contains(k) {
        let p = choose|p: int| 0 <= p < ord.len() && ord[p] == k;
        assert(0 <= p < ord.len() && ord[p] == k);
    }
}

/// What the seeding phase leaves at each slot: a zeroed gradient for every
/// node recorded among the first `k`, and the old node everywhere else.
proof fn lemma_reset_chars(s: Seq<Node>, ord: Seq<usize>, k: int)
    requires
        s.len() <= usize::MAX,
        0 <= k <= ord.len(),
        forall|m: int| 0 <= m < ord.len() ==> ((#[trigger] ord[m]) as int) < s.len(),
    ensures
        reset_grads(s, ord, k).len() == s.len(),
        forall|j: int|
            0 <= j < s.len() ==> #[trigger] reset_grads(s, ord, k)[j] == (if appears_before(
                ord,
                k,
                j as usize,
            ) {
                with_grad(s[j], ZERO_BITS)
            } else {
                s[j]
            }),
    decreases k,
{
    if k > 0 {
        lemma_reset_chars(s, ord, k - 1);
        let t = reset_grads(s, ord, k - 1);
        let r = reset_grads(s, ord, k);
        let jj = ord[k - 1] as int;
        assert forall|j: int|
            0 <= j < s.len() implies #[trigger] r[j] == (if appears_before(ord, k, j as usize) {
            with_grad(s[j], ZERO_BITS)
        } else {
            s[j]
        }) by {
            if j == jj {
                assert(ord[k - 1] == j as usize);
                assert(appears_before(ord, k, j as usize));
            } else {
                assert(r[j] == t[j]);
                if appears_before(ord, k, j as usize) {
                    let p = choose|p: int| 0 <= p < k && ord[p] == j as usize;
                    assert(p != k - 1);
                    assert(appears_before(ord, k - 1, j as usize));
                }
                if appears_before(ord, k - 1, j as usize) {
                    let p = choose|p: int| 0 <= p < k - 1 && ord[p] == j as usize;
                    assert(0 <= p < k && ord[p] == j as usize);
                    assert(appears_before(ord, k, j as usize));
                }
            }
        }
    }
}

/// A backward step writes only into the children of the node it processes.
proof fn lemma_backstep_frame(s: Seq<Node>, i: int)
    requires
        s.len() <= usize::MAX,
        graph_wf(s),
        0 <= i < s.len(),
    ensures
        forall|j: int|
            0 <= j < s.len() && !op_children(s[i].op).contains(j as usize) ==> #[trigger] backstep(
                s,
                i,
            )[j] == s[j],
{
    assert(node_wf(s, i));
    let ch = op_children(s[i].op);
    match s[i].op {
        Op::Leaf => {},
        Op::Sum(a, b) => {
            assert(ch[0] == a && ch[1] == b);
        },
        Op::Mul(a, b) => {
            assert(ch[0] == a && ch[1] == b);
        },
        Op::Pow(a, _e) => {
            assert(ch[0] == a);
        },
        Op::Relu(a) => {
            assert(ch[0] == a);
        },
        Op::Tanh(a) => {
            assert(ch[0] == a);
        },
        Op::Exp(a) => {
            assert(ch[0] == a);
        },
    }
}

/// An arena with the same structure as a topologically closed record is
/// itself topologically closed over it.
proof fn lemma_ord_closed_structure(s1: Seq<Node>, s2: Seq<Node>, ord: Seq<usize>)
    requires
        ord_closed(s1, ord),
        same_structure(s1, s2),
        forall|m: int| 0 <= m < ord.len() ==> ((#[trigger] ord[m]) as int) < s1.len(),
    ensures
        ord_closed(s2, ord),
{
    assert forall|m: int|
        0 <= m < ord.len() implies children_before(#[trigger] s2[ord[m] as int].op, ord, m) by {
        assert(children_before(s1[ord[m] as int].op, ord, m));
        assert(s2[ord[m] as int].op == s1[ord[m] as int].op);
    }
}

/// The propagation phase keeps the structure and writes only into nodes the
/// traversal recorded.
proof fn lemma_propagate_frame(s: Seq<Node>, ord: Seq<usize>, k: int)
    requires
        s.len() <= usize::MAX,
        graph_wf(s),
        0 <= k <= ord.len(),
        forall|m: int| 0 <= m < ord.len() ==> ((#[trigger] ord[m]) as int) < s.len(),
        ord_closed(s, ord),
    ensures
        same_structure(s, propagate(s, ord, k)),
        forall|j: int|
            0 <= j < s.len() && !ord.contains(j as usize) ==> #[trigger] propagate(s, ord, k)[j]
                == s[j],
    decreases k,
{
    if k > 0 {
        lemma_propagate_frame(s, ord, k - 1);
        let t = propagate(s, ord, k - 1);
        let m = ord.len() - k;
        let i = ord[m] as int;
        crate::backward::lemma_same_structure_wf(s, t);
        crate::backward::lemma_backstep_structure(t, i);
        let r = backstep(t, i);
        assert forall|j: int| 0 <= j < s.len() implies (#[trigger] r[j]).val == s[j].val && r[j].op
            == s[j].op by {
            assert(t[j].val == s[j].val && t[j].op == s[j].op);
        }
        assert(same_structure(s, r));
        lemma_backstep_frame(t, i);
        assert(t[i].op == s[i].op);
        assert(children_before(s[ord[m] as int].op, ord, m));
        assert forall|j: int|
            0 <= j < s.len() && !ord.contains(j as usize) implies #[trigger] r[j] == s[j] by {
            if op_children(t[i].op).contains(j as usize) {
                let c = choose|c: int|
                    0 <= c < op_children(t[i].op).len() && op_children(t[i].op)[c] == j as usize;
                assert(appears_before(ord, m, op_children(s[i].op)[c]));
                let p = choose|p: int| 0 <= p < m && ord[p] == j as usize;
                assert(ord[p] == j as usize);
                assert(ord.contains(j as usize));
            } else {
                assert(r[j] == t[j]);
            }
        }
    }
}

/// A backward pass only rewrites gradients, and only those of nodes its
/// traversal reaches; every other node comes out exactly as it went in.
pub proof fn lemma_backward_frame(s: Seq<Node>, root: usize)
    requires
        s.len() <= usize::MAX,
        graph_wf(s),
        (root as int) < s.len(),
    ensures
        backward_spec(s, root).len() == s.len(),
        same_structure(s, backward_spec(s, root)),
        forall|j: int|
            0 <= j < s.len() && !topo_order(s, root).contains(j as usize) ==> #[trigger]
            backward_spec(s, root)[j] == s[j],
        forall|j: int|
            0 <= j < s.len() && !reaches(s, root, j as usize) ==> #[trigger] backward_spec(
                s,
                root,
            )[j] == s[j],
{
    let ord = topo_order(s, root);
    lemma_topo_order_sound(s, root);
    lemma_reset_chars(s, ord, ord.len() as int);
    let t = reset_grads(s, ord, ord.len() as int);
    let seeded = t.update(root as int, with_grad(t[root as int], ONE_BITS));
    assert forall|j: int| 0 <= j < s.len() implies (#[trigger] seeded[j]).val == s[j].val
        && seeded[j].op == s[j].op by {}
    assert(same_structure(s, seeded));
    crate::backward::lemma_same_structure_wf(s, seeded);
    lemma_ord_closed_structure(s, seeded, ord);
    lemma_propagate_frame(seeded, ord, ord.len() as int);
    let fin = propagate(seeded, ord, ord.len() as int);
    assert(backward_spec(s, root) == fin);
    assert forall|j: int| 0 <= j < s.len() implies (#[trigger] fin[j]).val == s[j].val && fin[j].op
        == s[j].op by {
        assert(fin[j].val == seeded[j].val && fin[j].op == seeded[j].op);
    }
    assert(same_structure(s, fin));
    assert forall|j: int|
        0 <= j < s.len() && !ord.contains(j as usize) implies #[trigger] fin[j] == s[j] by {
        assert(fin[j] == seeded[j]);
        lemma_appears_is_contains(ord, j as usize);
        assert(t[j] == s[j]);
        assert(j != root);
    }
}

/// Running a backward pass twice in a row from the same root, with the same
/// values in place, yields exactly the gradients of the single pass: the
/// re-seeding wipes every accumulator the pass touches, so nothing carries
/// over between invocations.
pub proof fn lemma_backward_idempotent(s: Seq<Node>, root: usize)
    requires
        s.len() <= usize::MAX,
        graph_wf(s),
        (root as int) < s.len(),
    ensures
        backward_spec(backward_spec(s, root), root) == backward_spec(s, root),
{
    let s2 = backward_spec(s, root);
    let ord = topo_order(s, root);
    lemma_topo_order_sound(s, root);
    lemma_backward_frame(s, root);
    crate::backward::lemma_same_structure_wf(s, s2);
    assert(Seq::new(s.len(), |j: int| false) =~= Seq::new(s2.len(), |j: int| false));
    lemma_dfs_structure(s, s2, root, Seq::new(s.len(), |j: int| false), Seq::<usize>::empty());
    assert(topo_order(s2, root) == ord);
    lemma_reset_chars(s, ord, ord.len() as int);
    lemma_reset_chars(s2, ord, ord.len() as int);
    let t1 = reset_grads(s, ord, ord.len() as int);
    let t2 = reset_grads(s2, ord, ord.len() as int);
    let seeded1 = t1.update(root as int, with_grad(t1[root as int], ONE_BITS));
    let seeded2 = t2.update(root as int, with_grad(t2[root as int], ONE_BITS));
    assert(ord.contains(root));
    lemma_appears_is_contains(ord, root);
    assert forall|j: int| 0 <= j < s.len() implies #[trigger] seeded1[j] == seeded2[j] by {
        lemma_appears_is_contains(ord, j as usize);
        if j == root {
            assert(t1[j] == with_grad(s[j], ZERO_BITS));
            assert(t2[j] == with_grad(s2[j], ZERO_BITS));
            assert(s2[j].val == s[j].val && s2[j].op == s[j].op);
        } else if ord.contains(j as usize) {
            assert(t1[j] == with_grad(s[j], ZERO_BITS));
            assert(t2[j] == with_grad(s2[j], ZERO_BITS));
            assert(s2[j].val == s[j].val && s2[j].op == s[j].op);
        } else {
            assert(t1[j] == s[j]);
            assert(t2[j] == s2[j]);
            assert(s2[j] == s[j]);
        }
    }
    assert(seeded1 =~= seeded2);
    assert(backward_spec(s2, root) == propagate(seeded2, ord, ord.len() as int));
    assert(backward_spec(s, root) == propagate(seeded1, ord, ord.len() as int));
}

/// The rectified-linear subgradient rule: a strictly positive input passes
/// any upstream gradient through unchanged (factor one), every other input
/// receives nothing at all.
pub proof fn lemma_relu_subgradient(s: Seq<Node>, i: int, a: usize)
    requires
        0 <= i < s.len(),
        s[i].op == Op::Relu(a),
        (a as int) < s.len(),
    ensures
        fgt_zero(s[a as int].val) ==> backstep(s, i) == bump(s, a as int, s[i].grad),
        !fgt_zero(s[a as int].val) ==> backstep(s, i) == s,
{
}

/// Diamond sharing is handled by accumulation: a node standing as both
/// children of one sum receives the upstream gradient twice, added in
/// sequence, never overwritten.
pub proof fn lemma_shared_child_accumulates(s: Seq<Node>, i: int, a: usize)
    requires
        0 <= i < s.len(),
        s[i].op == Op::Sum(a, a),
        (a as int) < s.len(),
    ensures
        backstep(s, i)[a as int].grad == fadd(fadd(s[a as int].grad, s[i].grad), s[i].grad),
{
    let s1 = bump(s, a as int, s[i].grad);
    assert(s1[a as int].grad == fadd(s[a as int].grad, s[i].grad));
    assert(backstep(s, i) == bump(s1, a as int, s[i].grad));
}

/// Every child recorded on an operator lies strictly below its owner.
proof fn lemma_op_children_bound(s: Seq<Node>, i: int)
    requires
        graph_wf(s),
        0 <= i < s.len(),
    ensures
        forall|c: int|
            0 <= c < op_children(s[i].op).len() ==> ((#[trigger] op_children(s[i].op)[c]) as int)
                < i,
{
    assert(node_wf(s, i));
    let ch = op_children(s[i].op);
    match s[i].op {
        Op::Leaf => {},
        Op::Sum(a, b) => {
            assert(ch[0] == a && ch[1] == b);
        },
        Op::Mul(a, b) => {
            assert(ch[0] == a && ch[1] == b);
        },
        Op::Pow(a, _e) => {
            assert(ch[0] == a);
        },
        Op::Relu(a) => {
            assert(ch[0] == a);
        },
        Op::Tanh(a) => {
            assert(ch[0] == a);
        },
        Op::Exp(a) => {
            assert(ch[0] == a);
        },
    }
}

/// Propagation never writes into a node that no recorded node points below:
/// in particular it never touches the root, whose children all lie below it.
proof fn lemma_propagate_keeps_high(s: Seq<Node>, ord: Seq<usize>, k: int, root: usize)
    requires
        s.len() <= usize::MAX,
        graph_wf(s),
        0 <= k <= ord.len(),
        (root as int) < s.len(),
        forall|m: int| 0 <= m < ord.len() ==> ((#[trigger] ord[m]) as int) < s.len(),
        forall|m: int| 0 <= m < ord.len() ==> ((#[trigger] ord[m]) as int) <= root as int,
    ensures
        propagate(s, ord, k)[root as int] == s[root as int],
    decreases k,
{
    if k > 0 {
        lemma_propagate_keeps_high(s, ord, k - 1, root);
        let t = propagate(s, ord, k - 1);
        let i = ord[ord.len() - k] as int;
        lemma_propagate_frame_structure(s, ord, k - 1);
        crate::backward::lemma_same_structure_wf(s, t);
        lemma_backstep_frame(t, i);
        lemma_op_children_bound(t, i);
        assert(!op_children(t[i].op).contains(root)) by {
            if op_children(t[i].op).contains(root) {
                let c = choose|c: int|
                    0 <= c < op_children(t[i].op).len() && op_children(t[i].op)[c] == root;
                assert((op_children(t[i].op)[c] as int) < i);
            }
        }
        assert(backstep(t, i)[root as int] == t[root as int]);
    }
}

/// Propagation keeps the structure (a restatement of part of
/// [`lemma_propagate_frame`] under weaker hypotheses on the record).
proof fn lemma_propagate_frame_structure(s: Seq<Node>, ord: Seq<usize>, k: int)
    requires
        graph_wf(s),
        0 <= k <= ord.len(),
        forall|m: int| 0 <= m < ord.len() ==> ((#[trigger] ord[m]) as int) < s.len(),
    ensures
        same_structure(s, propagate(s, ord, k)),
    decreases k,
{
    if k > 0 {
        lemma_propagate_frame_structure(s, ord, k - 1);
        let t = propagate(s, ord, k - 1);
        let i = ord[ord.len() - k] as int;
        crate::backward::lemma_same_structure_wf(s, t);
        crate::backward::lemma_backstep_structure(t, i);
        let r = backstep(t, i);
        assert forall|j: int| 0 <= j < s.len() implies (#[trigger] r[j]).val == s[j].val && r[j].op
            == s[j].op by {
            assert(t[j].val == s[j].val && t[j].op == s[j].op);
        }
    }
}

/// The chain-rule base case survives the whole pass: after a backward pass
/// the root's own gradient is exactly one, the derivative of the root with
/// respect to itself. Nothing reachable from the root can point back at it,
/// so no propagation step ever adds to it.
pub proof fn lemma_backward_seeds_root(s: Seq<Node>, root: usize)
    requires
        s.len() <= usize::MAX,
        graph_wf(s),
        (root as int) < s.len(),
    ensures
        backward_spec(s, root)[root as int].grad == ONE_BITS,
{
    let ord = topo_order(s, root);
    lemma_topo_order_sound(s, root);
    lemma_reset_chars(s, ord, ord.len() as int);
    let t = reset_grads(s, ord, ord.len() as int);
    let seeded = t.update(root as int, with_grad(t[root as int], ONE_BITS));
    assert(seeded[root as int].grad == ONE_BITS);
    assert forall|j: int| 0 <= j < s.len() implies (#[trigger] seeded[j]).val == s[j].val
        && seeded[j].op == s[j].op by {}
    assert(same_structure(s, seeded));
    crate::backward::lemma_same_structure_wf(s, seeded);
    lemma_propagate_keeps_high(seeded, ord, ord.len() as int, root);
}

} // verus!
