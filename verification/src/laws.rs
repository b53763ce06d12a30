//! The engine's stated laws.
//!
//! Each proof function states a fact about `backward_spec` or `zeroed` — the
//! exact values the engine's contracts pin down — and proves it from the rule
//! table, the traversal specification and the stated scalar identities.

use vstd::prelude::*;

use crate::engine::acc_grad;
use crate::engine::backward_spec;
use crate::engine::rule_applied;
use crate::engine::run_back;
use crate::engine::seeded;
use crate::engine::zeroed;
use crate::graph::Operator;
use crate::graph::ValueModel;
use crate::graph::graph_wf;
use crate::graph::node_wf;
use crate::order::DfsState;
use crate::order::dfs_run;
use crate::order::dfs_step;
use crate::order::frames_of;
use crate::order::init_state;
use crate::order::reaches;
use crate::order::reaches_upto;
use crate::order::state_wf;
use crate::order::topo_spec;
use crate::scalar::NEG_ZERO_BITS;
use crate::scalar::ONE_BITS;
use crate::scalar::POS_ZERO_BITS;
use crate::scalar::f_add;
use crate::scalar::f_is_nan;
use crate::scalar::f_mul;
use crate::scalar::f_neg;
use crate::scalar::lemma_bits_facts;

verus! {

/// Two node sequences with the same lengths and operand lists.
pub open spec fn same_edges(a: Seq<ValueModel>, b: Seq<ValueModel>) -> bool {
    &&& a.len() == b.len()
    &&& forall|i: int| 0 <= i < a.len() ==> (#[trigger] b[i]).prev == a[i].prev
}

/// Reachability reads the operand lists alone, for the bounded part of the
/// search.
proof fn lemma_same_edges_upto(a: Seq<ValueModel>, b: Seq<ValueModel>, i: int, j: int, p: int)
    requires
        same_edges(a, b),
        0 <= i < a.len(),
    ensures
        reaches_upto(a, i, j, p) == reaches_upto(b, i, j, p),
    decreases i, p,
{
    if p > 0 {
        lemma_same_edges_upto(a, b, i, j, p - 1);
        if 0 <= a[i].prev[p - 1] < i {
            lemma_same_edges_reaches(a, b, a[i].prev[p - 1] as int, j);
        }
    }
}

/// Reachability reads the operand lists alone.
proof fn lemma_same_edges_reaches(a: Seq<ValueModel>, b: Seq<ValueModel>, i: int, j: int)
    requires
        same_edges(a, b),
        0 <= i < a.len(),
    ensures
        reaches(a, i, j) == reaches(b, i, j),
    decreases i, a[i].prev.len() as int + 1,
{
    lemma_same_edges_upto(a, b, i, j, a[i].prev.len() as int);
}

/// Resetting gradients is idempotent: clearing the subgraph reachable from
/// `root` twice leaves exactly what clearing it once leaves.
pub proof fn lemma_zero_grad_idempotent(nodes: Seq<ValueModel>, root: usize)
    requires
        graph_wf(nodes),
        (root as int) < nodes.len(),
    ensures
        zeroed(zeroed(nodes, root), root) == zeroed(nodes, root),
{
    let z = zeroed(nodes, root);
    assert(same_edges(nodes, z));
    assert forall|i: int| 0 <= i < z.len() implies zeroed(z, root)[i] == z[i] by {
        lemma_same_edges_reaches(nodes, z, root as int, i);
        if reaches(nodes, root as int, i) {
            assert(zeroed(z, root)[i] =~= z[i]);
        }
    }
    assert(zeroed(z, root) =~~= z);
}

/// The post-order of a root with two distinct leaf operands: first operand,
/// second operand, root.
proof fn lemma_topo_two_leaves(nodes: Seq<ValueModel>, r: usize, a: usize, b: usize)
    requires
        graph_wf(nodes),
        (r as int) < nodes.len(),
        nodes[r as int].prev == seq![a, b],
        a != b,
        nodes[a as int].op == Operator::Leaf,
        nodes[b as int].op == Operator::Leaf,
    ensures
        topo_spec(nodes, r) == seq![a, b, r],
{
    assert(node_wf(nodes, r as int));
    assert(nodes[r as int].prev[0] == a);
    assert(nodes[r as int].prev[1] == b);
    assert(a < r && b < r);
    assert(node_wf(nodes, a as int));
    assert(node_wf(nodes, b as int));
    assert(nodes[a as int].prev.len() == 0);
    assert(nodes[b as int].prev.len() == 0);

    let s0 = init_state(r);
    let s1 = DfsState {
        stack: seq![(r, true), (b, false), (a, false)],
        visited: set![r as int],
        order: seq![],
    };
    let s2 = DfsState {
        stack: seq![(r, true), (b, false), (a, true)],
        visited: set![r as int, a as int],
        order: seq![],
    };
    let s3 = DfsState {
        stack: seq![(r, true), (b, false)],
        visited: set![r as int, a as int],
        order: seq![a],
    };
    let s4 = DfsState {
        stack: seq![(r, true), (b, true)],
        visited: set![r as int, a as int, b as int],
        order: seq![a],
    };
    let s5 = DfsState {
        stack: seq![(r, true)],
        visited: set![r as int, a as int, b as int],
        order: seq![a, b],
    };
    let s6 = DfsState {
        stack: seq![],
        visited: set![r as int, a as int, b as int],
        order: seq![a, b, r],
    };

    assert(frames_of(nodes[r as int].prev) =~= seq![(b, false), (a, false)]);
    assert(frames_of(nodes[a as int].prev) =~= Seq::<(usize, bool)>::empty());
    assert(frames_of(nodes[b as int].prev) =~= Seq::<(usize, bool)>::empty());

    assert(dfs_step(nodes, s0) =~~= s1);
    assert(dfs_step(nodes, s1) =~~= s2);
    assert(dfs_step(nodes, s2) =~~= s3);
    assert(dfs_step(nodes, s3) =~~= s4);
    assert(dfs_step(nodes, s4) =~~= s5);
    assert(dfs_step(nodes, s5) =~~= s6);

    assert(state_wf(nodes, s0));
    assert(state_wf(nodes, s1));
    assert(state_wf(nodes, s2));
    assert(state_wf(nodes, s3));
    assert(state_wf(nodes, s4));
    assert(state_wf(nodes, s5));

    assert(dfs_run(nodes, s0) == dfs_run(nodes, s1));
    assert(dfs_run(nodes, s1) == dfs_run(nodes, s2));
    assert(dfs_run(nodes, s2) == dfs_run(nodes, s3));
    assert(dfs_run(nodes, s3) == dfs_run(nodes, s4));
    assert(dfs_run(nodes, s4) == dfs_run(nodes, s5));
    assert(dfs_run(nodes, s5) == dfs_run(nodes, s6));
    assert(dfs_run(nodes, s6) == s6);
}

/// The post-order of a root whose two operands are one and the same leaf:
/// the leaf once, then the root.
proof fn lemma_topo_shared_leaf(nodes: Seq<ValueModel>, r: usize, a: usize)
    requires
        graph_wf(nodes),
        (r as int) < nodes.len(),
        nodes[r as int].prev == seq![a, a],
        nodes[a as int].op == Operator::Leaf,
    ensures
        topo_spec(nodes, r) == seq![a, r],
{
    assert(node_wf(nodes, r as int));
    assert(nodes[r as int].prev[0] == a);
    assert(a < r);
    assert(node_wf(nodes, a as int));
    assert(nodes[a as int].prev.len() == 0);

    let s0 = init_state(r);
    let s1 = DfsState {
        stack: seq![(r, true), (a, false), (a, false)],
        visited: set![r as int],
        order: seq![],
    };
    let s2 = DfsState {
        stack: seq![(r, true), (a, false), (a, true)],
        visited: set![r as int, a as int],
        order: seq![],
    };
    let s3 = DfsState {
        stack: seq![(r, true), (a, false)],
        visited: set![r as int, a as int],
        order: seq![a],
    };
    let s4 = DfsState {
        stack: seq![(r, true)],
        visited: set![r as int, a as int],
        order: seq![a],
    };
    let s5 = DfsState {
        stack: seq![],
        visited: set![r as int, a as int],
        order: seq![a, r],
    };

    assert(frames_of(nodes[r as int].prev) =~= seq![(a, false), (a, false)]);
    assert(frames_of(nodes[a as int].prev) =~= Seq::<(usize, bool)>::empty());

    assert(dfs_step(nodes, s0) =~~= s1);
    assert(dfs_step(nodes, s1) =~~= s2);
    assert(dfs_step(nodes, s2) =~~= s3);
    assert(dfs_step(nodes, s3) =~~= s4);
    assert(dfs_step(nodes, s4) =~~= s5);

    assert(state_wf(nodes, s0));
    assert(state_wf(nodes, s1));
    assert(state_wf(nodes, s2));
    assert(state_wf(nodes, s3));
    assert(state_wf(nodes, s4));

    assert(dfs_run(nodes, s0) == dfs_run(nodes, s1));
    assert(dfs_run(nodes, s1) == dfs_run(nodes, s2));
    assert(dfs_run(nodes, s2) == dfs_run(nodes, s3));
    assert(dfs_run(nodes, s3) == dfs_run(nodes, s4));
    assert(dfs_run(nodes, s4) == dfs_run(nodes, s5));
    assert(dfs_run(nodes, s5) == s5);
}

/// `backward` on a sum of two distinct leaves accumulates exactly 1.0 onto
/// each leaf's gradient, whatever the gradients held before: the local
/// derivative of a sum with respect to either operand is one.
pub proof fn lemma_grad_of_sum_acc(nodes: Seq<ValueModel>, r: usize, a: usize, b: usize)
    requires
        graph_wf(nodes),
        (r as int) < nodes.len(),
        nodes[r as int].op == Operator::Add,
        nodes[r as int].prev == seq![a, b],
        a != b,
        nodes[a as int].op == Operator::Leaf,
        nodes[b as int].op == Operator::Leaf,
    ensures
        backward_spec(nodes, r)[a as int].grad == f_add(nodes[a as int].grad, ONE_BITS),
        backward_spec(nodes, r)[b as int].grad == f_add(nodes[b as int].grad, ONE_BITS),
{
    lemma_topo_two_leaves(nodes, r, a, b);
    assert(node_wf(nodes, r as int));
    assert(a < r && b < r);
    let rev = topo_spec(nodes, r).reverse();
    assert(rev =~= seq![r, b, a]);
    let t0 = seeded(nodes, r as int);
    assert(t0[a as int] == nodes[a as int]);
    assert(t0[b as int] == nodes[b as int]);
    assert(t0[r as int].grad == ONE_BITS);
    assert(t0[r as int].op == Operator::Add);
    assert(t0[r as int].prev == seq![a, b]);
    let u1 = acc_grad(t0, a as int, ONE_BITS);
    assert(u1[a as int].grad == f_add(nodes[a as int].grad, ONE_BITS));
    let t1 = rule_applied(t0, r as int);
    assert(t1 == acc_grad(u1, b as int, ONE_BITS));
    assert(u1[b as int].grad == nodes[b as int].grad);
    assert(t1[b as int].grad == f_add(nodes[b as int].grad, ONE_BITS));
    assert(t1[a as int].grad == f_add(nodes[a as int].grad, ONE_BITS));
    assert(t1[b as int].op == Operator::Leaf);
    assert(t1[a as int].op == Operator::Leaf);
    let t2 = rule_applied(t1, b as int);
    assert(t2 == t1);
    let t3 = rule_applied(t2, a as int);
    assert(t3 == t2);
    assert(run_back(t0, rev, 0) == run_back(t1, rev, 1));
    assert(run_back(t1, rev, 1) == run_back(t2, rev, 2));
    assert(run_back(t2, rev, 2) == run_back(t3, rev, 3));
    assert(run_back(t3, rev, 3) == t3);
    assert(backward_spec(nodes, r) == run_back(t0, rev, 0));
}

/// The gradient of a sum with respect to either operand is one: after
/// `backward` on a sum of two distinct leaves with clear gradients, each leaf's
/// gradient is exactly 1.0.
pub proof fn lemma_grad_of_sum(nodes: Seq<ValueModel>, r: usize, a: usize, b: usize)
    requires
        graph_wf(nodes),
        (r as int) < nodes.len(),
        nodes[r as int].op == Operator::Add,
        nodes[r as int].prev == seq![a, b],
        a != b,
        nodes[a as int].op == Operator::Leaf,
        nodes[b as int].op == Operator::Leaf,
        nodes[a as int].grad == POS_ZERO_BITS,
        nodes[b as int].grad == POS_ZERO_BITS,
    ensures
        backward_spec(nodes, r)[a as int].grad == ONE_BITS,
        backward_spec(nodes, r)[b as int].grad == ONE_BITS,
{
    lemma_bits_facts();
    lemma_grad_of_sum_acc(nodes, r, a, b);
    assert(f_add(POS_ZERO_BITS, ONE_BITS) == ONE_BITS);
}

/// `backward` on a difference of two distinct leaves accumulates 1.0 onto the
/// minuend's gradient and the negation of 1.0 onto the subtrahend's, whatever
/// the gradients held before: the subtrahend's contribution is negated, never
/// added as the minuend's is.
pub proof fn lemma_grad_of_difference_acc(nodes: Seq<ValueModel>, r: usize, a: usize, b: usize)
    requires
        graph_wf(nodes),
        (r as int) < nodes.len(),
        nodes[r as int].op == Operator::Sub,
        nodes[r as int].prev == seq![a, b],
        a != b,
        nodes[a as int].op == Operator::Leaf,
        nodes[b as int].op == Operator::Leaf,
    ensures
        backward_spec(nodes, r)[a as int].grad == f_add(nodes[a as int].grad, ONE_BITS),
        backward_spec(nodes, r)[b as int].grad == f_add(nodes[b as int].grad, f_neg(ONE_BITS)),
{
    lemma_topo_two_leaves(nodes, r, a, b);
    assert(node_wf(nodes, r as int));
    assert(a < r && b < r);
    let rev = topo_spec(nodes, r).reverse();
    assert(rev =~= seq![r, b, a]);
    let t0 = seeded(nodes, r as int);
    assert(t0[a as int] == nodes[a as int]);
    assert(t0[b as int] == nodes[b as int]);
    assert(t0[r as int].grad == ONE_BITS);
    assert(t0[r as int].op == Operator::Sub);
    assert(t0[r as int].prev == seq![a, b]);
    let u1 = acc_grad(t0, a as int, ONE_BITS);
    assert(u1[a as int].grad == f_add(nodes[a as int].grad, ONE_BITS));
    let t1 = rule_applied(t0, r as int);
    assert(t1 == acc_grad(u1, b as int, f_neg(ONE_BITS)));
    assert(u1[b as int].grad == nodes[b as int].grad);
    assert(t1[b as int].grad == f_add(nodes[b as int].grad, f_neg(ONE_BITS)));
    assert(t1[a as int].grad == f_add(nodes[a as int].grad, ONE_BITS));
    assert(t1[b as int].op == Operator::Leaf);
    assert(t1[a as int].op == Operator::Leaf);
    let t2 = rule_applied(t1, b as int);
    assert(t2 == t1);
    let t3 = rule_applied(t2, a as int);
    assert(t3 == t2);
    assert(run_back(t0, rev, 0) == run_back(t1, rev, 1));
    assert(run_back(t1, rev, 1) == run_back(t2, rev, 2));
    assert(run_back(t2, rev, 2) == run_back(t3, rev, 3));
    assert(run_back(t3, rev, 3) == t3);
    assert(backward_spec(nodes, r) == run_back(t0, rev, 0));
}

/// The gradient of a difference is one with respect to the minuend and minus
/// one with respect to the subtrahend: after `backward` on a difference of two
/// distinct leaves with clear gradients, the minuend's gradient is exactly 1.0
/// and the subtrahend's exactly -1.0.
pub proof fn lemma_grad_of_difference(nodes: Seq<ValueModel>, r: usize, a: usize, b: usize)
    requires
        graph_wf(nodes),
        (r as int) < nodes.len(),
        nodes[r as int].op == Operator::Sub,
        nodes[r as int].prev == seq![a, b],
        a != b,
        nodes[a as int].op == Operator::Leaf,
        nodes[b as int].op == Operator::Leaf,
        nodes[a as int].grad == POS_ZERO_BITS,
        nodes[b as int].grad == POS_ZERO_BITS,
    ensures
        backward_spec(nodes, r)[a as int].grad == ONE_BITS,
        backward_spec(nodes, r)[b as int].grad == f_neg(ONE_BITS),
{
    lemma_bits_facts();
    lemma_grad_of_difference_acc(nodes, r, a, b);
    assert(f_add(POS_ZERO_BITS, ONE_BITS) == ONE_BITS);
    assert(f_add(POS_ZERO_BITS, f_neg(ONE_BITS)) == f_neg(ONE_BITS));
}

/// `backward` on a product of two distinct leaves accumulates the other
/// operand's data, taken times the seed 1.0, onto each leaf's gradient,
/// whatever the gradients held before.
pub proof fn lemma_grad_of_product_acc(nodes: Seq<ValueModel>, r: usize, a: usize, b: usize)
    requires
        graph_wf(nodes),
        (r as int) < nodes.len(),
        nodes[r as int].op == Operator::Mul,
        nodes[r as int].prev == seq![a, b],
        a != b,
        nodes[a as int].op == Operator::Leaf,
        nodes[b as int].op == Operator::Leaf,
    ensures
        backward_spec(nodes, r)[a as int].grad == f_add(
            nodes[a as int].grad,
            f_mul(nodes[b as int].data, ONE_BITS),
        ),
        backward_spec(nodes, r)[b as int].grad == f_add(
            nodes[b as int].grad,
            f_mul(nodes[a as int].data, ONE_BITS),
        ),
{
    lemma_topo_two_leaves(nodes, r, a, b);
    assert(node_wf(nodes, r as int));
    assert(a < r && b < r);
    let ad = nodes[a as int].data;
    let bd = nodes[b as int].data;
    let rev = topo_spec(nodes, r).reverse();
    assert(rev =~= seq![r, b, a]);
    let t0 = seeded(nodes, r as int);
    assert(t0[a as int] == nodes[a as int]);
    assert(t0[b as int] == nodes[b as int]);
    assert(t0[r as int].grad == ONE_BITS);
    assert(t0[r as int].op == Operator::Mul);
    assert(t0[r as int].prev == seq![a, b]);
    let u1 = acc_grad(t0, a as int, f_mul(bd, ONE_BITS));
    assert(u1[a as int].grad == f_add(nodes[a as int].grad, f_mul(bd, ONE_BITS)));
    let t1 = rule_applied(t0, r as int);
    assert(t1 == acc_grad(u1, b as int, f_mul(ad, ONE_BITS)));
    assert(u1[b as int].grad == nodes[b as int].grad);
    assert(t1[b as int].grad == f_add(nodes[b as int].grad, f_mul(ad, ONE_BITS)));
    assert(t1[a as int].grad == f_add(nodes[a as int].grad, f_mul(bd, ONE_BITS)));
    assert(t1[b as int].op == Operator::Leaf);
    assert(t1[a as int].op == Operator::Leaf);
    let t2 = rule_applied(t1, b as int);
    assert(t2 == t1);
    let t3 = rule_applied(t2, a as int);
    assert(t3 == t2);
    assert(run_back(t0, rev, 0) == run_back(t1, rev, 1));
    assert(run_back(t1, rev, 1) == run_back(t2, rev, 2));
    assert(run_back(t2, rev, 2) == run_back(t3, rev, 3));
    assert(run_back(t3, rev, 3) == t3);
    assert(backward_spec(nodes, r) == run_back(t0, rev, 0));
}

/// The gradient of a product with respect to either operand is the other
/// operand's value: after `backward` on a product of two distinct leaves with
/// clear gradients, each leaf's gradient is exactly the other leaf's data.
/// NaN data carries no gradient identity, and a -0.0 operand comes back as
/// +0.0, so both are left out.
pub proof fn lemma_grad_of_product(nodes: Seq<ValueModel>, r: usize, a: usize, b: usize)
    requires
        graph_wf(nodes),
        (r as int) < nodes.len(),
        nodes[r as int].op == Operator::Mul,
        nodes[r as int].prev == seq![a, b],
        a != b,
        nodes[a as int].op == Operator::Leaf,
        nodes[b as int].op == Operator::Leaf,
        nodes[a as int].grad == POS_ZERO_BITS,
        nodes[b as int].grad == POS_ZERO_BITS,
        !f_is_nan(nodes[a as int].data),
        !f_is_nan(nodes[b as int].data),
        nodes[a as int].data != NEG_ZERO_BITS,
        nodes[b as int].data != NEG_ZERO_BITS,
    ensures
        backward_spec(nodes, r)[a as int].grad == nodes[b as int].data,
        backward_spec(nodes, r)[b as int].grad == nodes[a as int].data,
{
    lemma_bits_facts();
    lemma_grad_of_product_acc(nodes, r, a, b);
    assert(f_mul(nodes[b as int].data, ONE_BITS) == nodes[b as int].data);
    assert(f_mul(nodes[a as int].data, ONE_BITS) == nodes[a as int].data);
    assert(f_add(POS_ZERO_BITS, nodes[b as int].data) == nodes[b as int].data);
    assert(f_add(POS_ZERO_BITS, nodes[a as int].data) == nodes[a as int].data);
}

/// Repeated `backward` without a reset accumulates: on a product of two
/// distinct leaves with clear gradients, seeding and replaying a second time
/// leaves each leaf's gradient equal to the sum of the two individual-call
/// results — the first call's gradient added to itself.
pub proof fn lemma_repeated_backward_accumulates(
    nodes: Seq<ValueModel>,
    r: usize,
    a: usize,
    b: usize,
)
    requires
        graph_wf(nodes),
        (r as int) < nodes.len(),
        nodes[r as int].op == Operator::Mul,
        nodes[r as int].prev == seq![a, b],
        a != b,
        nodes[a as int].op == Operator::Leaf,
        nodes[b as int].op == Operator::Leaf,
        nodes[a as int].grad == POS_ZERO_BITS,
        nodes[b as int].grad == POS_ZERO_BITS,
        !f_is_nan(nodes[a as int].data),
        !f_is_nan(nodes[b as int].data),
        nodes[a as int].data != NEG_ZERO_BITS,
        nodes[b as int].data != NEG_ZERO_BITS,
    ensures
        backward_spec(backward_spec(nodes, r), r)[a as int].grad == f_add(
            backward_spec(nodes, r)[a as int].grad,
            backward_spec(nodes, r)[a as int].grad,
        ),
        backward_spec(backward_spec(nodes, r), r)[b as int].grad == f_add(
            backward_spec(nodes, r)[b as int].grad,
            backward_spec(nodes, r)[b as int].grad,
        ),
{
    lemma_bits_facts();
    lemma_grad_of_product(nodes, r, a, b);
    assert(node_wf(nodes, r as int));
    assert(nodes[r as int].prev[0] == a);
    assert(nodes[r as int].prev[1] == b);
    assert(a < r && b < r);
    let once = backward_spec(nodes, r);
    crate::engine::lemma_backward_shape(nodes, r);
    assert(once[r as int].op == Operator::Mul);
    assert(once[r as int].prev == seq![a, b]);
    assert(once[a as int].op == Operator::Leaf);
    assert(once[b as int].op == Operator::Leaf);
    lemma_grad_of_product_acc(once, r, a, b);
    assert(once[a as int].data == nodes[a as int].data);
    assert(once[b as int].data == nodes[b as int].data);
    assert(f_mul(once[b as int].data, ONE_BITS) == once[b as int].data);
    assert(f_mul(once[a as int].data, ONE_BITS) == once[a as int].data);
}

/// Diamond accumulation: after `backward` on the square of a leaf — the leaf
/// used as both operands of one product — the leaf's gradient holds both
/// contributions, accumulated exactly once each: its data added to its data.
/// NaN data carries no identity, and -0.0 data comes back as +0.0 in the first
/// accumulation, so both are left out.
pub proof fn lemma_grad_of_square(nodes: Seq<ValueModel>, r: usize, a: usize)
    requires
        graph_wf(nodes),
        (r as int) < nodes.len(),
        nodes[r as int].op == Operator::Mul,
        nodes[r as int].prev == seq![a, a],
        nodes[a as int].op == Operator::Leaf,
        nodes[a as int].grad == POS_ZERO_BITS,
        !f_is_nan(nodes[a as int].data),
        nodes[a as int].data != NEG_ZERO_BITS,
    ensures
        backward_spec(nodes, r)[a as int].grad == f_add(
            nodes[a as int].data,
            nodes[a as int].data,
        ),
{
    lemma_bits_facts();
    lemma_topo_shared_leaf(nodes, r, a);
    assert(node_wf(nodes, r as int));
    assert(a < r);
    let ad = nodes[a as int].data;
    let rev = topo_spec(nodes, r).reverse();
    assert(rev =~= seq![r, a]);
    let t0 = seeded(nodes, r as int);
    assert(t0[a as int] == nodes[a as int]);
    assert(t0[r as int].grad == ONE_BITS);
    assert(t0[r as int].op == Operator::Mul);
    assert(t0[r as int].prev == seq![a, a]);
    assert(f_mul(ad, ONE_BITS) == ad);
    let u1 = acc_grad(t0, a as int, f_mul(ad, ONE_BITS));
    assert(u1[a as int].grad == f_add(POS_ZERO_BITS, ad));
    assert(f_add(POS_ZERO_BITS, ad) == ad);
    let t1 = rule_applied(t0, r as int);
    assert(t1 == acc_grad(u1, a as int, f_mul(ad, ONE_BITS)));
    assert(t1[a as int].grad == f_add(ad, ad));
    assert(t1[a as int].op == Operator::Leaf);
    let t2 = rule_applied(t1, a as int);
    assert(t2 == t1);
    assert(run_back(t0, rev, 0) == run_back(t1, rev, 1));
    assert(run_back(t1, rev, 1) == run_back(t2, rev, 2));
    assert(run_back(t2, rev, 2) == t2);
    assert(backward_spec(nodes, r) == run_back(t0, rev, 0));
}

} // verus!
