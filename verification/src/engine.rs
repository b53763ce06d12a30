//! The backward engine and the gradient reset.
//!
//! `backward` seeds the root's gradient with 1.0, computes the depth-first
//! post-order of the subgraph reachable from the root, and replays that order
//! reversed, applying each node's backward rule to its operands with the
//! node's gradient as it then stands. Gradients accumulate: nothing is reset
//! first, so a second replay adds onto what the first left. `zero_grad`
//! walks the same reachable subgraph and clears every gradient in it.

use vstd::prelude::*;

use crate::graph::Graph;
use crate::graph::Operator;
use crate::graph::ValueModel;
use crate::graph::graph_wf;
use crate::graph::node_wf;
use crate::order::in_order;
use crate::order::lemma_in_order_intro;
use crate::order::lemma_order_has_before_destruct;
use crate::order::lemma_order_has_before_intro;
use crate::order::lemma_reaches_in_range;
use crate::order::lemma_topo_props;
use crate::order::order_has_before;
use crate::order::reaches;
use crate::order::topo_spec;
use crate::scalar::ONE_BITS;
use crate::scalar::POS_ZERO_BITS;
use crate::scalar::add_bits;
use crate::scalar::div_bits;
use crate::scalar::f_add;
use crate::scalar::f_div;
use crate::scalar::f_ln;
use crate::scalar::f_mul;
use crate::scalar::f_neg;
use crate::scalar::f_pow;
use crate::scalar::f_sub;
use crate::scalar::ln_bits;
use crate::scalar::mul_bits;
use crate::scalar::neg_bits;
use crate::scalar::pow_bits;
use crate::scalar::sub_bits;

verus! {

/// `nodes` with `inc` accumulated onto the gradient of node `i`; every other
/// field and node is untouched.
pub open spec fn acc_grad(nodes: Seq<ValueModel>, i: int, inc: u64) -> Seq<ValueModel> {
    nodes.update(
        i,
        ValueModel {
            data: nodes[i].data,
            grad: f_add(nodes[i].grad, inc),
            prev: nodes[i].prev,
            op: nodes[i].op,
        },
    )
}

/// The backward rule of node `n`: its gradient `g`, as it stands, distributed
/// onto its operands by accumulation. A leaf distributes nothing. An operand
/// used twice receives both contributions, one after the other.
pub open spec fn rule_applied(nodes: Seq<ValueModel>, n: int) -> Seq<ValueModel>
    recommends
        0 <= n < nodes.len(),
        node_wf(nodes, n),
{
    let v = nodes[n];
    let g = v.grad;
    match v.op {
        Operator::Leaf => nodes,
        Operator::Add => {
            let a = v.prev[0] as int;
            let b = v.prev[1] as int;
            acc_grad(acc_grad(nodes, a, g), b, g)
        },
        Operator::Sub => {
            let a = v.prev[0] as int;
            let b = v.prev[1] as int;
            acc_grad(acc_grad(nodes, a, g), b, f_neg(g))
        },
        Operator::Mul => {
            let a = v.prev[0] as int;
            let b = v.prev[1] as int;
            acc_grad(acc_grad(nodes, a, f_mul(nodes[b].data, g)), b, f_mul(nodes[a].data, g))
        },
        Operator::Div => {
            let a = v.prev[0] as int;
            let b = v.prev[1] as int;
            acc_grad(
                acc_grad(nodes, a, f_div(g, nodes[b].data)),
                b,
                f_div(f_mul(f_neg(nodes[a].data), g), f_mul(nodes[b].data, nodes[b].data)),
            )
        },
        Operator::Neg => {
            let a = v.prev[0] as int;
            acc_grad(nodes, a, f_neg(g))
        },
        Operator::Pow => {
            let a = v.prev[0] as int;
            let b = v.prev[1] as int;
            let bd = nodes[a].data;
            let ed = nodes[b].data;
            acc_grad(
                acc_grad(nodes, a, f_mul(f_mul(ed, f_pow(bd, f_sub(ed, ONE_BITS))), g)),
                b,
                f_mul(f_mul(f_ln(bd), f_pow(bd, ed)), g),
            )
        },
        Operator::Sigmoid => {
            let a = v.prev[0] as int;
            acc_grad(nodes, a, f_mul(f_mul(v.data, f_sub(ONE_BITS, v.data)), g))
        },
    }
}

/// The backward rules replayed along `order` from position `k` on.
pub open spec fn run_back(nodes: Seq<ValueModel>, order: Seq<usize>, k: int) -> Seq<ValueModel>
    decreases order.len() - k,
{
    if k < 0 || k >= order.len() {
        nodes
    } else {
        run_back(rule_applied(nodes, order[k] as int), order, k + 1)
    }
}

/// `nodes` with the gradient of `root` seeded to 1.0.
pub open spec fn seeded(nodes: Seq<ValueModel>, root: int) -> Seq<ValueModel> {
    nodes.update(
        root,
        ValueModel {
            data: nodes[root].data,
            grad: ONE_BITS,
            prev: nodes[root].prev,
            op: nodes[root].op,
        },
    )
}

/// What `backward` leaves behind: the root seeded with 1.0, then every
/// reachable node's rule applied once, root first, ultimate leaves last.
pub open spec fn backward_spec(nodes: Seq<ValueModel>, root: usize) -> Seq<ValueModel> {
    run_back(seeded(nodes, root as int), topo_spec(nodes, root).reverse(), 0)
}

/// `nodes` with the gradient of every node reachable from `root` cleared to
/// +0.0, every other node untouched.
pub open spec fn zeroed(nodes: Seq<ValueModel>, root: usize) -> Seq<ValueModel> {
    Seq::new(
        nodes.len(),
        |i: int|
            if reaches(nodes, root as int, i) {
                ValueModel {
                    data: nodes[i].data,
                    grad: POS_ZERO_BITS,
                    prev: nodes[i].prev,
                    op: nodes[i].op,
                }
            } else {
                nodes[i]
            },
    )
}

/// Replacing one node's gradient keeps the graph well formed.
pub proof fn lemma_grad_update_wf(nodes: Seq<ValueModel>, i: int, v: ValueModel)
    requires
        graph_wf(nodes),
        0 <= i < nodes.len(),
        v.prev == nodes[i].prev,
        v.op == nodes[i].op,
    ensures
        graph_wf(nodes.update(i, v)),
{
    let upd = nodes.update(i, v);
    assert forall|j: int| 0 <= j < upd.len() implies #[trigger] node_wf(upd, j) by {
        assert(node_wf(nodes, j));
        assert(upd[j].prev == nodes[j].prev);
        assert(upd[j].op == nodes[j].op);
    }
}

/// Applying a backward rule keeps the graph well formed and touches gradients
/// only.
pub proof fn lemma_rule_wf(nodes: Seq<ValueModel>, n: int)
    requires
        graph_wf(nodes),
        0 <= n < nodes.len(),
    ensures
        graph_wf(rule_applied(nodes, n)),
        rule_applied(nodes, n).len() == nodes.len(),
        forall|i: int|
            0 <= i < nodes.len() ==> (#[trigger] rule_applied(nodes, n)[i]).data == nodes[i].data
                && rule_applied(nodes, n)[i].prev == nodes[i].prev && rule_applied(nodes, n)[i].op
                == nodes[i].op,
{
    assert(node_wf(nodes, n));
    let v = nodes[n];
    match v.op {
        Operator::Leaf => {},
        Operator::Neg | Operator::Sigmoid => {
            let a = v.prev[0] as int;
            let mid = rule_applied(nodes, n);
            lemma_grad_update_wf(nodes, a, mid[a]);
        },
        _ => {
            let a = v.prev[0] as int;
            let b = v.prev[1] as int;
            let mid = match v.op {
                Operator::Add => acc_grad(nodes, a, v.grad),
                Operator::Sub => acc_grad(nodes, a, v.grad),
                Operator::Mul => acc_grad(nodes, a, f_mul(nodes[b].data, v.grad)),
                Operator::Div => acc_grad(nodes, a, f_div(v.grad, nodes[b].data)),
                _ => acc_grad(
                    nodes,
                    a,
                    f_mul(
                        f_mul(nodes[b].data, f_pow(nodes[a].data, f_sub(nodes[b].data, ONE_BITS))),
                        v.grad,
                    ),
                ),
            };
            lemma_grad_update_wf(nodes, a, mid[a]);
            lemma_grad_update_wf(mid, b, rule_applied(nodes, n)[b]);
        },
    }
}

/// Replaying backward rules touches gradients only and keeps the graph well
/// formed.
pub proof fn lemma_run_back_shape(nodes: Seq<ValueModel>, order: Seq<usize>, k: int)
    requires
        graph_wf(nodes),
        forall|q: int| 0 <= q < order.len() ==> (#[trigger] order[q]) < nodes.len(),
    ensures
        graph_wf(run_back(nodes, order, k)),
        run_back(nodes, order, k).len() == nodes.len(),
        forall|i: int|
            0 <= i < nodes.len() ==> (#[trigger] run_back(nodes, order, k)[i]).data
                == nodes[i].data && run_back(nodes, order, k)[i].prev == nodes[i].prev && run_back(
                nodes,
                order,
                k,
            )[i].op == nodes[i].op,
    decreases order.len() - k,
{
    if 0 <= k < order.len() {
        lemma_rule_wf(nodes, order[k] as int);
        lemma_run_back_shape(rule_applied(nodes, order[k] as int), order, k + 1);
    }
}

/// A backward rule leaves every node other than its operands untouched.
proof fn lemma_rule_untouched(nodes: Seq<ValueModel>, n: int, i: int)
    requires
        0 <= n < nodes.len(),
        0 <= i < nodes.len(),
        node_wf(nodes, n),
        forall|p: int|
            0 <= p < nodes[n].prev.len() ==> (#[trigger] nodes[n].prev[p]) as int != i,
    ensures
        rule_applied(nodes, n)[i] == nodes[i],
{
    if nodes[n].prev.len() > 0 {
        assert(nodes[n].prev[0] as int != i);
    }
    if nodes[n].prev.len() > 1 {
        assert(nodes[n].prev[1] as int != i);
    }
}

/// Replaying rules of nodes that never name `i` as an operand leaves node `i`
/// untouched.
proof fn lemma_run_back_untouched(nodes: Seq<ValueModel>, order: Seq<usize>, k: int, i: int)
    requires
        graph_wf(nodes),
        forall|q: int| 0 <= q < order.len() ==> (#[trigger] order[q]) < nodes.len(),
        0 <= i < nodes.len(),
        forall|q: int, p: int|
            #![trigger nodes[order[q] as int].prev[p]]
            0 <= q < order.len() && 0 <= p < nodes[order[q] as int].prev.len() ==> nodes[order[q]
                as int].prev[p] as int != i,
    ensures
        run_back(nodes, order, k)[i] == nodes[i],
    decreases order.len() - k,
{
    if 0 <= k < order.len() {
        let n = order[k] as int;
        lemma_rule_wf(nodes, n);
        assert(node_wf(nodes, n));
        lemma_rule_untouched(nodes, n, i);
        let mid = rule_applied(nodes, n);
        assert forall|q: int, p: int|
            0 <= q < order.len() && 0 <= p < mid[order[q] as int].prev.len() implies #[trigger] mid[order[q] as int].prev[p] as int != i by {
            assert(mid[order[q] as int].prev == nodes[order[q] as int].prev);
        }
        lemma_run_back_untouched(mid, order, k + 1, i);
    }
}

/// `backward` writes only inside the subgraph reachable from the root: a node
/// the root does not reach keeps its whole value, gradient included.
pub proof fn lemma_backward_untouched(nodes: Seq<ValueModel>, root: usize, i: int)
    requires
        graph_wf(nodes),
        (root as int) < nodes.len(),
        0 <= i < nodes.len(),
        !reaches(nodes, root as int, i),
    ensures
        backward_spec(nodes, root)[i] == nodes[i],
{
    lemma_topo_props(nodes, root);
    let order = topo_spec(nodes, root);
    let rev = order.reverse();
    assert(reaches(nodes, root as int, root as int));
    let t0 = seeded(nodes, root as int);
    assert(t0[i] == nodes[i]);
    lemma_grad_update_wf(nodes, root as int, t0[root as int]);
    assert forall|q: int| 0 <= q < rev.len() implies (#[trigger] rev[q]) < nodes.len() by {
        assert(rev[q] == order[order.len() - q - 1]);
        lemma_in_order_intro(order, order.len() - q - 1);
        lemma_reaches_in_range(nodes, root as int, order[order.len() - q - 1] as int);
    }
    assert forall|q: int, p: int|
        0 <= q < rev.len() && 0 <= p < t0[rev[q] as int].prev.len() implies #[trigger] t0[rev[q]
        as int].prev[p] as int != i by {
        let n = rev[q] as int;
        assert(rev[q] == order[order.len() - q - 1]);
        lemma_in_order_intro(order, order.len() - q - 1);
        assert(reaches(nodes, root as int, n));
        assert(t0[n].prev == nodes[n].prev);
        if nodes[n].prev[p] as int == i {
            crate::order::lemma_reaches_edge(nodes, root as int, n, p);
        }
    }
    lemma_run_back_untouched(t0, rev, 0, i);
}

/// `backward` touches gradients only: every node's data, operands and operator
/// come through unchanged, and the graph stays well formed.
pub proof fn lemma_backward_shape(nodes: Seq<ValueModel>, root: usize)
    requires
        graph_wf(nodes),
        (root as int) < nodes.len(),
    ensures
        graph_wf(backward_spec(nodes, root)),
        backward_spec(nodes, root).len() == nodes.len(),
        forall|i: int|
            0 <= i < nodes.len() ==> (#[trigger] backward_spec(nodes, root)[i]).data
                == nodes[i].data && backward_spec(nodes, root)[i].prev == nodes[i].prev
                && backward_spec(nodes, root)[i].op == nodes[i].op,
{
    lemma_topo_props(nodes, root);
    let order = topo_spec(nodes, root);
    let rev = order.reverse();
    assert forall|q: int| 0 <= q < rev.len() implies (#[trigger] rev[q]) < nodes.len() by {
        assert(rev[q] == order[order.len() - q - 1]);
        lemma_in_order_intro(order, order.len() - q - 1);
        lemma_reaches_in_range(nodes, root as int, order[order.len() - q - 1] as int);
    }
    let s = seeded(nodes, root as int);
    lemma_grad_update_wf(nodes, root as int, s[root as int]);
    lemma_run_back_shape(s, rev, 0);
}

impl Graph {
    /// Accumulates `inc` onto the gradient of node `i`: the new gradient is the
    /// old one plus `inc`, and nothing else changes.
    fn acc(&mut self, i: usize, inc: u64)
        requires
            old(self).wf(),
            i < old(self)@.len(),
        ensures
            final(self).wf(),
            final(self)@ == acc_grad(old(self)@, i as int, inc),
    {
        let cur = self.nodes[i].grad;
        let ng = add_bits(cur, inc);
        self.nodes[i].grad = ng;
        proof {
            assert(self@ =~~= acc_grad(old(self)@, i as int, inc));
            lemma_grad_update_wf(old(self)@, i as int, acc_grad(old(self)@, i as int, inc)[i as int]);
        }
    }

    /// Applies the backward rule of node `n`, distributing its current
    /// gradient onto its operands.
    fn apply_rule(&mut self, n: usize)
        requires
            old(self).wf(),
            n < old(self)@.len(),
        ensures
            final(self).wf(),
            final(self)@ == rule_applied(old(self)@, n as int),
    {
        proof {
            assert(node_wf(self@, n as int));
        }
        let g = self.nodes[n].grad;
        let op = self.nodes[n].op;
        match op {
            Operator::Leaf => {},
            Operator::Add => {
                let a = self.nodes[n].prev[0];
                let b = self.nodes[n].prev[1];
                self.acc(a, g);
                self.acc(b, g);
            },
            Operator::Sub => {
                let a = self.nodes[n].prev[0];
                let b = self.nodes[n].prev[1];
                self.acc(a, g);
                self.acc(b, neg_bits(g));
            },
            Operator::Mul => {
                let a = self.nodes[n].prev[0];
                let b = self.nodes[n].prev[1];
                let ad = self.nodes[a].data;
                let bd = self.nodes[b].data;
                self.acc(a, mul_bits(bd, g));
                self.acc(b, mul_bits(ad, g));
            },
            Operator::Div => {
                let a = self.nodes[n].prev[0];
                let b = self.nodes[n].prev[1];
                let ad = self.nodes[a].data;
                let bd = self.nodes[b].data;
                self.acc(a, div_bits(g, bd));
                self.acc(b, div_bits(mul_bits(neg_bits(ad), g), mul_bits(bd, bd)));
            },
            Operator::Neg => {
                let a = self.nodes[n].prev[0];
                self.acc(a, neg_bits(g));
            },
            Operator::Pow => {
                let a = self.nodes[n].prev[0];
                let b = self.nodes[n].prev[1];
                let bd = self.nodes[a].data;
                let ed = self.nodes[b].data;
                self.acc(a, mul_bits(mul_bits(ed, pow_bits(bd, sub_bits(ed, ONE_BITS))), g));
                self.acc(b, mul_bits(mul_bits(ln_bits(bd), pow_bits(bd, ed)), g));
            },
            Operator::Sigmoid => {
                let a = self.nodes[n].prev[0];
                let sd = self.nodes[n].data;
                self.acc(a, mul_bits(mul_bits(sd, sub_bits(ONE_BITS, sd)), g));
            },
        }
    }

    /// Seeds the root's gradient with 1.0 and replays the backward rules along
    /// the reversed post-order of the subgraph reachable from `root`: every
    /// reachable node's rule fires exactly once, after all of its consumers.
    /// Gradients are not reset first, so repeated calls accumulate.
    pub fn backward(&mut self, root: usize)
        requires
            old(self).wf(),
            root < old(self)@.len(),
        ensures
            final(self).wf(),
            final(self)@ == backward_spec(old(self)@, root),
    {
        let ghost orig = self@;
        let order = self.topo_order(root);
        proof {
            lemma_topo_props(orig, root);
            assert forall|q: int| 0 <= q < order@.len() implies (#[trigger] order@[q])
                < orig.len() by {
                lemma_in_order_intro(order@, q);
                lemma_reaches_in_range(orig, root as int, order@[q] as int);
            }
        }
        self.nodes[root].grad = ONE_BITS;
        proof {
            assert(self@ =~~= seeded(orig, root as int));
            lemma_grad_update_wf(orig, root as int, seeded(orig, root as int)[root as int]);
        }
        let ghost rev = topo_spec(orig, root).reverse();
        let n = order.len();
        let mut k: usize = 0;
        while k < n
            invariant
                self.wf(),
                n == order@.len(),
                k <= n,
                order@ == topo_spec(orig, root),
                rev == topo_spec(orig, root).reverse(),
                forall|q: int| 0 <= q < order@.len() ==> (#[trigger] order@[q]) < orig.len(),
                self@.len() == orig.len(),
                run_back(seeded(orig, root as int), rev, 0) == run_back(self@, rev, k as int),
            decreases n - k,
        {
            let node = order[n - 1 - k];
            proof {
                assert(rev[k as int] == order@[n - 1 - k]);
            }
            let ghost before = self@;
            self.apply_rule(node);
            proof {
                lemma_rule_wf(before, node as int);
                assert(run_back(before, rev, k as int) == run_back(self@, rev, k as int + 1));
            }
            k += 1;
        }
        proof {
            assert(run_back(self@, rev, n as int) == self@);
        }
    }

    /// Clears the gradient of node `i` to +0.0.
    fn clear_grad(&mut self, i: usize)
        requires
            old(self).wf(),
            i < old(self)@.len(),
        ensures
            final(self).wf(),
            final(self)@ == old(self)@.update(
                i as int,
                (ValueModel {
                    data: old(self)@[i as int].data,
                    grad: POS_ZERO_BITS,
                    prev: old(self)@[i as int].prev,
                    op: old(self)@[i as int].op,
                }),
            ),
    {
        self.nodes[i].grad = POS_ZERO_BITS;
        proof {
            let v = ValueModel {
                data: old(self)@[i as int].data,
                grad: POS_ZERO_BITS,
                prev: old(self)@[i as int].prev,
                op: old(self)@[i as int].op,
            };
            assert(self@ =~~= old(self)@.update(i as int, v));
            lemma_grad_update_wf(old(self)@, i as int, v);
        }
    }

    /// Clears the gradient of every node reachable from `root`, `root`
    /// included, and touches nothing else. A second consecutive call changes
    /// nothing.
    pub fn zero_grad(&mut self, root: usize)
        requires
            old(self).wf(),
            root < old(self)@.len(),
        ensures
            final(self).wf(),
            final(self)@ == zeroed(old(self)@, root),
    {
        let ghost orig = self@;
        let order = self.topo_order(root);
        proof {
            lemma_topo_props(orig, root);
            assert forall|q: int| 0 <= q < order@.len() implies (#[trigger] order@[q])
                < orig.len() by {
                lemma_in_order_intro(order@, q);
                lemma_reaches_in_range(orig, root as int, order@[q] as int);
            }
        }
        let n = order.len();
        let mut k: usize = 0;
        while k < n
            invariant
                self.wf(),
                n == order@.len(),
                k <= n,
                order@ == topo_spec(orig, root),
                forall|q: int| 0 <= q < order@.len() ==> (#[trigger] order@[q]) < orig.len(),
                self@.len() == orig.len(),
                forall|m: usize|
                    (m as int) < orig.len() ==> #[trigger] self@[m as int] == (if order_has_before(
                        order@,
                        k as int,
                        m,
                    ) {
                        (ValueModel {
                            data: orig[m as int].data,
                            grad: POS_ZERO_BITS,
                            prev: orig[m as int].prev,
                            op: orig[m as int].op,
                        })
                    } else {
                        orig[m as int]
                    }),
            decreases n - k,
        {
            let node = order[k];
            let ghost before = self@;
            self.clear_grad(node);
            proof {
                assert forall|m: usize| (m as int) < orig.len() implies #[trigger] self@[m as int]
                    == (if order_has_before(order@, k as int + 1, m) {
                    (ValueModel {
                        data: orig[m as int].data,
                        grad: POS_ZERO_BITS,
                        prev: orig[m as int].prev,
                        op: orig[m as int].op,
                    })
                } else {
                    orig[m as int]
                }) by {
                    if m == node {
                        lemma_order_has_before_intro(order@, k as int + 1, k as int);
                    } else {
                        assert(self@[m as int] == before[m as int]);
                        if order_has_before(order@, k as int + 1, m) {
                            let j2 = lemma_order_has_before_destruct(order@, k as int + 1, m);
                            lemma_order_has_before_intro(order@, k as int, j2);
                        }
                        if order_has_before(order@, k as int, m) {
                            let j2 = lemma_order_has_before_destruct(order@, k as int, m);
                            lemma_order_has_before_intro(order@, k as int + 1, j2);
                        }
                    }
                }
            }
            k += 1;
        }
        let total = self.len();
        proof {
            assert(total == orig.len());
            assert forall|i: int| 0 <= i < orig.len() implies self@[i] == zeroed(orig, root)[i] by {
                let m = i as usize;
                assert(m as int == i);
                assert(self@[m as int] == (if order_has_before(order@, n as int, m) {
                    (ValueModel {
                        data: orig[m as int].data,
                        grad: POS_ZERO_BITS,
                        prev: orig[m as int].prev,
                        op: orig[m as int].op,
                    })
                } else {
                    orig[m as int]
                }));
                if order_has_before(order@, n as int, m) {
                    let j2 = lemma_order_has_before_destruct(order@, n as int, m);
                    lemma_in_order_intro(order@, j2);
                    assert(in_order(topo_spec(orig, root), i));
                    assert(reaches(orig, root as int, i));
                } else {
                    if reaches(orig, root as int, i) {
                        assert(in_order(topo_spec(orig, root), i));
                        assert(in_order(order@, i));
                        let j2 = crate::order::lemma_in_order_destruct(order@, i);
                        lemma_order_has_before_intro(order@, n as int, j2);
                    }
                }
            }
            assert(self@ =~~= zeroed(orig, root));
        }
    }
}

} // verus!
