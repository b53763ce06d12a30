//! The expression graph: an arena of nodes addressed by integer indices.
//!
//! A node holds an immutable scalar value (as a bit pattern), a mutable
//! gradient accumulator, an operator tag and the indices of its operands.
//! Operands always point at nodes created strictly earlier, so the graph is
//! acyclic by construction. Building a node never mutates existing nodes.

use vstd::prelude::*;

use crate::scalar::POS_ZERO_BITS;
use crate::scalar::add_bits;
use crate::scalar::div_bits;
use crate::scalar::exp_bits;
use crate::scalar::f_add;
use crate::scalar::f_div;
use crate::scalar::f_mul;
use crate::scalar::f_neg;
use crate::scalar::f_pow;
use crate::scalar::f_sigmoid;
use crate::scalar::f_sub;
use crate::scalar::mul_bits;
use crate::scalar::neg_bits;
use crate::scalar::pow_bits;
use crate::scalar::sub_bits;

verus! {

/// The operator that produced a node. `Leaf` marks an input with no operands.
#[derive(Clone, Copy, Debug, PartialEq, Eq)]
pub enum Operator {
    Leaf,
    Add,
    Sub,
    Mul,
    Div,
    Neg,
    Pow,
    Sigmoid,
}

/// How many operands a node with this operator holds.
pub open spec fn arity(op: Operator) -> nat {
    match op {
        Operator::Leaf => 0,
        Operator::Neg => 1,
        Operator::Sigmoid => 1,
        _ => 2,
    }
}

/// One node of the graph: scalar value, gradient accumulator, operand indices
/// and operator tag. `data` is fixed at construction; `grad` is the only field
/// the engine ever mutates.
#[derive(Clone)]
pub struct Value {
    pub data: u64,
    pub grad: u64,
    pub prev: Vec<usize>,
    pub op: Operator,
}

/// The mathematical model of a node.
#[verifier::ext_equal]
pub ghost struct ValueModel {
    pub data: u64,
    pub grad: u64,
    pub prev: Seq<usize>,
    pub op: Operator,
}

impl View for Value {
    type V = ValueModel;

    open spec fn view(&self) -> ValueModel {
        ValueModel { data: self.data, grad: self.grad, prev: self.prev@, op: self.op }
    }
}

/// Node `i` is well formed: its operand list has the arity of its operator and
/// every operand points strictly below `i`.
pub open spec fn node_wf(nodes: Seq<ValueModel>, i: int) -> bool {
    &&& nodes[i].prev.len() == arity(nodes[i].op)
    &&& forall|p: int|
        0 <= p < nodes[i].prev.len() ==> (#[trigger] nodes[i].prev[p]) < i
}

/// Every node of the sequence is well formed, so the graph is a DAG.
pub open spec fn graph_wf(nodes: Seq<ValueModel>) -> bool {
    forall|i: int| 0 <= i < nodes.len() ==> #[trigger] node_wf(nodes, i)
}

/// The arena that owns every node of one computation graph. Handles are plain
/// indices into it.
pub struct Graph {
    pub nodes: Vec<Value>,
}

impl View for Graph {
    type V = Seq<ValueModel>;

    open spec fn view(&self) -> Seq<ValueModel> {
        self.nodes@.map_values(|v: Value| v@)
    }
}

/// Appending a node whose operands point below the old length keeps the graph
/// well formed.
pub proof fn lemma_push_wf(nodes: Seq<ValueModel>, v: ValueModel)
    requires
        graph_wf(nodes),
        v.prev.len() == arity(v.op),
        forall|p: int| 0 <= p < v.prev.len() ==> (#[trigger] v.prev[p]) < nodes.len(),
    ensures
        graph_wf(nodes.push(v)),
{
    let pushed = nodes.push(v);
    assert forall|i: int| 0 <= i < pushed.len() implies #[trigger] node_wf(pushed, i) by {
        if i < nodes.len() {
            assert(node_wf(nodes, i));
            assert(pushed[i] == nodes[i]);
        } else {
            assert(pushed[i] == v);
        }
    }
}

impl Graph {
    /// The graph's acyclicity and arity invariant.
    pub open spec fn wf(&self) -> bool {
        graph_wf(self@)
    }

    /// An empty graph.
    pub fn new() -> (g: Graph)
        ensures
            g.wf(),
            g@ == Seq::<ValueModel>::empty(),
    {
        let g = Graph { nodes: Vec::new() };
        proof {
            assert(g@ =~= Seq::<ValueModel>::empty());
        }
        g
    }

    /// How many nodes the graph holds.
    pub fn len(&self) -> (n: usize)
        ensures
            n == self@.len(),
    {
        self.nodes.len()
    }

    /// The scalar value of node `i`, as a bit pattern.
    pub fn data(&self, i: usize) -> (d: u64)
        requires
            i < self@.len(),
        ensures
            d == self@[i as int].data,
    {
        self.nodes[i].data
    }

    /// The gradient accumulator of node `i`, as a bit pattern.
    pub fn grad(&self, i: usize) -> (g: u64)
        requires
            i < self@.len(),
        ensures
            g == self@[i as int].grad,
    {
        self.nodes[i].grad
    }

    /// Appends a freshly built node and returns its index. Only this function
    /// grows the arena.
    fn push_node(&mut self, v: Value) -> (i: usize)
        requires
            old(self).wf(),
            v@.prev.len() == arity(v@.op),
            forall|p: int| 0 <= p < v@.prev.len() ==> (#[trigger] v@.prev[p]) < old(self)@.len(),
        ensures
            final(self).wf(),
            i == old(self)@.len(),
            final(self)@ == old(self)@.push(v@),
    {
        let i = self.nodes.len();
        proof {
            lemma_push_wf(old(self)@, v@);
        }
        let ghost model = v@;
        self.nodes.push(v);
        proof {
            assert(self@ =~= old(self)@.push(model));
        }
        i
    }

    /// Creates a leaf node carrying the given scalar; its gradient starts at
    /// +0.0 and it has no operands.
    pub fn value(&mut self, data: u64) -> (i: usize)
        requires
            old(self).wf(),
        ensures
            final(self).wf(),
            i == old(self)@.len(),
            final(self)@ == old(self)@.push(
                (ValueModel {
                    data,
                    grad: POS_ZERO_BITS,
                    prev: Seq::empty(),
                    op: Operator::Leaf,
                }),
            ),
    {
        let v = Value { data, grad: POS_ZERO_BITS, prev: Vec::new(), op: Operator::Leaf };
        proof {
            assert(v@.prev =~= Seq::<usize>::empty());
        }
        self.push_node(v)
    }

    /// Builds the sum of nodes `a` and `b` as a new node.
    pub fn add(&mut self, a: usize, b: usize) -> (i: usize)
        requires
            old(self).wf(),
            a < old(self)@.len(),
            b < old(self)@.len(),
        ensures
            final(self).wf(),
            i == old(self)@.len(),
            final(self)@ == old(self)@.push(
                (ValueModel {
                    data: f_add(old(self)@[a as int].data, old(self)@[b as int].data),
                    grad: POS_ZERO_BITS,
                    prev: seq![a, b],
                    op: Operator::Add,
                }),
            ),
    {
        let d = add_bits(self.nodes[a].data, self.nodes[b].data);
        let v = Value { data: d, grad: POS_ZERO_BITS, prev: vec![a, b], op: Operator::Add };
        proof {
            assert(v@.prev =~= seq![a, b]);
        }
        self.push_node(v)
    }

    /// Builds the difference of nodes `a` and `b` as a new node.
    pub fn sub(&mut self, a: usize, b: usize) -> (i: usize)
        requires
            old(self).wf(),
            a < old(self)@.len(),
            b < old(self)@.len(),
        ensures
            final(self).wf(),
            i == old(self)@.len(),
            final(self)@ == old(self)@.push(
                (ValueModel {
                    data: f_sub(old(self)@[a as int].data, old(self)@[b as int].data),
                    grad: POS_ZERO_BITS,
                    prev: seq![a, b],
                    op: Operator::Sub,
                }),
            ),
    {
        let d = sub_bits(self.nodes[a].data, self.nodes[b].data);
        let v = Value { data: d, grad: POS_ZERO_BITS, prev: vec![a, b], op: Operator::Sub };
        proof {
            assert(v@.prev =~= seq![a, b]);
        }
        self.push_node(v)
    }

    /// Builds the product of nodes `a` and `b` as a new node.
    pub fn mul(&mut self, a: usize, b: usize) -> (i: usize)
        requires
            old(self).wf(),
            a < old(self)@.len(),
            b < old(self)@.len(),
        ensures
            final(self).wf(),
            i == old(self)@.len(),
            final(self)@ == old(self)@.push(
                (ValueModel {
                    data: f_mul(old(self)@[a as int].data, old(self)@[b as int].data),
                    grad: POS_ZERO_BITS,
                    prev: seq![a, b],
                    op: Operator::Mul,
                }),
            ),
    {
        let d = mul_bits(self.nodes[a].data, self.nodes[b].data);
        let v = Value { data: d, grad: POS_ZERO_BITS, prev: vec![a, b], op: Operator::Mul };
        proof {
            assert(v@.prev =~= seq![a, b]);
        }
        self.push_node(v)
    }

    /// Builds the quotient of nodes `a` and `b` as a new node. Division by zero
    /// follows IEEE 754 and yields an infinity or NaN, never a trap.
    pub fn div(&mut self, a: usize, b: usize) -> (i: usize)
        requires
            old(self).wf(),
            a < old(self)@.len(),
            b < old(self)@.len(),
        ensures
            final(self).wf(),
            i == old(self)@.len(),
            final(self)@ == old(self)@.push(
                (ValueModel {
                    data: f_div(old(self)@[a as int].data, old(self)@[b as int].data),
                    grad: POS_ZERO_BITS,
                    prev: seq![a, b],
                    op: Operator::Div,
                }),
            ),
    {
        let d = div_bits(self.nodes[a].data, self.nodes[b].data);
        let v = Value { data: d, grad: POS_ZERO_BITS, prev: vec![a, b], op: Operator::Div };
        proof {
            assert(v@.prev =~= seq![a, b]);
        }
        self.push_node(v)
    }

    /// Builds the negation of node `a` as a new node.
    pub fn neg(&mut self, a: usize) -> (i: usize)
        requires
            old(self).wf(),
            a < old(self)@.len(),
        ensures
            final(self).wf(),
            i == old(self)@.len(),
            final(self)@ == old(self)@.push(
                (ValueModel {
                    data: f_neg(old(self)@[a as int].data),
                    grad: POS_ZERO_BITS,
                    prev: seq![a],
                    op: Operator::Neg,
                }),
            ),
    {
        let d = neg_bits(self.nodes[a].data);
        let v = Value { data: d, grad: POS_ZERO_BITS, prev: vec![a], op: Operator::Neg };
        proof {
            assert(v@.prev =~= seq![a]);
        }
        self.push_node(v)
    }

    /// Builds node `a` raised to node `b` as a new node. The exponent is itself
    /// a node, so a gradient with respect to it exists.
    pub fn pow(&mut self, a: usize, b: usize) -> (i: usize)
        requires
            old(self).wf(),
            a < old(self)@.len(),
            b < old(self)@.len(),
        ensures
            final(self).wf(),
            i == old(self)@.len(),
            final(self)@ == old(self)@.push(
                (ValueModel {
                    data: f_pow(old(self)@[a as int].data, old(self)@[b as int].data),
                    grad: POS_ZERO_BITS,
                    prev: seq![a, b],
                    op: Operator::Pow,
                }),
            ),
    {
        let d = pow_bits(self.nodes[a].data, self.nodes[b].data);
        let v = Value { data: d, grad: POS_ZERO_BITS, prev: vec![a, b], op: Operator::Pow };
        proof {
            assert(v@.prev =~= seq![a, b]);
        }
        self.push_node(v)
    }

    /// Builds the logistic sigmoid of node `a`, 1 / (1 + e^(-a)), as a new node.
    pub fn sigmoid(&mut self, a: usize) -> (i: usize)
        requires
            old(self).wf(),
            a < old(self)@.len(),
        ensures
            final(self).wf(),
            i == old(self)@.len(),
            final(self)@ == old(self)@.push(
                (ValueModel {
                    data: f_sigmoid(old(self)@[a as int].data),
                    grad: POS_ZERO_BITS,
                    prev: seq![a],
                    op: Operator::Sigmoid,
                }),
            ),
    {
        let e = exp_bits(neg_bits(self.nodes[a].data));
        let one: u64 = crate::scalar::ONE_BITS;
        let d = div_bits(one, add_bits(one, e));
        let v = Value { data: d, grad: POS_ZERO_BITS, prev: vec![a], op: Operator::Sigmoid };
        proof {
            assert(v@.prev =~= seq![a]);
        }
        self.push_node(v)
    }
}

} // verus!
