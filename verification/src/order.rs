//! The topological orderer.
//!
//! Given a root node, the orderer produces a depth-first post-order of every
//! node reachable from it along operand edges, visiting each distinct node
//! exactly once however many paths lead to it. The traversal uses an explicit
//! work stack of (node, expanded) frames, so arbitrarily deep graphs never
//! touch the call stack: popping a fresh node marks it visited and pushes it
//! back as expanded underneath its operand frames; popping an expanded frame
//! emits its node; a node already visited is skipped.
//!
//! The executable traversal is pinned to the small-step specification
//! [`dfs_run`], and the classical facts about the result (each reachable node
//! appears exactly once, operands appear before their consumers) are proved of
//! that specification.

use vstd::prelude::*;

use vstd::set::axiom_set_insert_len;
use vstd::set_lib::lemma_int_range;
use vstd::set_lib::lemma_len_subset;
use vstd::set_lib::set_int_range;

use crate::graph::Graph;
use crate::graph::ValueModel;
use crate::graph::graph_wf;
use crate::graph::node_wf;

verus! {

/// Whether one of the first `p` operands of node `i` reaches node `j`. The
/// guard on the operand's index keeps the recursion well founded; on a
/// well-formed graph it always holds, so there it has no effect.
pub open spec fn reaches_upto(nodes: Seq<ValueModel>, i: int, j: int, p: int) -> bool
    decreases i, p,
{
    if p <= 0 {
        false
    } else {
        (0 <= nodes[i].prev[p - 1] < i && reaches(nodes, nodes[i].prev[p - 1] as int, j))
            || reaches_upto(nodes, i, j, p - 1)
    }
}

/// Whether node `j` is reachable from node `i` along operand edges; every node
/// reaches itself.
pub open spec fn reaches(nodes: Seq<ValueModel>, i: int, j: int) -> bool
    decreases i, nodes[i].prev.len() as int + 1,
{
    i == j || reaches_upto(nodes, i, j, nodes[i].prev.len() as int)
}

/// From `reaches_upto`, the operand that does the reaching.
proof fn lemma_upto_destruct(nodes: Seq<ValueModel>, i: int, j: int, p: int) -> (w: int)
    requires
        reaches_upto(nodes, i, j, p),
    ensures
        0 <= w < p,
        0 <= nodes[i].prev[w] < i,
        reaches(nodes, nodes[i].prev[w] as int, j),
    decreases p,
{
    if p <= 0 {
        assert(false);
        0
    } else if 0 <= nodes[i].prev[p - 1] < i && reaches(nodes, nodes[i].prev[p - 1] as int, j) {
        p - 1
    } else {
        lemma_upto_destruct(nodes, i, j, p - 1)
    }
}

/// An operand that reaches `j` makes `reaches_upto` true.
proof fn lemma_upto_intro(nodes: Seq<ValueModel>, i: int, j: int, p: int, w: int)
    requires
        0 <= w < p,
        0 <= nodes[i].prev[w] < i,
        reaches(nodes, nodes[i].prev[w] as int, j),
    ensures
        reaches_upto(nodes, i, j, p),
    decreases p,
{
    if w < p - 1 {
        lemma_upto_intro(nodes, i, j, p - 1, w);
    }
}

/// From `reaches` between distinct nodes, the operand edge it starts with.
pub proof fn lemma_reaches_destruct(nodes: Seq<ValueModel>, i: int, j: int) -> (w: int)
    requires
        reaches(nodes, i, j),
        i != j,
    ensures
        0 <= w < nodes[i].prev.len(),
        nodes[i].prev[w] < i,
        reaches(nodes, nodes[i].prev[w] as int, j),
{
    lemma_upto_destruct(nodes, i, j, nodes[i].prev.len() as int)
}

/// An operand edge followed by reachability gives reachability.
pub proof fn lemma_reaches_intro(nodes: Seq<ValueModel>, i: int, j: int, w: int)
    requires
        0 <= w < nodes[i].prev.len(),
        nodes[i].prev[w] < i,
        reaches(nodes, nodes[i].prev[w] as int, j),
    ensures
        reaches(nodes, i, j),
{
    lemma_upto_intro(nodes, i, j, nodes[i].prev.len() as int, w);
}

/// The whole state of the iterative traversal: the work stack of
/// (node, expanded) frames, the identity-keyed visited set, and the post-order
/// built so far.
#[verifier::ext_equal]
pub ghost struct DfsState {
    pub stack: Seq<(usize, bool)>,
    pub visited: Set<int>,
    pub order: Seq<usize>,
}

/// The operand frames pushed when a node is first expanded: its operands in
/// reverse, so that the leftmost operand is processed first.
pub open spec fn frames_of(prev: Seq<usize>) -> Seq<(usize, bool)> {
    Seq::new(prev.len(), |k: int| (prev[prev.len() - 1 - k], false))
}

/// The bounds every traversal state keeps: visited entries and stacked frames
/// name nodes of the graph.
pub open spec fn state_wf(nodes: Seq<ValueModel>, s: DfsState) -> bool {
    &&& s.visited.finite()
    &&& forall|n: int| #[trigger] s.visited.contains(n) ==> 0 <= n < nodes.len()
    &&& forall|q: int| 0 <= q < s.stack.len() ==> (#[trigger] s.stack[q]).0 < nodes.len()
}

/// The state the traversal starts from: the root's frame alone, nothing
/// visited, nothing emitted.
pub open spec fn init_state(root: usize) -> DfsState {
    DfsState { stack: seq![(root, false)], visited: Set::empty(), order: Seq::empty() }
}

/// One step of the traversal, popping the top frame.
pub open spec fn dfs_step(nodes: Seq<ValueModel>, s: DfsState) -> DfsState
    recommends
        s.stack.len() > 0,
{
    let f = s.stack.last();
    let rest = s.stack.drop_last();
    if f.1 {
        DfsState { stack: rest, visited: s.visited, order: s.order.push(f.0) }
    } else if s.visited.contains(f.0 as int) {
        DfsState { stack: rest, visited: s.visited, order: s.order }
    } else {
        DfsState {
            stack: rest.push((f.0, true)) + frames_of(nodes[f.0 as int].prev),
            visited: s.visited.insert(f.0 as int),
            order: s.order,
        }
    }
}

/// A step keeps the state within bounds, and either visits a new node or
/// shortens the stack.
pub proof fn lemma_step_wf(nodes: Seq<ValueModel>, s: DfsState)
    requires
        graph_wf(nodes),
        state_wf(nodes, s),
        s.stack.len() > 0,
    ensures
        state_wf(nodes, dfs_step(nodes, s)),
        s.visited.len() <= nodes.len(),
        dfs_step(nodes, s).visited.len() <= nodes.len(),
        dfs_step(nodes, s).visited == s.visited || dfs_step(nodes, s).visited.len() == s.visited.len() + 1,
        dfs_step(nodes, s).visited == s.visited ==> dfs_step(nodes, s).stack.len() < s.stack.len(),
{
    let f = s.stack.last();
    let s2 = dfs_step(nodes, s);
    lemma_int_range(0, nodes.len() as int);
    assert(s.visited.subset_of(set_int_range(0, nodes.len() as int)));
    lemma_len_subset(s.visited, set_int_range(0, nodes.len() as int));
    if !f.1 && !s.visited.contains(f.0 as int) {
        assert(node_wf(nodes, f.0 as int));
        axiom_set_insert_len(s.visited, f.0 as int);
        assert(s2.visited.subset_of(set_int_range(0, nodes.len() as int)));
        lemma_len_subset(s2.visited, set_int_range(0, nodes.len() as int));
        assert forall|q: int| 0 <= q < s2.stack.len() implies (#[trigger] s2.stack[q]).0
            < nodes.len() by {
            if q < s.stack.len() - 1 {
                assert(s2.stack[q] == s.stack[q]);
            } else if q == s.stack.len() - 1 {
                assert(s2.stack[q] == (f.0, true));
            } else {
                let prev = nodes[f.0 as int].prev;
                let k = q - s.stack.len();
                assert(s2.stack[q] == (prev[prev.len() - 1 - k], false));
                assert(prev[prev.len() - 1 - k] < f.0);
            }
        }
    }
}

/// Runs the traversal to completion: the unique fixpoint of `dfs_step`
/// reached from `s`.
pub open spec fn dfs_run(nodes: Seq<ValueModel>, s: DfsState) -> DfsState
    decreases nodes.len() - s.visited.len(), s.stack.len()
        when graph_wf(nodes) && state_wf(nodes, s)
        via dfs_run_decreases
{
    if s.stack.len() == 0 {
        s
    } else {
        dfs_run(nodes, dfs_step(nodes, s))
    }
}

#[via_fn]
proof fn dfs_run_decreases(nodes: Seq<ValueModel>, s: DfsState) {
    if s.stack.len() > 0 {
        lemma_step_wf(nodes, s);
    }
}

/// The post-order of the subgraph reachable from `root`: what the traversal
/// emits when run from the initial state.
pub open spec fn topo_spec(nodes: Seq<ValueModel>, root: usize) -> Seq<usize> {
    dfs_run(nodes, init_state(root)).order
}

impl Graph {
    /// The depth-first post-order of the subgraph reachable from `root`: every
    /// reachable node exactly once, each node after all of its operands.
    /// Reversing it yields the root-first order that gradient propagation
    /// replays.
    pub fn topo_order(&self, root: usize) -> (order: Vec<usize>)
        requires
            self.wf(),
            root < self@.len(),
        ensures
            order@ == topo_spec(self@, root),
            order@.no_duplicates(),
            forall|n: int|
                #![trigger in_order(order@, n)]
                #![trigger reaches(self@, root as int, n)]
                in_order(order@, n) <==> reaches(self@, root as int, n),
            forall|j: int, p: int|
                #![trigger self@[order@[j] as int].prev[p]]
                0 <= j < order@.len() && 0 <= p < self@[order@[j] as int].prev.len()
                    ==> order_has_before(order@, j, self@[order@[j] as int].prev[p]),
    {
        proof {
            lemma_topo_props(self@, root);
        }
        let ghost nodes = self@;
        let n = self.nodes.len();
        let mut stack: Vec<(usize, bool)> = Vec::new();
        stack.push((root, false));
        let mut visited: Vec<bool> = Vec::new();
        let mut k: usize = 0;
        while k < n
            invariant
                k <= n,
                visited@.len() == k,
                forall|i: int| 0 <= i < k ==> !(#[trigger] visited@[i]),
            decreases n - k,
        {
            visited.push(false);
            k += 1;
        }
        let mut order: Vec<usize> = Vec::new();
        let ghost mut cur = init_state(root);
        proof {
            assert(cur.stack =~= stack@);
            assert(cur.visited =~= bools_set(visited@));
            assert(cur.order =~= order@);
        }
        while stack.len() > 0
            invariant
                self.wf(),
                nodes == self@,
                root < nodes.len(),
                visited@.len() == nodes.len(),
                cur.stack == stack@,
                cur.visited == bools_set(visited@),
                cur.order == order@,
                state_wf(nodes, cur),
                dfs_run(nodes, cur) == dfs_run(nodes, init_state(root)),
            decreases nodes.len() - cur.visited.len(), stack@.len(),
        {
            proof {
                lemma_step_wf(nodes, cur);
            }
            let ghost prev_state = cur;
            let f = stack.pop().unwrap();
            let node = f.0;
            proof {
                assert(prev_state.stack[prev_state.stack.len() - 1].0 < nodes.len());
            }
            if f.1 {
                order.push(node);
            } else if !visited[node] {
                visited[node] = true;
                stack.push((node, true));
                let m = self.nodes[node].prev.len();
                let mut j: usize = m;
                while j > 0
                    invariant
                        self.wf(),
                        nodes == self@,
                        node < nodes.len(),
                        m == nodes[node as int].prev.len(),
                        j <= m,
                        prev_state.stack.len() >= 1,
                        stack@.len() == prev_state.stack.len() + (m - j),
                        forall|q: int|
                            0 <= q < prev_state.stack.len() - 1 ==> stack@[q]
                                == prev_state.stack[q],
                        stack@[prev_state.stack.len() - 1] == ((node, true)),
                        forall|q: int|
                            prev_state.stack.len() <= q < stack@.len() ==> stack@[q] == ((
                            nodes[node as int].prev[m - 1 - (q - prev_state.stack.len())],
                            false,
                            )),
                    decreases j,
                {
                    j -= 1;
                    stack.push((self.nodes[node].prev[j], false));
                }
                proof {
                    cur = DfsState {
                        stack: prev_state.stack.drop_last().push((node, true)) + frames_of(
                            nodes[node as int].prev,
                        ),
                        visited: prev_state.visited.insert(node as int),
                        order: prev_state.order,
                    };
                    assert(cur.stack =~= stack@);
                    assert(cur.visited =~= bools_set(visited@));
                }
            }
            proof {
                if f.1 {
                    cur = DfsState {
                        stack: prev_state.stack.drop_last(),
                        visited: prev_state.visited,
                        order: prev_state.order.push(node),
                    };
                    assert(cur.stack =~= stack@);
                } else if prev_state.visited.contains(node as int) {
                    cur = DfsState {
                        stack: prev_state.stack.drop_last(),
                        visited: prev_state.visited,
                        order: prev_state.order,
                    };
                    assert(cur.stack =~= stack@);
                }
                assert(cur =~= dfs_step(nodes, prev_state));
            }
        }
        proof {
            assert(dfs_run(nodes, cur) == cur);
        }
        order
    }
}

/// The set of indices a vector of booleans marks true.
pub open spec fn bools_set(bs: Seq<bool>) -> Set<int> {
    Set::new(|i: int| 0 <= i < bs.len() && bs[i])
}

/// Some frame of the stack names node `n`.
pub open spec fn on_stack(stack: Seq<(usize, bool)>, n: int) -> bool {
    exists|q: int| 0 <= q < stack.len() && (#[trigger] stack[q]).0 as int == n
}

/// Some expanded frame of the stack names node `n`.
pub open spec fn stack_true(stack: Seq<(usize, bool)>, n: int) -> bool {
    exists|q: int| 0 <= q < stack.len() && (#[trigger] stack[q]).1 && stack[q].0 as int == n
}

/// Node `n` stands in the emitted sequence.
pub open spec fn in_order(order: Seq<usize>, n: int) -> bool {
    exists|j: int| 0 <= j < order.len() && (#[trigger] order[j]) as int == n
}

/// Some frame strictly above position `q` names node `a`.
pub open spec fn pending_above(stack: Seq<(usize, bool)>, q: int, a: usize) -> bool {
    exists|q2: int| q < q2 < stack.len() && (#[trigger] stack[q2]).0 == a
}

/// Node `a` is emitted somewhere before position `j`.
pub open spec fn order_has_before(order: Seq<usize>, j: int, a: usize) -> bool {
    exists|j2: int| 0 <= j2 < j && (#[trigger] order[j2]) == a
}

/// A node is visited exactly when it has been emitted or awaits emission in an
/// expanded frame.
pub open spec fn inv_visited(s: DfsState) -> bool {
    forall|n: int|
        #![trigger s.visited.contains(n)]
        s.visited.contains(n) <==> (in_order(s.order, n) || stack_true(s.stack, n))
}

/// What holds of the expanded frame at position `q`: everything above it names
/// strictly smaller nodes, its node is not yet emitted, and each of its
/// operands is emitted or still pending above it.
pub open spec fn true_frame_ok(nodes: Seq<ValueModel>, s: DfsState, q: int) -> bool {
    let n = s.stack[q].0;
    &&& forall|q2: int| q < q2 < s.stack.len() ==> (#[trigger] s.stack[q2]).0 < n
    &&& !in_order(s.order, n as int)
    &&& forall|p: int|
        0 <= p < nodes[n as int].prev.len() ==> in_order(
            s.order,
            #[trigger] nodes[n as int].prev[p] as int,
        ) || pending_above(s.stack, q, nodes[n as int].prev[p])
}

/// Every expanded frame keeps its obligations.
pub open spec fn inv_true_frames(nodes: Seq<ValueModel>, s: DfsState) -> bool {
    forall|q: int|
        0 <= q < s.stack.len() && (#[trigger] s.stack[q]).1 ==> true_frame_ok(nodes, s, q)
}

/// The emitted sequence has no duplicates and is already in post-order: each
/// emitted node's operands stand earlier in it.
pub open spec fn inv_order(nodes: Seq<ValueModel>, s: DfsState) -> bool {
    &&& s.order.no_duplicates()
    &&& forall|j: int, p: int|
        #![trigger nodes[s.order[j] as int].prev[p]]
        0 <= j < s.order.len() && 0 <= p < nodes[s.order[j] as int].prev.len()
            ==> order_has_before(s.order, j, nodes[s.order[j] as int].prev[p])
}

/// Everything visited or stacked is reachable from the root.
pub open spec fn inv_reach(nodes: Seq<ValueModel>, root: int, s: DfsState) -> bool {
    &&& forall|n: int| #[trigger] s.visited.contains(n) ==> reaches(nodes, root, n)
    &&& forall|q: int|
        0 <= q < s.stack.len() ==> reaches(nodes, root, (#[trigger] s.stack[q]).0 as int)
}

/// Each operand of a visited node is itself visited or still on the stack.
pub open spec fn inv_closure(nodes: Seq<ValueModel>, s: DfsState) -> bool {
    forall|n: int, p: int|
        #![trigger s.visited.contains(n), nodes[n].prev[p]]
        s.visited.contains(n) && 0 <= p < nodes[n].prev.len() ==> s.visited.contains(
            nodes[n].prev[p] as int,
        ) || on_stack(s.stack, nodes[n].prev[p] as int)
}

/// The root has been visited or still awaits processing.
pub open spec fn inv_root(root: int, s: DfsState) -> bool {
    s.visited.contains(root) || on_stack(s.stack, root)
}

/// Everything the traversal maintains from the initial state to the fixpoint.
pub open spec fn inv(nodes: Seq<ValueModel>, root: int, s: DfsState) -> bool {
    &&& state_wf(nodes, s)
    &&& inv_visited(s)
    &&& inv_true_frames(nodes, s)
    &&& inv_order(nodes, s)
    &&& inv_reach(nodes, root, s)
    &&& inv_closure(nodes, s)
    &&& inv_root(root, s)
}

/// From `in_order`, the emission position.
pub proof fn lemma_in_order_destruct(order: Seq<usize>, n: int) -> (j: int)
    requires
        in_order(order, n),
    ensures
        0 <= j < order.len(),
        order[j] as int == n,
{
    choose|j: int| 0 <= j < order.len() && (#[trigger] order[j]) as int == n
}

/// An emission position witnesses `in_order`.
pub proof fn lemma_in_order_intro(order: Seq<usize>, j: int)
    requires
        0 <= j < order.len(),
    ensures
        in_order(order, order[j] as int),
{
    assert((#[trigger] order[j]) as int == order[j] as int);
}

/// From `stack_true`, the position of the expanded frame.
proof fn lemma_stack_true_destruct(stack: Seq<(usize, bool)>, n: int) -> (q: int)
    requires
        stack_true(stack, n),
    ensures
        0 <= q < stack.len(),
        stack[q].1,
        stack[q].0 as int == n,
{
    choose|q: int| 0 <= q < stack.len() && (#[trigger] stack[q]).1 && stack[q].0 as int == n
}

/// An expanded frame witnesses `stack_true`.
proof fn lemma_stack_true_intro(stack: Seq<(usize, bool)>, q: int)
    requires
        0 <= q < stack.len(),
        stack[q].1,
    ensures
        stack_true(stack, stack[q].0 as int),
{
    assert((#[trigger] stack[q]).1);
}

/// From `on_stack`, the position of the frame.
proof fn lemma_on_stack_destruct(stack: Seq<(usize, bool)>, n: int) -> (q: int)
    requires
        on_stack(stack, n),
    ensures
        0 <= q < stack.len(),
        stack[q].0 as int == n,
{
    choose|q: int| 0 <= q < stack.len() && (#[trigger] stack[q]).0 as int == n
}

/// A frame witnesses `on_stack`.
proof fn lemma_on_stack_intro(stack: Seq<(usize, bool)>, q: int)
    requires
        0 <= q < stack.len(),
    ensures
        on_stack(stack, stack[q].0 as int),
{
    assert((#[trigger] stack[q]).0 as int == stack[q].0 as int);
}

/// From `pending_above`, the position of the frame above `q`.
proof fn lemma_pending_above_destruct(stack: Seq<(usize, bool)>, q: int, a: usize) -> (q2: int)
    requires
        pending_above(stack, q, a),
    ensures
        q < q2 < stack.len(),
        stack[q2].0 == a,
{
    choose|q2: int| q < q2 < stack.len() && (#[trigger] stack[q2]).0 == a
}

/// A frame above `q` witnesses `pending_above`.
proof fn lemma_pending_above_intro(stack: Seq<(usize, bool)>, q: int, q2: int)
    requires
        q < q2 < stack.len(),
    ensures
        pending_above(stack, q, stack[q2].0),
{
    assert((#[trigger] stack[q2]).0 == stack[q2].0);
}

/// From `order_has_before`, the earlier emission position.
pub proof fn lemma_order_has_before_destruct(order: Seq<usize>, j: int, a: usize) -> (j2: int)
    requires
        order_has_before(order, j, a),
    ensures
        0 <= j2 < j,
        order[j2] == a,
{
    choose|j2: int| 0 <= j2 < j && (#[trigger] order[j2]) == a
}

/// An earlier emission position witnesses `order_has_before`.
pub proof fn lemma_order_has_before_intro(order: Seq<usize>, j: int, j2: int)
    requires
        0 <= j2 < j,
        j2 < order.len(),
    ensures
        order_has_before(order, j, order[j2]),
{
    assert((#[trigger] order[j2]) == order[j2]);
}

/// Reachability extends along one operand edge.
pub proof fn lemma_reaches_edge(nodes: Seq<ValueModel>, r: int, i: int, p: int)
    requires
        graph_wf(nodes),
        0 <= r < nodes.len(),
        0 <= i < nodes.len(),
        reaches(nodes, r, i),
        0 <= p < nodes[i].prev.len(),
    ensures
        reaches(nodes, r, nodes[i].prev[p] as int),
    decreases r,
{
    assert(node_wf(nodes, i));
    if r == i {
        assert(reaches(nodes, nodes[i].prev[p] as int, nodes[i].prev[p] as int));
        lemma_reaches_intro(nodes, i, nodes[i].prev[p] as int, p);
    } else {
        let p2 = lemma_reaches_destruct(nodes, r, i);
        assert(node_wf(nodes, r));
        lemma_reaches_edge(nodes, nodes[r].prev[p2] as int, i, p);
        lemma_reaches_intro(nodes, r, nodes[i].prev[p] as int, p2);
    }
}

/// A reachable node is a node of the graph.
pub proof fn lemma_reaches_in_range(nodes: Seq<ValueModel>, i: int, j: int)
    requires
        graph_wf(nodes),
        0 <= i < nodes.len(),
        reaches(nodes, i, j),
    ensures
        0 <= j < nodes.len(),
    decreases i,
{
    if i != j {
        let p = lemma_reaches_destruct(nodes, i, j);
        assert(node_wf(nodes, i));
        lemma_reaches_in_range(nodes, nodes[i].prev[p] as int, j);
    }
}

/// A set that holds `i` and is closed under operand edges holds everything `i`
/// reaches.
pub proof fn lemma_reach_closed(nodes: Seq<ValueModel>, vis: Set<int>, i: int, j: int)
    requires
        graph_wf(nodes),
        0 <= i < nodes.len(),
        vis.contains(i),
        reaches(nodes, i, j),
        forall|n: int, p: int|
            #![trigger vis.contains(n), nodes[n].prev[p]]
            vis.contains(n) && 0 <= n < nodes.len() && 0 <= p < nodes[n].prev.len()
                ==> vis.contains(nodes[n].prev[p] as int),
    ensures
        vis.contains(j),
    decreases i,
{
    if i != j {
        let p = lemma_reaches_destruct(nodes, i, j);
        assert(node_wf(nodes, i));
        assert(vis.contains(nodes[i].prev[p] as int));
        lemma_reach_closed(nodes, vis, nodes[i].prev[p] as int, j);
    }
}


/// One emitting step keeps the invariant: the popped expanded frame's node goes
/// to the order, where its operands already stand.
proof fn lemma_step_keeps_emit(nodes: Seq<ValueModel>, root: int, s: DfsState)
    requires
        graph_wf(nodes),
        0 <= root < nodes.len(),
        inv(nodes, root, s),
        s.stack.len() > 0,
        s.stack.last().1,
    ensures
        inv(nodes, root, dfs_step(nodes, s)),
{
    let f = s.stack.last();
    let n = f.0;
    let topq = s.stack.len() - 1;
    let s2 = dfs_step(nodes, s);
    assert(s2.stack == s.stack.drop_last());
    assert(s2.order == s.order.push(n));
    assert(s2.visited == s.visited);
    assert(s.stack[topq] == f);
    assert(true_frame_ok(nodes, s, topq));
    lemma_stack_true_intro(s.stack, topq);
    assert(s.visited.contains(n as int));
    assert(s2.order[s.order.len() as int] == n);

    assert forall|q: int| 0 <= q < s2.stack.len() implies (#[trigger] s2.stack[q]).0
        < nodes.len() by {
        assert(s2.stack[q] == s.stack[q]);
    }
    assert forall|m: int| #[trigger] s2.visited.contains(m) implies (in_order(s2.order, m)
        || stack_true(s2.stack, m)) by {
        assert(s.visited.contains(m));
        if in_order(s.order, m) {
            let j = lemma_in_order_destruct(s.order, m);
            assert(s2.order[j] == s.order[j]);
            lemma_in_order_intro(s2.order, j);
        } else {
            let q = lemma_stack_true_destruct(s.stack, m);
            if q == topq {
                lemma_in_order_intro(s2.order, s.order.len() as int);
            } else {
                assert(s2.stack[q] == s.stack[q]);
                lemma_stack_true_intro(s2.stack, q);
            }
        }
    }
    assert forall|m: int| in_order(s2.order, m) || stack_true(s2.stack, m) implies #[trigger] s2
        .visited.contains(m) by {
        if in_order(s2.order, m) {
            let j = lemma_in_order_destruct(s2.order, m);
            if j < s.order.len() {
                assert(s2.order[j] == s.order[j]);
                lemma_in_order_intro(s.order, j);
            } else {
                assert(m == n as int);
            }
        } else {
            let q = lemma_stack_true_destruct(s2.stack, m);
            assert(s2.stack[q] == s.stack[q]);
            lemma_stack_true_intro(s.stack, q);
        }
    }
    assert(inv_visited(s2));

    assert forall|q: int| 0 <= q < s2.stack.len() && (#[trigger] s2.stack[q]).1 implies
        true_frame_ok(nodes, s2, q) by {
        assert(s2.stack[q] == s.stack[q]);
        assert(true_frame_ok(nodes, s, q));
        let m = s.stack[q].0;
        assert(s.stack[topq].0 < m);
        assert forall|q2: int| q < q2 < s2.stack.len() implies (#[trigger] s2.stack[q2]).0 < m by {
            assert(s2.stack[q2] == s.stack[q2]);
        }
        assert(!in_order(s2.order, m as int)) by {
            if in_order(s2.order, m as int) {
                let j = lemma_in_order_destruct(s2.order, m as int);
                if j < s.order.len() {
                    assert(s2.order[j] == s.order[j]);
                    lemma_in_order_intro(s.order, j);
                }
            }
        }
        assert forall|p: int| 0 <= p < nodes[m as int].prev.len() implies in_order(
            s2.order,
            #[trigger] nodes[m as int].prev[p] as int,
        ) || pending_above(s2.stack, q, nodes[m as int].prev[p]) by {
            let a = nodes[m as int].prev[p];
            if in_order(s.order, a as int) {
                let j = lemma_in_order_destruct(s.order, a as int);
                assert(s2.order[j] == s.order[j]);
                lemma_in_order_intro(s2.order, j);
            } else {
                assert(pending_above(s.stack, q, a));
                let q2 = lemma_pending_above_destruct(s.stack, q, a);
                if q2 == topq {
                    lemma_in_order_intro(s2.order, s.order.len() as int);
                } else {
                    assert(s2.stack[q2] == s.stack[q2]);
                    lemma_pending_above_intro(s2.stack, q, q2);
                }
            }
        }
    }

    assert forall|j1: int, j2: int|
        0 <= j1 < s2.order.len() && 0 <= j2 < s2.order.len() && j1 != j2 implies s2.order[j1]
        != s2.order[j2] by {
        if j1 < s.order.len() && j2 < s.order.len() {
            assert(s.order[j1] != s.order[j2]);
        } else {
            let jo = if j1 < s.order.len() {
                j1
            } else {
                j2
            };
            assert(s2.order[jo] == s.order[jo]);
            if s.order[jo] == n {
                lemma_in_order_intro(s.order, jo);
            }
        }
    }
    assert(s2.order.no_duplicates());
    assert forall|j: int, p: int|
        0 <= j < s2.order.len() && 0 <= p < nodes[s2.order[j] as int].prev.len() implies
        order_has_before(s2.order, j, #[trigger] nodes[s2.order[j] as int].prev[p]) by {
        let a = nodes[s2.order[j] as int].prev[p];
        if j < s.order.len() {
            assert(s2.order[j] == s.order[j]);
            assert(a == nodes[s.order[j] as int].prev[p]);
            assert(order_has_before(s.order, j, a));
            let j2 = lemma_order_has_before_destruct(s.order, j, a);
            assert(s2.order[j2] == s.order[j2]);
            lemma_order_has_before_intro(s2.order, j, j2);
        } else {
            assert(s2.order[j] == n);
            if pending_above(s.stack, topq, a) {
                let q2 = lemma_pending_above_destruct(s.stack, topq, a);
            }
            assert(in_order(s.order, a as int));
            let j2 = lemma_in_order_destruct(s.order, a as int);
            assert(s2.order[j2] == s.order[j2]);
            lemma_order_has_before_intro(s2.order, j, j2);
        }
    }

    assert forall|q: int| 0 <= q < s2.stack.len() implies reaches(
        nodes,
        root,
        (#[trigger] s2.stack[q]).0 as int,
    ) by {
        assert(s2.stack[q] == s.stack[q]);
    }
    assert forall|m: int, p: int|
        s2.visited.contains(m) && 0 <= p < nodes[m].prev.len() implies s2.visited.contains(
        (#[trigger] nodes[m].prev[p]) as int,
    ) || on_stack(s2.stack, nodes[m].prev[p] as int) by {
        let a = nodes[m].prev[p] as int;
        assert(s.visited.contains(m));
        if !s.visited.contains(a) {
            assert(on_stack(s.stack, a));
            let q = lemma_on_stack_destruct(s.stack, a);
            if q == topq {
                assert(a == n as int);
            } else {
                assert(s2.stack[q] == s.stack[q]);
                lemma_on_stack_intro(s2.stack, q);
            }
        }
    }
    assert(inv_closure(nodes, s2));
    if !s.visited.contains(root) {
        let q = lemma_on_stack_destruct(s.stack, root);
        if q == topq {
            assert(root == n as int);
        } else {
            assert(s2.stack[q] == s.stack[q]);
            lemma_on_stack_intro(s2.stack, q);
        }
    }
}

/// One skipping step keeps the invariant: the popped node is already visited,
/// so every obligation it witnessed is met elsewhere.
proof fn lemma_step_keeps_skip(nodes: Seq<ValueModel>, root: int, s: DfsState)
    requires
        graph_wf(nodes),
        0 <= root < nodes.len(),
        inv(nodes, root, s),
        s.stack.len() > 0,
        !s.stack.last().1,
        s.visited.contains(s.stack.last().0 as int),
    ensures
        inv(nodes, root, dfs_step(nodes, s)),
{
    let f = s.stack.last();
    let n = f.0;
    let topq = s.stack.len() - 1;
    let s2 = dfs_step(nodes, s);
    assert(s2.stack == s.stack.drop_last());
    assert(s2.order == s.order);
    assert(s2.visited == s.visited);
    assert(s.stack[topq] == f);

    assert forall|q: int| 0 <= q < s2.stack.len() implies (#[trigger] s2.stack[q]).0
        < nodes.len() by {
        assert(s2.stack[q] == s.stack[q]);
    }
    assert forall|m: int| #[trigger] s2.visited.contains(m) implies (in_order(s2.order, m)
        || stack_true(s2.stack, m)) by {
        assert(s.visited.contains(m));
        if !in_order(s.order, m) {
            let q = lemma_stack_true_destruct(s.stack, m);
            assert(q != topq);
            assert(s2.stack[q] == s.stack[q]);
            lemma_stack_true_intro(s2.stack, q);
        }
    }
    assert forall|m: int| in_order(s2.order, m) || stack_true(s2.stack, m) implies #[trigger] s2
        .visited.contains(m) by {
        if !in_order(s.order, m) {
            let q = lemma_stack_true_destruct(s2.stack, m);
            assert(s2.stack[q] == s.stack[q]);
            lemma_stack_true_intro(s.stack, q);
        }
    }
    assert(inv_visited(s2));

    assert forall|q: int| 0 <= q < s2.stack.len() && (#[trigger] s2.stack[q]).1 implies
        true_frame_ok(nodes, s2, q) by {
        assert(s2.stack[q] == s.stack[q]);
        assert(true_frame_ok(nodes, s, q));
        let m = s.stack[q].0;
        assert(node_wf(nodes, m as int));
        assert forall|q2: int| q < q2 < s2.stack.len() implies (#[trigger] s2.stack[q2]).0 < m by {
            assert(s2.stack[q2] == s.stack[q2]);
        }
        assert forall|p: int| 0 <= p < nodes[m as int].prev.len() implies in_order(
            s2.order,
            #[trigger] nodes[m as int].prev[p] as int,
        ) || pending_above(s2.stack, q, nodes[m as int].prev[p]) by {
            let a = nodes[m as int].prev[p];
            assert(a < m);
            if !in_order(s.order, a as int) {
                assert(pending_above(s.stack, q, a));
                let q2 = lemma_pending_above_destruct(s.stack, q, a);
                if q2 == topq {
                    // the popped frame was the witness: its node is visited,
                    // so an expanded frame for it sits elsewhere on the stack
                    assert(a == n);
                    assert(s.visited.contains(a as int));
                    if in_order(s.order, a as int) {
                    } else {
                        let q3 = lemma_stack_true_destruct(s.stack, a as int);
                        assert(q3 != topq);
                        assert(s.stack[q3].0 == a);
                        if q3 == q {
                            assert(false);
                        }
                        if q3 < q {
                            assert(true_frame_ok(nodes, s, q3));
                            assert(s.stack[q].0 < s.stack[q3].0);
                            assert(false);
                        }
                        assert(s2.stack[q3] == s.stack[q3]);
                        lemma_pending_above_intro(s2.stack, q, q3);
                    }
                } else {
                    assert(s2.stack[q2] == s.stack[q2]);
                    lemma_pending_above_intro(s2.stack, q, q2);
                }
            }
        }
    }

    assert forall|q: int| 0 <= q < s2.stack.len() implies reaches(
        nodes,
        root,
        (#[trigger] s2.stack[q]).0 as int,
    ) by {
        assert(s2.stack[q] == s.stack[q]);
    }
    assert forall|m: int, p: int|
        s2.visited.contains(m) && 0 <= p < nodes[m].prev.len() implies s2.visited.contains(
        (#[trigger] nodes[m].prev[p]) as int,
    ) || on_stack(s2.stack, nodes[m].prev[p] as int) by {
        let a = nodes[m].prev[p] as int;
        assert(s.visited.contains(m));
        if !s.visited.contains(a) {
            assert(on_stack(s.stack, a));
            let q = lemma_on_stack_destruct(s.stack, a);
            if q == topq {
                assert(a == n as int);
                assert(false);
            } else {
                assert(s2.stack[q] == s.stack[q]);
                lemma_on_stack_intro(s2.stack, q);
            }
        }
    }
    assert(inv_closure(nodes, s2));
    if !s.visited.contains(root) {
        let q = lemma_on_stack_destruct(s.stack, root);
        if q == topq {
            assert(false);
        } else {
            assert(s2.stack[q] == s.stack[q]);
            lemma_on_stack_intro(s2.stack, q);
        }
    }
}

/// One expanding step keeps the invariant: the fresh node becomes visited and
/// pending, and its operand frames stand above its own expanded frame.
proof fn lemma_step_keeps_expand(nodes: Seq<ValueModel>, root: int, s: DfsState)
    requires
        graph_wf(nodes),
        0 <= root < nodes.len(),
        inv(nodes, root, s),
        s.stack.len() > 0,
        !s.stack.last().1,
        !s.visited.contains(s.stack.last().0 as int),
    ensures
        inv(nodes, root, dfs_step(nodes, s)),
{
    let f = s.stack.last();
    let n = f.0;
    let topq = s.stack.len() - 1;
    let s2 = dfs_step(nodes, s);
    let prev = nodes[n as int].prev;
    let pl = prev.len() as int;
    assert(s.stack[topq] == f);
    assert(n < nodes.len());
    assert(node_wf(nodes, n as int));
    assert(s2.stack == s.stack.drop_last().push((n, true)) + frames_of(prev));
    assert(s2.order == s.order);
    assert(s2.visited == s.visited.insert(n as int));
    assert(s2.stack.len() == topq + 1 + pl);
    assert forall|q: int| 0 <= q < topq implies s2.stack[q] == s.stack[q] by {
        assert(s2.stack[q] == s.stack.drop_last().push((n, true))[q]);
    }
    assert(s2.stack[topq] == (n, true)) by {
        assert(s2.stack[topq] == s.stack.drop_last().push((n, true))[topq]);
    }
    assert forall|k: int| 0 <= k < pl implies #[trigger] s2.stack[topq + 1 + k] == ((
        prev[pl - 1 - k],
        false,
    )) by {
        assert(s2.stack[topq + 1 + k] == frames_of(prev)[k]);
    }
    lemma_step_wf(nodes, s);

    assert forall|m: int| #[trigger] s2.visited.contains(m) implies (in_order(s2.order, m)
        || stack_true(s2.stack, m)) by {
        if m == n as int {
            lemma_stack_true_intro(s2.stack, topq);
        } else {
            assert(s.visited.contains(m));
            if !in_order(s.order, m) {
                let q = lemma_stack_true_destruct(s.stack, m);
                assert(q != topq);
                lemma_stack_true_intro(s2.stack, q);
            }
        }
    }
    assert forall|m: int| in_order(s2.order, m) || stack_true(s2.stack, m) implies #[trigger] s2
        .visited.contains(m) by {
        if in_order(s2.order, m) {
            assert(s.visited.contains(m));
        } else {
            let q = lemma_stack_true_destruct(s2.stack, m);
            if q < topq {
                lemma_stack_true_intro(s.stack, q);
                assert(s.visited.contains(m));
            } else if q == topq {
                assert(m == n as int);
            } else {
                assert(s2.stack[q] == ((prev[pl - 1 - (q - topq - 1)], false)));
                assert(false);
            }
        }
    }
    assert(inv_visited(s2));

    assert forall|q: int| 0 <= q < s2.stack.len() && (#[trigger] s2.stack[q]).1 implies
        true_frame_ok(nodes, s2, q) by {
        if q > topq {
            assert(s2.stack[q] == ((prev[pl - 1 - (q - topq - 1)], false)));
            assert(false);
        }
        if q == topq {
            assert forall|q2: int| q < q2 < s2.stack.len() implies (#[trigger] s2.stack[q2]).0
                < n by {
                assert(s2.stack[q2] == ((prev[pl - 1 - (q2 - topq - 1)], false)));
            }
            assert(!in_order(s2.order, n as int)) by {
                if in_order(s.order, n as int) {
                    assert(s.visited.contains(n as int));
                }
            }
            assert forall|p: int| 0 <= p < nodes[n as int].prev.len() implies in_order(
                s2.order,
                #[trigger] nodes[n as int].prev[p] as int,
            ) || pending_above(s2.stack, topq, nodes[n as int].prev[p]) by {
                let q2 = topq + 1 + (pl - 1 - p);
                assert(s2.stack[q2] == ((prev[pl - 1 - (pl - 1 - p)], false)));
                assert(s2.stack[q2].0 == prev[p]);
                lemma_pending_above_intro(s2.stack, topq, q2);
            }
        } else {
            assert(s2.stack[q] == s.stack[q]);
            assert(true_frame_ok(nodes, s, q));
            let m = s.stack[q].0;
            assert(s.stack[topq].0 < m);
            assert forall|q2: int| q < q2 < s2.stack.len() implies (#[trigger] s2.stack[q2]).0
                < m by {
                if q2 < topq {
                    assert(s2.stack[q2] == s.stack[q2]);
                } else if q2 == topq {
                    assert(s2.stack[q2].0 == n);
                } else {
                    assert(s2.stack[q2] == ((prev[pl - 1 - (q2 - topq - 1)], false)));
                    assert(s2.stack[q2].0 < n);
                }
            }
            assert forall|p: int| 0 <= p < nodes[m as int].prev.len() implies in_order(
                s2.order,
                #[trigger] nodes[m as int].prev[p] as int,
            ) || pending_above(s2.stack, q, nodes[m as int].prev[p]) by {
                let a = nodes[m as int].prev[p];
                if !in_order(s.order, a as int) {
                    assert(pending_above(s.stack, q, a));
                    let q2 = lemma_pending_above_destruct(s.stack, q, a);
                    if q2 == topq {
                        assert(s2.stack[topq].0 == a);
                        lemma_pending_above_intro(s2.stack, q, topq);
                    } else {
                        assert(s2.stack[q2] == s.stack[q2]);
                        lemma_pending_above_intro(s2.stack, q, q2);
                    }
                }
            }
        }
    }

    assert forall|m: int| #[trigger] s2.visited.contains(m) implies reaches(nodes, root, m) by {
        if m == n as int {
            assert(reaches(nodes, root, s.stack[topq].0 as int));
        } else {
            assert(s.visited.contains(m));
        }
    }
    assert forall|q: int| 0 <= q < s2.stack.len() implies reaches(
        nodes,
        root,
        (#[trigger] s2.stack[q]).0 as int,
    ) by {
        if q < topq {
            assert(s2.stack[q] == s.stack[q]);
        } else if q == topq {
            assert(s2.stack[q].0 == n);
            assert(reaches(nodes, root, s.stack[topq].0 as int));
        } else {
            let p = pl - 1 - (q - topq - 1);
            assert(s2.stack[q] == ((prev[pl - 1 - (q - topq - 1)], false)));
            assert(s2.stack[q].0 == prev[p]);
            assert(reaches(nodes, root, s.stack[topq].0 as int));
            lemma_reaches_edge(nodes, root, n as int, p);
        }
    }
    assert forall|m: int, p: int|
        s2.visited.contains(m) && 0 <= p < nodes[m].prev.len() implies s2.visited.contains(
        (#[trigger] nodes[m].prev[p]) as int,
    ) || on_stack(s2.stack, nodes[m].prev[p] as int) by {
        let a = nodes[m].prev[p] as int;
        if m == n as int {
            let q2 = topq + 1 + (pl - 1 - p);
            assert(s2.stack[q2] == ((prev[pl - 1 - (pl - 1 - p)], false)));
            assert(s2.stack[q2].0 == prev[p]);
            lemma_on_stack_intro(s2.stack, q2);
        } else {
            assert(s.visited.contains(m));
            if !s.visited.contains(a) {
                assert(on_stack(s.stack, a));
                let q = lemma_on_stack_destruct(s.stack, a);
                if q == topq {
                    assert(a == n as int);
                } else {
                    assert(s2.stack[q] == s.stack[q]);
                    lemma_on_stack_intro(s2.stack, q);
                }
            }
        }
    }
    assert(inv_closure(nodes, s2));
    if !s.visited.contains(root) {
        let q = lemma_on_stack_destruct(s.stack, root);
        if q == topq {
            assert(root == n as int);
        } else {
            assert(s2.stack[q] == s.stack[q]);
            lemma_on_stack_intro(s2.stack, q);
        }
    }
}

/// The invariant carries from any state to the traversal's fixpoint, whose
/// stack is empty.
proof fn lemma_run_keeps(nodes: Seq<ValueModel>, root: int, s: DfsState)
    requires
        graph_wf(nodes),
        0 <= root < nodes.len(),
        inv(nodes, root, s),
    ensures
        inv(nodes, root, dfs_run(nodes, s)),
        dfs_run(nodes, s).stack.len() == 0,
    decreases nodes.len() - s.visited.len(), s.stack.len(),
{
    if s.stack.len() > 0 {
        lemma_step_wf(nodes, s);
        let f = s.stack.last();
        if f.1 {
            lemma_step_keeps_emit(nodes, root, s);
        } else if s.visited.contains(f.0 as int) {
            lemma_step_keeps_skip(nodes, root, s);
        } else {
            lemma_step_keeps_expand(nodes, root, s);
        }
        lemma_run_keeps(nodes, root, dfs_step(nodes, s));
    }
}

/// The initial state satisfies the invariant.
proof fn lemma_init_inv(nodes: Seq<ValueModel>, root: usize)
    requires
        graph_wf(nodes),
        (root as int) < nodes.len(),
    ensures
        inv(nodes, root as int, init_state(root)),
{
    let s = init_state(root);
    assert(s.stack.len() == 1);
    assert(s.stack[0] == ((root, false)));
    assert forall|m: int| in_order(s.order, m) || stack_true(s.stack, m) implies #[trigger] s
        .visited.contains(m) by {
        if in_order(s.order, m) {
            let j = lemma_in_order_destruct(s.order, m);
        } else {
            let q = lemma_stack_true_destruct(s.stack, m);
            assert(s.stack[q] == ((root, false)));
        }
    }
    assert(inv_visited(s));
    assert forall|q: int| 0 <= q < s.stack.len() && (#[trigger] s.stack[q]).1 implies
        true_frame_ok(nodes, s, q) by {
        assert(s.stack[q] == ((root, false)));
    }
    assert(s.order.no_duplicates());
    assert forall|q: int| 0 <= q < s.stack.len() implies reaches(
        nodes,
        root as int,
        (#[trigger] s.stack[q]).0 as int,
    ) by {
        assert(s.stack[q] == ((root, false)));
        assert(reaches(nodes, root as int, root as int));
    }
    lemma_on_stack_intro(s.stack, 0);
}

/// What the post-order from `root` guarantees: no node twice, exactly the
/// reachable nodes, and every node after its operands.
pub proof fn lemma_topo_props(nodes: Seq<ValueModel>, root: usize)
    requires
        graph_wf(nodes),
        (root as int) < nodes.len(),
    ensures
        topo_spec(nodes, root).no_duplicates(),
        forall|n: int|
            #![trigger in_order(topo_spec(nodes, root), n)]
            #![trigger reaches(nodes, root as int, n)]
            in_order(topo_spec(nodes, root), n) <==> reaches(nodes, root as int, n),
        forall|j: int, p: int|
            #![trigger nodes[topo_spec(nodes, root)[j] as int].prev[p]]
            0 <= j < topo_spec(nodes, root).len() && 0 <= p < nodes[topo_spec(nodes, root)[j] as int].prev.len()
                ==> order_has_before(
                topo_spec(nodes, root),
                j,
                nodes[topo_spec(nodes, root)[j] as int].prev[p],
            ),
{
    lemma_init_inv(nodes, root);
    lemma_run_keeps(nodes, root as int, init_state(root));
    let fin = dfs_run(nodes, init_state(root));
    let order = topo_spec(nodes, root);
    assert(fin.order == order);
    assert(fin.visited.contains(root as int)) by {
        if on_stack(fin.stack, root as int) {
            let q = lemma_on_stack_destruct(fin.stack, root as int);
        }
    }
    assert forall|m: int, p: int|
        #![trigger fin.visited.contains(m), nodes[m].prev[p]]
        fin.visited.contains(m) && 0 <= m < nodes.len() && 0 <= p < nodes[m].prev.len() implies fin
        .visited.contains(nodes[m].prev[p] as int) by {
        if on_stack(fin.stack, nodes[m].prev[p] as int) {
            let q = lemma_on_stack_destruct(fin.stack, nodes[m].prev[p] as int);
        }
    }
    assert forall|n: int| in_order(order, n) implies reaches(nodes, root as int, n) by {
        assert(fin.visited.contains(n));
    }
    assert forall|n: int| reaches(nodes, root as int, n) implies in_order(order, n) by {
        lemma_reach_closed(nodes, fin.visited, root as int, n);
        if stack_true(fin.stack, n) {
            let q = lemma_stack_true_destruct(fin.stack, n);
        }
        assert(in_order(fin.order, n));
    }
}

} // verus!
