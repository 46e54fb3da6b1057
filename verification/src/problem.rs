//! The immutable problem input: nodes with time windows and cost
//! coefficients, and edge sets that are either permanently fixed
//! precedence constraints (singleton sets) or open disjunctions.

use vstd::prelude::*;

verus! {

/// A precedence constraint: when committed, `time(tgt) >= time(src) + weight`.
#[derive(Clone, Copy, Debug, PartialEq, Eq, Structural)]
pub struct Edge {
    pub src: u32,
    pub tgt: u32,
    pub weight: i32,
}

/// A problem node: admissible time window `[lb, ub]`, and a linear cost
/// `coeff * max(0, time - threshold)` incurred for time past `threshold`.
#[derive(Clone, Copy, Debug, PartialEq, Eq, Structural)]
pub struct Node {
    pub lb: i32,
    pub ub: i32,
    pub coeff: u32,
    pub threshold: i32,
}

/// A whole problem: an edge set of length 0 makes it infeasible, length 1
/// is a permanently fixed edge, length 2 or more is an open disjunction.
pub struct DisjunctiveGraph {
    pub nodes: Vec<Node>,
    pub edge_sets: Vec<Vec<Edge>>,
}

/// The largest cost a single node can ever contribute: its position never
/// exceeds `ub`, so the contribution is at most `coeff * max(0, ub - threshold)`.
pub open spec fn node_cost_cap(n: Node) -> int {
    if n.ub - n.threshold > 0 {
        n.coeff * (n.ub - n.threshold)
    } else {
        0
    }
}

/// Sum of all nodes' largest possible cost contributions.
pub open spec fn cost_budget(nodes: Seq<Node>) -> int
    decreases nodes.len(),
{
    if nodes.len() == 0 {
        0
    } else {
        cost_budget(nodes.drop_last()) + node_cost_cap(nodes.last())
    }
}

impl DisjunctiveGraph {
    /// A well-formed problem: every time window is non-empty, every edge
    /// points at existing nodes, and the largest possible objective value
    /// is machine-representable.
    pub open spec fn wf(self) -> bool {
        &&& forall|i: int|
            0 <= i < self.nodes@.len() ==> (#[trigger] self.nodes@[i]).lb <= self.nodes@[i].ub
        &&& forall|s: int, j: int|
            0 <= s < self.edge_sets@.len() && 0 <= j < self.edge_sets@[s]@.len() ==> {
                &&& (#[trigger] self.edge_sets@[s]@[j]).src < self.nodes@.len()
                &&& self.edge_sets@[s]@[j].tgt < self.nodes@.len()
            }
        &&& cost_budget(self.nodes@) <= i64::MAX
    }
}

/// A prefix of nodes never exceeds the whole cost budget.
pub proof fn lemma_cost_budget_prefix(nodes: Seq<Node>, k: int)
    requires
        0 <= k <= nodes.len(),
    ensures
        cost_budget(nodes.take(k)) <= cost_budget(nodes),
    decreases nodes.len(),
{
    if k == nodes.len() {
        assert(nodes.take(k) =~= nodes);
    } else {
        assert(nodes.drop_last().take(k) =~= nodes.take(k));
        lemma_cost_budget_prefix(nodes.drop_last(), k);
        let c = nodes.last().coeff as int;
        let d = nodes.last().ub - nodes.last().threshold;
        if d > 0 {
            assert(c * d >= 0) by (nonlinear_arith)
                requires
                    c >= 0,
                    d > 0,
            ;
        }
        assert(node_cost_cap(nodes.last()) >= 0);
    }
}

} // verus!
