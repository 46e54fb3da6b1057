//! Incremental longest-path propagation engine.
//!
//! The engine keeps, for every node, the earliest time consistent with all
//! committed precedence edges, and a linear objective over those times. An
//! edge can be pushed (propagating forward, failing on infeasibility) and
//! the most recently pushed edge can be popped, restoring every position
//! and the objective exactly, via a trail of (node, previous position)
//! entries and a stack of trail-length checkpoints.

use vstd::prelude::*;

use crate::problem::Edge;

verus! {

pub type Time = i64;

/// Per-node propagation state: current earliest time, release time (the
/// initial position), cost threshold, admissible upper bound, and cost
/// coefficient.
pub struct EngineNode {
    pub position: Time,
    pub lb: Time,
    pub delayed_after: Time,
    pub ub: Time,
    pub coeff: u32,
}

/// The cost a node contributes to the objective: `coeff * max(0, position - delayed_after)`.
pub open spec fn obj_term(nd: EngineNode) -> int {
    if nd.position - nd.delayed_after > 0 {
        nd.coeff * (nd.position - nd.delayed_after)
    } else {
        0
    }
}

/// The largest cost a node can ever contribute, since its position never
/// exceeds `ub`.
pub open spec fn term_cap(nd: EngineNode) -> int {
    if nd.ub - nd.delayed_after > 0 {
        nd.coeff * (nd.ub - nd.delayed_after)
    } else {
        0
    }
}

/// The objective value determined by a sequence of nodes.
pub open spec fn obj_sum(s: Seq<EngineNode>) -> int
    decreases s.len(),
{
    if s.len() == 0 {
        0
    } else {
        obj_sum(s.drop_last()) + obj_term(s.last())
    }
}

/// The largest objective value a sequence of nodes can ever produce.
pub open spec fn cap_sum(s: Seq<EngineNode>) -> int
    decreases s.len(),
{
    if s.len() == 0 {
        0
    } else {
        cap_sum(s.drop_last()) + term_cap(s.last())
    }
}

/// Nodes agree on everything but (possibly) their current position.
pub open spec fn same_meta(a: EngineNode, b: EngineNode) -> bool {
    a.lb == b.lb && a.delayed_after == b.delayed_after && a.ub == b.ub && a.coeff == b.coeff
}

/// Apply the trail entries at indices `upto..` backwards: each entry
/// `(node, prev)` restores `prev` as the position of `node`. This is the
/// exact-rollback reading of the trail.
pub open spec fn undo_trail(pos: Seq<Time>, trail: Seq<(u32, Time)>, upto: int) -> Seq<Time>
    decreases trail.len(),
{
    if trail.len() <= upto || trail.len() == 0 {
        pos
    } else {
        undo_trail(pos.update(trail.last().0 as int, trail.last().1), trail.drop_last(), upto)
    }
}

/// Append one committed edge to an adjacency structure.
pub open spec fn push_adj(adj: Seq<Seq<(u32, Time)>>, e: Edge) -> Seq<Seq<(u32, Time)>> {
    adj.update(e.src as int, adj[e.src as int].push((e.tgt, e.weight as Time)))
}

/// The adjacency structure reached from `base` by committing `edges` in order.
pub open spec fn adj_after(base: Seq<Seq<(u32, Time)>>, edges: Seq<Edge>) -> Seq<Seq<(u32, Time)>>
    decreases edges.len(),
{
    if edges.len() == 0 {
        base
    } else {
        push_adj(adj_after(base, edges.drop_last()), edges.last())
    }
}

/// Every edge of `adj` is satisfied by the positions `p`:
/// `p[tgt] >= p[src] + weight`.
pub open spec fn sat_positions(adj: Seq<Seq<(u32, Time)>>, p: Seq<Time>) -> bool {
    forall|i: int, j: int|
        0 <= i < adj.len() && 0 <= j < adj[i].len() ==> p[(#[trigger] adj[i][j]).0 as int] >= p[i]
            + adj[i][j].1
}

pub proof fn lemma_obj_term_bounds(nd: EngineNode)
    ensures
        0 <= obj_term(nd),
        nd.position <= nd.ub ==> obj_term(nd) <= term_cap(nd),
        0 <= term_cap(nd),
{
    assert(nd.position - nd.delayed_after > 0 ==> nd.coeff * (nd.position - nd.delayed_after)
        >= 0) by (nonlinear_arith);
    assert(nd.ub - nd.delayed_after > 0 ==> nd.coeff * (nd.ub - nd.delayed_after) >= 0)
        by (nonlinear_arith);
    if nd.position <= nd.ub && nd.position - nd.delayed_after > 0 {
        assert(nd.coeff * (nd.position - nd.delayed_after) <= nd.coeff * (nd.ub
            - nd.delayed_after)) by (nonlinear_arith)
            requires
                nd.position <= nd.ub,
                nd.position - nd.delayed_after > 0,
        ;
    }
}

pub proof fn lemma_obj_sum_nonneg(s: Seq<EngineNode>)
    ensures
        0 <= obj_sum(s),
        0 <= cap_sum(s),
    decreases s.len(),
{
    if s.len() > 0 {
        lemma_obj_sum_nonneg(s.drop_last());
        lemma_obj_term_bounds(s.last());
    }
}

/// When every position is within its bound, the objective is between 0 and
/// the cost budget.
pub proof fn lemma_obj_le_cap(s: Seq<EngineNode>)
    requires
        forall|i: int| 0 <= i < s.len() ==> (#[trigger] s[i]).position <= s[i].ub,
    ensures
        obj_sum(s) <= cap_sum(s),
    decreases s.len(),
{
    if s.len() > 0 {
        lemma_obj_le_cap(s.drop_last());
        lemma_obj_term_bounds(s.last());
    }
}

/// A single node's contributions are bounded by the whole sums.
pub proof fn lemma_term_le_sum(s: Seq<EngineNode>, i: int)
    requires
        0 <= i < s.len(),
    ensures
        obj_term(s[i]) <= obj_sum(s),
        term_cap(s[i]) <= cap_sum(s),
    decreases s.len(),
{
    lemma_obj_term_bounds(s.last());
    if i == s.len() - 1 {
        lemma_obj_sum_nonneg(s.drop_last());
    } else {
        lemma_term_le_sum(s.drop_last(), i);
    }
}

/// Updating one node's position shifts the objective by the difference of
/// the node's terms and leaves the cost budget unchanged.
pub proof fn lemma_obj_sum_update(s: Seq<EngineNode>, i: int, nd: EngineNode)
    requires
        0 <= i < s.len(),
        same_meta(s[i], nd),
    ensures
        obj_sum(s.update(i, nd)) == obj_sum(s) - obj_term(s[i]) + obj_term(nd),
        cap_sum(s.update(i, nd)) == cap_sum(s),
    decreases s.len(),
{
    let su = s.update(i, nd);
    if i == s.len() - 1 {
        assert(su.drop_last() =~= s.drop_last());
        assert(su.last() == nd);
    } else {
        lemma_obj_sum_update(s.drop_last(), i, nd);
        assert(su.drop_last() =~= s.drop_last().update(i, nd));
        assert(su.last() == s.last());
    }
}

/// Rolling back to a checkpoint `a` can be done in two stages: first to a
/// later checkpoint `b`, then the rest on the truncated trail.
pub proof fn lemma_undo_compose(pos: Seq<Time>, trail: Seq<(u32, Time)>, a: int, b: int)
    requires
        0 <= a <= b <= trail.len(),
    ensures
        undo_trail(pos, trail, a) == undo_trail(undo_trail(pos, trail, b), trail.take(b), a),
    decreases trail.len(),
{
    if trail.len() == b {
        assert(trail.take(b) =~= trail);
        assert(undo_trail(pos, trail, b) == pos);
    } else {
        let pos1 = pos.update(trail.last().0 as int, trail.last().1);
        assert(trail.take(b) =~= trail.drop_last().take(b));
        lemma_undo_compose(pos1, trail.drop_last(), a, b);
    }
}

/// Sum of the returned (node, cost delta) pairs.
pub open spec fn sum_deltas(deltas: Seq<(u32, Time)>) -> int
    decreases deltas.len(),
{
    if deltas.len() == 0 {
        0
    } else {
        sum_deltas(deltas.drop_last()) + deltas.last().1
    }
}

/// The total delta reported for node `i`.
pub open spec fn node_delta_sum(deltas: Seq<(u32, Time)>, i: int) -> int
    decreases deltas.len(),
{
    if deltas.len() == 0 {
        0
    } else {
        node_delta_sum(deltas.drop_last(), i) + (if deltas.last().0 as int == i {
            deltas.last().1 as int
        } else {
            0
        })
    }
}

pub proof fn lemma_sum_deltas_nonneg(deltas: Seq<(u32, Time)>)
    requires
        forall|k: int| 0 <= k < deltas.len() ==> (#[trigger] deltas[k]).1 > 0,
    ensures
        sum_deltas(deltas) >= 0,
    decreases deltas.len(),
{
    if deltas.len() > 0 {
        lemma_sum_deltas_nonneg(deltas.drop_last());
    }
}

/// A prefix of positive deltas sums to no more than the whole.
pub proof fn lemma_sum_deltas_prefix(deltas: Seq<(u32, Time)>, k: int)
    requires
        0 <= k <= deltas.len(),
        forall|j: int| 0 <= j < deltas.len() ==> (#[trigger] deltas[j]).1 > 0,
    ensures
        0 <= sum_deltas(deltas.take(k)) <= sum_deltas(deltas),
    decreases deltas.len(),
{
    lemma_sum_deltas_nonneg(deltas.take(k));
    if k == deltas.len() {
        assert(deltas.take(k) =~= deltas);
    } else {
        assert(deltas.drop_last().take(k) =~= deltas.take(k));
        lemma_sum_deltas_prefix(deltas.drop_last(), k);
    }
}

/// How far a node's position can still rise.
pub open spec fn slack_term(nd: EngineNode) -> int {
    nd.ub - nd.position
}

/// Total remaining slack; strictly shrinks with every propagation write,
/// which bounds propagation.
pub open spec fn slack_sum(s: Seq<EngineNode>) -> int
    decreases s.len(),
{
    if s.len() == 0 {
        0
    } else {
        slack_sum(s.drop_last()) + slack_term(s.last())
    }
}

pub proof fn lemma_slack_nonneg(s: Seq<EngineNode>)
    requires
        forall|i: int| 0 <= i < s.len() ==> (#[trigger] s[i]).position <= s[i].ub,
    ensures
        slack_sum(s) >= 0,
    decreases s.len(),
{
    if s.len() > 0 {
        lemma_slack_nonneg(s.drop_last());
    }
}

pub proof fn lemma_slack_sum_update(s: Seq<EngineNode>, i: int, nd: EngineNode)
    requires
        0 <= i < s.len(),
        same_meta(s[i], nd),
    ensures
        slack_sum(s.update(i, nd)) == slack_sum(s) - slack_term(s[i]) + slack_term(nd),
    decreases s.len(),
{
    let su = s.update(i, nd);
    if i == s.len() - 1 {
        assert(su.drop_last() =~= s.drop_last());
    } else {
        lemma_slack_sum_update(s.drop_last(), i, nd);
        assert(su.drop_last() =~= s.drop_last().update(i, nd));
        assert(su.last() == s.last());
    }
}

/// A higher position never contributes less cost.
pub proof fn lemma_obj_term_monotone(a: EngineNode, b: EngineNode)
    requires
        same_meta(a, b),
        a.position <= b.position,
    ensures
        obj_term(a) <= obj_term(b),
{
    if a.position - a.delayed_after > 0 {
        assert(a.coeff * (a.position - a.delayed_after) <= a.coeff * (b.position
            - b.delayed_after)) by (nonlinear_arith)
            requires
                a.position <= b.position,
                a.delayed_after == b.delayed_after,
                a.position - a.delayed_after > 0,
        ;
    } else {
        lemma_obj_term_bounds(b);
    }
}

/// Inserting into a worklist keeps every element already in it.
pub proof fn lemma_insert_keeps(s: Seq<u32>, i: int, v: u32, x: u32)
    requires
        0 <= i <= s.len(),
        s.contains(x),
    ensures
        s.insert(i, v).contains(x),
{
    let q = choose|q: int| 0 <= q < s.len() && s[q] == x;
    if q < i {
        assert(s.insert(i, v)[q] == x);
    } else {
        assert(s.insert(i, v)[q + 1] == x);
    }
}

/// Committing edges only appends to adjacency rows: what was there stays.
pub proof fn lemma_adj_after_prefix(base: Seq<Seq<(u32, Time)>>, edges: Seq<Edge>)
    requires
        forall|k: int| 0 <= k < edges.len() ==> (#[trigger] edges[k]).src < base.len(),
    ensures
        adj_after(base, edges).len() == base.len(),
        forall|i: int|
            0 <= i < base.len() ==> base[i].is_prefix_of(#[trigger] adj_after(base, edges)[i]),
    decreases edges.len(),
{
    lemma_adj_after_len(base, edges);
    if edges.len() > 0 {
        assert forall|k: int|
            0 <= k < edges.drop_last().len() implies (#[trigger] edges.drop_last()[k]).src
            < base.len() by {
            assert(edges.drop_last()[k] == edges[k]);
        }
        lemma_adj_after_prefix(base, edges.drop_last());
        lemma_adj_after_len(base, edges.drop_last());
        assert forall|i: int|
            0 <= i < base.len() implies base[i].is_prefix_of(
            #[trigger] adj_after(base, edges)[i],
        ) by {
            let prow = adj_after(base, edges.drop_last())[i];
            assert(base[i].is_prefix_of(prow));
            if i == edges.last().src as int {
                let nrow = prow.push((edges.last().tgt, edges.last().weight as Time));
                assert(adj_after(base, edges)[i] == nrow);
                assert(nrow.subrange(0, base[i].len() as int) =~= prow.subrange(
                    0,
                    base[i].len() as int,
                ));
            } else {
                assert(adj_after(base, edges)[i] == prow);
            }
        }
    }
}

/// Committing edges never changes the number of adjacency rows.
pub proof fn lemma_adj_after_len(base: Seq<Seq<(u32, Time)>>, edges: Seq<Edge>)
    requires
        forall|k: int| 0 <= k < edges.len() ==> (#[trigger] edges[k]).src < base.len(),
    ensures
        adj_after(base, edges).len() == base.len(),
    decreases edges.len(),
{
    if edges.len() > 0 {
        lemma_adj_after_len(base, edges.drop_last());
    }
}

/// What `pop` does: the engine returns to the exact state recorded before
/// the most recently pushed edge, and `changed` lists the restored nodes,
/// most recently trailed first.
pub open spec fn pop_rel(pre: LongestPaths, post: LongestPaths, changed: Seq<u32>) -> bool {
    let lim = pre.lims().last() as int;
    let e = pre.committed().last();
    &&& post.nodes_seq().len() == pre.nodes_seq().len()
    &&& forall|i: int|
        0 <= i < post.nodes_seq().len() ==> same_meta(
            #[trigger] post.nodes_seq()[i],
            pre.nodes_seq()[i],
        )
    &&& post.positions() == undo_trail(pre.positions(), pre.trail_seq(), lim)
    &&& post.committed() == pre.committed().drop_last()
    &&& post.lims() == pre.lims().drop_last()
    &&& post.trail_seq() == pre.trail_seq().take(lim)
    &&& post.adj() == pre.adj().update(e.src as int, pre.adj()[e.src as int].drop_last())
    &&& post.objective() == obj_sum(post.nodes_seq())
    &&& post.base() == pre.base()
    &&& changed.len() == pre.trail_seq().len() - lim
    &&& forall|j: int|
        0 <= j < changed.len() ==> #[trigger] changed[j] == pre.trail_seq()[pre.trail_seq().len()
            - 1 - j].0
}

/// What a successful `push_edge` does: the edge is appended to the
/// adjacency structure and the undo stack, a new checkpoint marks the old
/// trail length, positions only rise (and rolling the new trail entries
/// back restores them exactly), every committed edge is satisfied
/// afterwards, and the objective grows by exactly the returned deltas.
/// `q` is a feasible way to raise the positions `p0` under the edges of
/// `adj`: no position drops, every upper bound is kept, every edge holds.
pub open spec fn valid_extension(
    nodes: Seq<EngineNode>,
    adj: Seq<Seq<(u32, Time)>>,
    p0: Seq<Time>,
    q: Seq<Time>,
) -> bool {
    &&& q.len() == p0.len()
    &&& forall|i: int| 0 <= i < q.len() ==> #[trigger] q[i] >= p0[i]
    &&& forall|i: int| 0 <= i < q.len() ==> #[trigger] q[i] <= nodes[i].ub
    &&& sat_positions(adj, q)
}

/// The edges of `adj` admit feasible positions at or above `p0`: no upper
/// bound is forced past and no positive-weight cycle closes.
pub open spec fn can_extend(
    nodes: Seq<EngineNode>,
    adj: Seq<Seq<(u32, Time)>>,
    p0: Seq<Time>,
) -> bool {
    exists|q: Seq<Time>| valid_extension(nodes, adj, p0, q)
}

/// The same nodes carrying the positions `q`.
pub open spec fn with_positions(nodes: Seq<EngineNode>, q: Seq<Time>) -> Seq<EngineNode> {
    Seq::new(
        nodes.len(),
        |i: int|
            EngineNode {
                position: q[i],
                lb: nodes[i].lb,
                delayed_after: nodes[i].delayed_after,
                ub: nodes[i].ub,
                coeff: nodes[i].coeff,
            },
    )
}

/// The longest-path closure: the pointwise-least feasible raising of `p0`
/// under the edges of `adj`, when one exists at all.
pub open spec fn least_extension(
    nodes: Seq<EngineNode>,
    adj: Seq<Seq<(u32, Time)>>,
    p0: Seq<Time>,
) -> Seq<Time> {
    choose|q: Seq<Time>|
        #[trigger] valid_extension(nodes, adj, p0, q) && (forall|q2: Seq<Time>|
            #[trigger] valid_extension(nodes, adj, p0, q2) ==> forall|i: int|
                0 <= i < q.len() ==> #[trigger] q[i] <= q2[i])
}

/// The least extension is unique, so any witness of leastness is it.
pub proof fn lemma_least_extension_unique(
    nodes: Seq<EngineNode>,
    adj: Seq<Seq<(u32, Time)>>,
    p0: Seq<Time>,
    q: Seq<Time>,
)
    requires
        valid_extension(nodes, adj, p0, q),
        forall|q2: Seq<Time>|
            #[trigger] valid_extension(nodes, adj, p0, q2) ==> forall|i: int|
                0 <= i < q.len() ==> #[trigger] q[i] <= q2[i],
    ensures
        least_extension(nodes, adj, p0) == q,
{
    let l = least_extension(nodes, adj, p0);
    assert(valid_extension(nodes, adj, p0, l) && (forall|q2: Seq<Time>|
        #[trigger] valid_extension(nodes, adj, p0, q2) ==> forall|i: int|
            0 <= i < l.len() ==> #[trigger] l[i] <= q2[i]));
    assert(l =~= q);
}

/// A successful push leaves the engine exactly at the longest-path closure.
pub proof fn lemma_push_computes_closure(
    pre: LongestPaths,
    edge: Edge,
    post: LongestPaths,
    deltas: Seq<(u32, Time)>,
)
    requires
        push_success_rel(pre, edge, post, deltas),
    ensures
        post.positions() == least_extension(
            pre.nodes_seq(),
            push_adj(pre.adj(), edge),
            pre.positions(),
        ),
        post.nodes_seq() == with_positions(pre.nodes_seq(), post.positions()),
{
    let nx = pre.nodes_seq();
    let ax = push_adj(pre.adj(), edge);
    let p0 = pre.positions();
    assert(valid_extension(nx, ax, p0, post.positions())) by {
        assert forall|i: int| 0 <= i < post.positions().len() implies #[trigger] post.positions()[i]
            <= nx[i].ub by {
            assert(same_meta(post.nodes_seq()[i], pre.nodes_seq()[i]));
        }
    }
    lemma_least_extension_unique(nx, ax, p0, post.positions());
    assert forall|i: int| 0 <= i < nx.len() implies #[trigger] post.nodes_seq()[i]
        == with_positions(nx, post.positions())[i] by {
        assert(same_meta(post.nodes_seq()[i], pre.nodes_seq()[i]));
        assert(post.nodes_seq()[i].position == post.positions()[i]);
    }
    assert(post.nodes_seq() =~= with_positions(nx, post.positions()));
}

pub open spec fn push_success_rel(
    pre: LongestPaths,
    edge: Edge,
    post: LongestPaths,
    deltas: Seq<(u32, Time)>,
) -> bool {
    let n = pre.nodes_seq().len() as int;
    let t0 = pre.trail_seq().len() as int;
    &&& post.nodes_seq().len() == n
    &&& forall|i: int|
        0 <= i < n ==> same_meta(#[trigger] post.nodes_seq()[i], pre.nodes_seq()[i])
    &&& post.adj() == push_adj(pre.adj(), edge)
    &&& post.committed() == pre.committed().push(edge)
    &&& post.lims() == pre.lims().push(pre.trail_seq().len() as usize)
    &&& post.trail_seq().len() >= t0
    &&& post.trail_seq().take(t0) == pre.trail_seq()
    &&& undo_trail(post.positions(), post.trail_seq(), t0) == pre.positions()
    &&& forall|i: int| 0 <= i < n ==> #[trigger] post.positions()[i] >= pre.positions()[i]
    &&& forall|i: int|
        0 <= i < n ==> #[trigger] post.positions()[i] <= pre.nodes_seq()[i].ub
    &&& sat_positions(post.adj(), post.positions())
    // the new positions are the longest-path closure: the pointwise-least
    // feasible raising of the old positions under the extended edge set
    &&& forall|q: Seq<Time>|
        #[trigger] valid_extension(pre.nodes_seq(), push_adj(pre.adj(), edge), pre.positions(), q)
            ==> forall|i: int| 0 <= i < n ==> #[trigger] post.positions()[i] <= q[i]
    &&& post.objective() == pre.objective() + sum_deltas(deltas)
    &&& post.objective() >= pre.objective()
    &&& forall|k: int|
        0 <= k < deltas.len() ==> (#[trigger] deltas[k]).1 > 0 && (deltas[k].0 as int) < n
    // grouped by node, the deltas are exactly each node's cost growth
    &&& forall|i: int|
        0 <= i < n ==> node_delta_sum(deltas, i) == obj_term(#[trigger] post.nodes_seq()[i])
            - obj_term(pre.nodes_seq()[i])
    &&& post.base() == pre.base()
}

/// The incremental longest-path engine.
pub struct LongestPaths {
    nodes: Vec<EngineNode>,
    outgoing: Vec<Vec<(u32, Time)>>,
    edge_undo_stack: Vec<Edge>,
    trail: Vec<(u32, Time)>,
    trail_lim: Vec<usize>,
    objective_value: i64,
    base_adj: Ghost<Seq<Seq<(u32, Time)>>>,
}

impl LongestPaths {
    /// The nodes, as an abstract sequence.
    pub closed spec fn nodes_seq(self) -> Seq<EngineNode> {
        self.nodes@
    }

    /// The current position of every node.
    pub open spec fn positions(self) -> Seq<Time> {
        self.nodes_seq().map(|_i: int, nd: EngineNode| nd.position)
    }

    /// The adjacency structure of all committed edges.
    pub closed spec fn adj(self) -> Seq<Seq<(u32, Time)>> {
        self.outgoing@.map(|_i: int, v: Vec<(u32, Time)>| v@)
    }

    /// The non-fixed edges committed so far, oldest first.
    pub closed spec fn committed(self) -> Seq<Edge> {
        self.edge_undo_stack@
    }

    /// The trail of (node, previous position) entries.
    pub closed spec fn trail_seq(self) -> Seq<(u32, Time)> {
        self.trail@
    }

    /// The trail-length checkpoints, one per committed edge.
    pub closed spec fn lims(self) -> Seq<usize> {
        self.trail_lim@
    }

    /// The incrementally maintained objective value.
    pub closed spec fn objective(self) -> int {
        self.objective_value as int
    }

    /// The fixed adjacency structure beneath all committed edges.
    pub closed spec fn base(self) -> Seq<Seq<(u32, Time)>> {
        self.base_adj@
    }

    /// Trail position marking the rollback point of level `k`: level `k`
    /// (for `k < lims.len()`) is the state just before the `k`-th committed
    /// edge was pushed; level `lims.len()` is the current state.
    pub open spec fn level_lim(self, k: int) -> int {
        if k == self.lims().len() {
            self.trail_seq().len() as int
        } else {
            self.lims()[k] as int
        }
    }

    /// The node positions of rollback level `k`.
    pub open spec fn level_positions(self, k: int) -> Seq<Time> {
        undo_trail(self.positions(), self.trail_seq(), self.level_lim(k))
    }

    /// The adjacency structure of rollback level `k`.
    pub open spec fn level_adj(self, k: int) -> Seq<Seq<(u32, Time)>> {
        adj_after(self.base(), self.committed().take(k))
    }

    /// Rollback level `k` is a consistent engine state: in-range positions
    /// that satisfy every edge committed at that level.
    pub open spec fn level_good(self, k: int) -> bool {
        let p = self.level_positions(k);
        &&& p.len() == self.nodes_seq().len()
        &&& forall|i: int|
            0 <= i < p.len() ==> self.nodes_seq()[i].lb <= #[trigger] p[i]
                <= self.nodes_seq()[i].ub
        &&& sat_positions(self.level_adj(k), p)
    }

    /// Engine well-formedness, preserved by every operation. The full
    /// invariant `wf` additionally says that every committed edge is
    /// satisfied by the current positions; `wf_core` alone holds in the
    /// middle of propagation, where the newest edge is still being
    /// propagated, and is all that an exact rollback needs.
    pub closed spec fn wf_core(self) -> bool {
        let n = self.nodes@.len() as int;
        &&& n <= u32::MAX
        &&& self.outgoing@.len() == n
        &&& self.trail_lim@.len() == self.edge_undo_stack@.len()
        &&& forall|i: int, j: int|
            0 <= i <= j < self.trail_lim@.len() ==> #[trigger] self.trail_lim@[i]
                <= #[trigger] self.trail_lim@[j]
        &&& forall|i: int| 0 <= i < self.trail_lim@.len() ==> #[trigger] self.trail_lim@[i] <= self.trail@.len()
        &&& forall|k: int|
            0 <= k < self.trail@.len() ==> {
                &&& (#[trigger] self.trail@[k]).0 < n
                &&& self.nodes@[self.trail@[k].0 as int].lb <= self.trail@[k].1 <= self.nodes@[self.trail@[k].0 as int].ub
            }
        &&& forall|i: int|
            0 <= i < n ==> {
                &&& (#[trigger] self.nodes@[i]).lb <= self.nodes@[i].position <= self.nodes@[i].ub
                &&& i32::MIN <= self.nodes@[i].lb
                &&& self.nodes@[i].ub <= i32::MAX
                &&& i32::MIN <= self.nodes@[i].delayed_after <= i32::MAX
            }
        &&& forall|i: int, j: int|
            0 <= i < n && 0 <= j < self.adj()[i].len() ==> {
                &&& (#[trigger] self.adj()[i][j]).0 < n
                &&& i32::MIN <= self.adj()[i][j].1 <= i32::MAX
            }
        &&& forall|i: int, j: int|
            0 <= i < self.base_adj@.len() && 0 <= j < self.base_adj@[i].len() ==> {
                &&& (#[trigger] self.base_adj@[i][j]).0 < n
                &&& i32::MIN <= self.base_adj@[i][j].1 <= i32::MAX
            }
        &&& self.base_adj@.len() == n
        &&& forall|k: int|
            0 <= k < self.edge_undo_stack@.len() ==> {
                &&& (#[trigger] self.edge_undo_stack@[k]).src < n
                &&& self.edge_undo_stack@[k].tgt < n
            }
        &&& cap_sum(self.nodes@) <= i64::MAX
        &&& self.objective_value == obj_sum(self.nodes@)
        &&& self.adj() == adj_after(self.base_adj@, self.edge_undo_stack@)
        &&& forall|k: int| 0 <= k < self.edge_undo_stack@.len() ==> self.level_good(k)
    }

    /// Full well-formedness: a consistent rollback structure and every
    /// committed edge satisfied by the current positions.
    pub closed spec fn wf(self) -> bool {
        &&& self.wf_core()
        &&& sat_positions(self.adj(), self.positions())
    }

    /// The objective value is exactly the nodes' summed cost contributions:
    /// with the positions pinned, so is the objective.
    pub proof fn lemma_objective_is_sum(self)
        requires
            self.wf_core(),
        ensures
            self.objective() == obj_sum(self.nodes_seq()),
    {
    }

    /// Full well-formedness includes the rollback-structure core.
    pub proof fn lemma_wf_implies_core(self)
        requires
            self.wf(),
        ensures
            self.wf_core(),
    {
    }

    /// In a well-formed engine the objective is a machine-representable,
    /// non-negative value, and every position is in the 32-bit range, at or
    /// above the node's own lower bound.
    pub proof fn lemma_state_in_range(self)
        requires
            self.wf_core(),
        ensures
            0 <= self.objective() <= i64::MAX,
            forall|i: int|
                0 <= i < self.positions().len() ==> i32::MIN <= #[trigger] self.positions()[i]
                    <= i32::MAX,
            forall|i: int|
                0 <= i < self.positions().len() ==> self.nodes_seq()[i].lb
                    <= #[trigger] self.positions()[i] && self.positions()[i]
                    <= self.nodes_seq()[i].ub,
            self.positions().len() == self.nodes_seq().len(),
    {
        lemma_obj_sum_nonneg(self.nodes@);
    }

    /// Before any non-fixed edge is pushed, the adjacency structure is
    /// exactly the permanently fixed one.
    pub proof fn lemma_base_is_adj_at_root(self)
        requires
            self.wf_core(),
            self.committed().len() == 0,
        ensures
            self.base() == self.adj(),
    {
    }

    /// The current positions satisfy every edge of the fixed structure
    /// beneath the committed ones.
    pub proof fn lemma_base_satisfied(self)
        requires
            self.wf(),
        ensures
            sat_positions(self.base(), self.positions()),
    {
        lemma_adj_after_prefix(self.base_adj@, self.edge_undo_stack@);
        assert forall|i: int, j: int|
            0 <= i < self.base().len() && 0 <= j < self.base()[i].len() implies self.positions()[(
        #[trigger] self.base()[i][j]).0 as int] >= self.positions()[i] + self.base()[i][j].1 by {
            assert(self.base()[i].is_prefix_of(self.adj()[i]));
            assert(self.base()[i][j] == self.adj()[i].subrange(0, self.base()[i].len() as int)[j]);
            assert(self.adj()[i][j] == self.base()[i][j]);
        }
    }

    /// Two engines are observably equal: same nodes, committed edges,
    /// trail, checkpoints, and objective.
    pub open spec fn same_state(self, other: LongestPaths) -> bool {
        &&& self.nodes_seq() == other.nodes_seq()
        &&& self.adj() == other.adj()
        &&& self.committed() == other.committed()
        &&& self.trail_seq() == other.trail_seq()
        &&& self.lims() == other.lims()
        &&& self.objective() == other.objective()
        &&& self.base() == other.base()
    }

    /// Number of nodes.
    pub fn num_nodes(&self) -> (r: usize)
        ensures
            r == self.nodes_seq().len(),
    {
        self.nodes.len()
    }

    /// Current position (earliest feasible time) of node `i`.
    pub fn position(&self, i: usize) -> (r: Time)
        requires
            i < self.nodes_seq().len(),
        ensures
            r == self.positions()[i as int],
            self.wf_core() ==> i32::MIN <= r <= i32::MAX,
            self.wf_core() ==> self.nodes_seq()[i as int].lb <= r,
    {
        self.nodes[i].position
    }

    /// The current objective value.
    pub fn objective_value(&self) -> (r: i64)
        ensures
            r == self.objective(),
            self.wf_core() ==> 0 <= r,
    {
        proof {
            if self.wf_core() {
                lemma_obj_sum_nonneg(self.nodes@);
            }
        }
        self.objective_value
    }

    /// Number of committed (popable) edges.
    pub fn depth(&self) -> (r: usize)
        ensures
            r == self.committed().len(),
    {
        self.edge_undo_stack.len()
    }

    /// A fresh engine with no nodes and no edges.
    pub fn new() -> (r: LongestPaths)
        ensures
            r.wf(),
            r.nodes_seq().len() == 0,
            r.committed().len() == 0,
            r.lims().len() == 0,
            r.trail_seq().len() == 0,
            r.adj().len() == 0,
            r.objective() == 0,
    {
        let r = LongestPaths {
            nodes: Vec::new(),
            outgoing: Vec::new(),
            edge_undo_stack: Vec::new(),
            trail: Vec::new(),
            trail_lim: Vec::new(),
            objective_value: 0,
            base_adj: Ghost(Seq::empty()),
        };
        proof {
            assert(r.adj() =~= Seq::<Seq<(u32, Time)>>::empty());
            assert(r.positions() =~= Seq::<Time>::empty());
            assert forall|k: int| 0 <= k <= r.edge_undo_stack@.len() implies r.level_good(k) by {
                assert(r.committed().take(k) =~= Seq::<Edge>::empty());
            }
            assert(sat_positions(r.adj(), r.positions()));
        }
        r
    }

    /// Undo the most recently pushed edge: remove it from the adjacency
    /// structure and restore every trailed position, recomputing the
    /// objective as it goes. Returns the restored nodes, most recently
    /// trailed first. Must be called in exact LIFO order with `push_edge`.
    pub fn pop(&mut self) -> (changed: Vec<u32>)
        requires
            old(self).wf_core(),
            old(self).committed().len() > 0,
        ensures
            final(self).wf(),
            pop_rel(*old(self), *final(self), changed@),
    {
        let ghost pre = *self;
        proof {
            assert(pre.adj() == push_adj(
                adj_after(pre.base(), pre.committed().drop_last()),
                pre.committed().last(),
            ));
        }
        let e = self.edge_undo_stack.pop().unwrap();
        let lim = self.trail_lim.pop().unwrap();
        proof {
            let x = adj_after(pre.base(), pre.committed().drop_last());
            assert(x.len() == pre.base().len()) by {
                lemma_adj_after_len(pre.base(), pre.committed().drop_last());
            }
            assert(pre.adj()[e.src as int] == x[e.src as int].push((e.tgt, e.weight as Time)));
            assert(pre.adj()[e.src as int].len() > 0);
            assert(pre.adj()[e.src as int] == pre.outgoing@[e.src as int]@);
        }
        let row = &mut self.outgoing[e.src as usize];
        row.pop();
        proof {
            assert(self.outgoing@[e.src as int]@ == pre.outgoing@[e.src as int]@.drop_last());
            assert forall|i: int|
                0 <= i < self.outgoing@.len() && i != e.src as int implies self.outgoing@[i]
                == pre.outgoing@[i] by {}
            assert(self.adj() =~= pre.adj().update(
                e.src as int,
                pre.adj()[e.src as int].drop_last(),
            ));
            assert(self.trail@ =~= pre.trail@.take(self.trail@.len() as int));
        }
        let mut changed: Vec<u32> = Vec::new();
        while self.trail.len() > lim
            invariant
                pre.wf_core(),
                pre.committed().len() > 0,
                e == pre.committed().last(),
                lim == pre.lims().last(),
                lim <= self.trail@.len(),
                self.nodes@.len() == pre.nodes@.len(),
                forall|i: int|
                    0 <= i < self.nodes@.len() ==> {
                        &&& same_meta(#[trigger] self.nodes@[i], pre.nodes@[i])
                        &&& self.nodes@[i].lb <= self.nodes@[i].position <= self.nodes@[i].ub
                    },
                self.trail@ == pre.trail@.take(self.trail@.len() as int),
                undo_trail(self.positions(), self.trail@, lim as int) == undo_trail(
                    pre.positions(),
                    pre.trail_seq(),
                    lim as int,
                ),
                self.objective_value == obj_sum(self.nodes@),
                cap_sum(self.nodes@) == cap_sum(pre.nodes@),
                self.edge_undo_stack@ == pre.committed().drop_last(),
                self.trail_lim@ == pre.lims().drop_last(),
                self.adj() == pre.adj().update(e.src as int, pre.adj()[e.src as int].drop_last()),
                self.outgoing@.len() == pre.outgoing@.len(),
                self.base_adj@ == pre.base_adj@,
                changed@.len() == pre.trail@.len() - self.trail@.len(),
                forall|j: int|
                    0 <= j < changed@.len() ==> #[trigger] changed@[j] == pre.trail@[pre.trail@.len()
                        - 1 - j].0,
            decreases self.trail@.len(),
        {
            let ghost trail_before = self.trail@;
            let ghost pos_before = self.positions();
            let entry = self.trail.pop().unwrap();
            let nidx = entry.0 as usize;
            let p = entry.1;
            proof {
                assert(entry == pre.trail@[trail_before.len() - 1]);
                assert(nidx < self.nodes@.len());
                lemma_term_le_sum(self.nodes@, nidx as int);
                lemma_obj_le_cap(self.nodes@);
                lemma_obj_sum_nonneg(self.nodes@);
            }
            let old_comp = Self::obj_component(&self.nodes[nidx]);
            self.objective_value = self.objective_value - old_comp;
            let ghost nodes_before = self.nodes@;
            self.nodes[nidx].position = p;
            proof {
                lemma_obj_sum_update(nodes_before, nidx as int, self.nodes@[nidx as int]);
                lemma_obj_term_bounds(self.nodes@[nidx as int]);
                lemma_obj_le_cap(self.nodes@);
                lemma_obj_sum_nonneg(self.nodes@);
                lemma_term_le_sum(self.nodes@, nidx as int);
            }
            let new_comp = Self::obj_component(&self.nodes[nidx]);
            self.objective_value = self.objective_value + new_comp;
            changed.push(entry.0);
            proof {
                assert(self.positions() =~= pos_before.update(nidx as int, p));
                assert(self.trail@ =~= pre.trail@.take(self.trail@.len() as int));
                assert(undo_trail(pos_before, trail_before, lim as int) == undo_trail(
                    self.positions(),
                    self.trail@,
                    lim as int,
                ));
            }
        }
        proof {
            let m = pre.committed().len() as int;
            let liml = pre.lims().last() as int;
            assert(undo_trail(self.positions(), self.trail@, lim as int) == self.positions());
            // the adjacency structure is again generated from the base
            let x = adj_after(pre.base(), pre.committed().drop_last());
            lemma_adj_after_len(pre.base(), pre.committed().drop_last());
            assert(pre.adj() == push_adj(x, pre.committed().last()));
            assert(pre.adj()[e.src as int] == x[e.src as int].push((e.tgt, e.weight as Time)));
            assert(x[e.src as int].push((e.tgt, e.weight as Time)).drop_last() =~= x[
                e.src as int
            ]);
            assert(self.adj() =~= x);
            // every remaining rollback level is untouched
            assert forall|k: int| 0 <= k <= self.edge_undo_stack@.len() implies self.level_good(
                k,
            ) by {
                assert(pre.level_good(k));
                assert(self.committed().take(k) =~= pre.committed().take(k));
                assert(self.level_lim(k) == pre.lims()[k]);
                assert(pre.lims()[k] <= liml);
                lemma_undo_compose(pre.positions(), pre.trail_seq(), pre.lims()[k] as int, liml);
                assert(self.level_positions(k) == pre.level_positions(k));
            }
            assert(pre.level_good(m - 1));
            assert(pre.level_lim(m - 1) == liml);
            // the restored state satisfies all of its own committed edges
            let newm = self.edge_undo_stack@.len() as int;
            assert(self.committed().take(newm) =~= self.committed());
            assert(self.level_adj(newm) == self.adj());
            assert(self.level_positions(newm) == self.positions());
            assert(self.level_good(newm));
            assert(sat_positions(self.adj(), self.positions()));
        }
        changed
    }

    /// Attempt to commit one more edge on top of the current state,
    /// propagating positions forward along outgoing edges. On success,
    /// returns `true` together with the per-write (node, cost delta) pairs
    /// whose sum is the objective increase. If propagation would push
    /// positive slack back into `edge.src` (a cycle) or exceed a node's
    /// upper bound, the edge is rolled back exactly and the call returns
    /// `false` with the state unchanged.
    #[verifier::loop_isolation(false)]
    #[verifier::rlimit(100)]
    #[verifier::spinoff_prover]
    pub fn push_edge(&mut self, edge: Edge) -> (r: (bool, Vec<(u32, Time)>))
        requires
            old(self).wf(),
            edge.src < old(self).nodes_seq().len(),
            edge.tgt < old(self).nodes_seq().len(),
        ensures
            final(self).wf(),
            r.0 <==> can_extend(
                old(self).nodes_seq(),
                push_adj(old(self).adj(), edge),
                old(self).positions(),
            ),
            r.0 ==> push_success_rel(*old(self), edge, *final(self), r.1@),
            !r.0 ==> final(self).same_state(*old(self)) && r.1@.len() == 0,
    {
        let ghost pre = *self;
        let ghost n = pre.nodes_seq().len() as int;
        let ghost t0 = pre.trail_seq().len() as int;
        let ghost nx = pre.nodes_seq();
        let ghost ax = push_adj(pre.adj(), edge);
        let ghost p0 = pre.positions();
        let tlen = self.trail.len();
        let row = &mut self.outgoing[edge.src as usize];
        row.push((edge.tgt, edge.weight as i64));
        self.edge_undo_stack.push(edge);
        self.trail_lim.push(tlen);
        let mut deltas: Vec<(u32, Time)> = Vec::new();
        let mut queue: Vec<u32> = Vec::new();
        queue.push(edge.src);
        proof {
            assert(self.adj() =~= push_adj(pre.adj(), edge));
            assert(self.trail@.take(t0) =~= pre.trail@);
            assert(self.edge_undo_stack@.drop_last() =~= pre.committed());
            assert(adj_after(self.base_adj@, self.edge_undo_stack@) == push_adj(
                adj_after(self.base_adj@, pre.committed()),
                edge,
            ));
            assert(queue@.contains(edge.src)) by {
                assert(queue@[0] == edge.src);
            }
            assert(deltas@ =~= Seq::<(u32, Time)>::empty());
            assert(forall|i: int| 0 <= i < n ==> node_delta_sum(deltas@, i) == 0);
        }
        while queue.len() > 0
            invariant
                self.nodes@.len() == n,
                forall|i: int|
                    0 <= i < n ==> {
                        &&& same_meta(#[trigger] self.nodes@[i], pre.nodes@[i])
                        &&& self.nodes@[i].lb <= self.nodes@[i].position <= self.nodes@[i].ub
                        &&& self.nodes@[i].position >= pre.nodes@[i].position
                    },
                self.outgoing@.len() == n,
                self.adj() == push_adj(pre.adj(), edge),
                forall|i: int, jj: int|
                    0 <= i < n && 0 <= jj < self.adj()[i].len() ==> {
                        &&& ((#[trigger] self.adj()[i][jj]).0 as int) < n
                        &&& i32::MIN <= self.adj()[i][jj].1 <= i32::MAX
                    },
                self.edge_undo_stack@ == pre.committed().push(edge),
                self.trail_lim@ == pre.lims().push(t0 as usize),
                self.base_adj@ == pre.base_adj@,
                self.trail@.len() >= t0,
                self.trail@.take(t0) == pre.trail@,
                forall|k: int|
                    0 <= k < self.trail@.len() ==> {
                        &&& (#[trigger] self.trail@[k]).0 < n
                        &&& self.nodes@[self.trail@[k].0 as int].lb <= self.trail@[k].1
                            <= self.nodes@[self.trail@[k].0 as int].ub
                    },
                undo_trail(self.positions(), self.trail@, t0) == pre.positions(),
                self.objective_value == obj_sum(self.nodes@),
                cap_sum(self.nodes@) == cap_sum(pre.nodes@),
                self.objective_value == pre.objective() + sum_deltas(deltas@),
                forall|i: int|
                    0 <= i < n ==> node_delta_sum(deltas@, i) == obj_term(
                        #[trigger] self.nodes@[i],
                    ) - obj_term(pre.nodes@[i]),
                forall|k: int|
                    0 <= k < deltas@.len() ==> (#[trigger] deltas@[k]).1 > 0 && (deltas@[k].0
                        as int) < n,
                forall|q: int| 0 <= q < queue@.len() ==> (#[trigger] queue@[q]) < n,
                self.positions()[edge.src as int] == p0[edge.src as int],
                forall|q: Seq<Time>|
                    #[trigger] valid_extension(nx, ax, p0, q) ==> forall|i: int|
                        0 <= i < n ==> #[trigger] q[i] >= self.positions()[i],
                forall|q: Seq<Time>|
                    #[trigger] valid_extension(nx, ax, p0, q) ==> forall|i: int|
                        0 <= i < n && self.positions()[i] > p0[i] ==> #[trigger] q[i]
                            >= self.positions()[i] + q[edge.src as int] - p0[edge.src as int],
                forall|qi: int|
                    0 <= qi < queue@.len() ==> (#[trigger] queue@[qi]) == edge.src
                        || self.positions()[queue@[qi] as int] > p0[queue@[qi] as int],
                forall|i: int, jj: int|
                    0 <= i < n && 0 <= jj < self.adj()[i].len() ==> {
                        self.positions()[(#[trigger] self.adj()[i][jj]).0 as int]
                            >= self.positions()[i] + self.adj()[i][jj].1 || queue@.contains(
                            i as u32,
                        )
                    },
            decreases slack_sum(self.nodes@), queue@.len(),
        {
            proof {
                lemma_slack_nonneg(self.nodes@);
            }
            let ghost nodes_at_start = self.nodes@;
            let ghost queue_at_head = queue@;
            let node_u = queue.pop().unwrap();
            let ghost queue_after_pop = queue@;
            let node = node_u as usize;
            let deg = self.outgoing[node].len();
            let mut j: usize = 0;
            proof {
                assert(forall|i: int|
                    0 <= i < n ==> node_delta_sum(deltas@, i) == obj_term(
                        #[trigger] self.nodes@[i],
                    ) - obj_term(pre.nodes@[i]));
                assert(self.adj()[node as int] == self.outgoing@[node as int]@);
                assert(queue_at_head.last() == node_u);
                // popping this node keeps every other queued node covered
                assert forall|i: int, jj: int|
                    0 <= i < n && 0 <= jj < self.adj()[i].len() && i != node as int
                        && !(self.positions()[(#[trigger] self.adj()[i][jj]).0 as int]
                        >= self.positions()[i] + self.adj()[i][jj].1) implies queue@.contains(
                    i as u32,
                ) by {
                    assert(queue_at_head.contains(i as u32));
                    let q = choose|q: int|
                        0 <= q < queue_at_head.len() && queue_at_head[q] == i as u32;
                    assert(i as u32 != node_u);
                    assert(q < queue_at_head.len() - 1);
                    assert(queue@[q] == i as u32);
                }
            }
            while j < deg
                invariant
                    j <= deg,
                    self.nodes@.len() == n,
                    forall|i: int|
                        0 <= i < n ==> {
                            &&& same_meta(#[trigger] self.nodes@[i], pre.nodes@[i])
                            &&& self.nodes@[i].lb <= self.nodes@[i].position <= self.nodes@[i].ub
                            &&& self.nodes@[i].position >= pre.nodes@[i].position
                        },
                    self.outgoing@.len() == n,
                    self.adj() == push_adj(pre.adj(), edge),
                    deg == self.adj()[node as int].len(),
                    forall|i: int, jj: int|
                        0 <= i < n && 0 <= jj < self.adj()[i].len() ==> {
                            &&& ((#[trigger] self.adj()[i][jj]).0 as int) < n
                            &&& i32::MIN <= self.adj()[i][jj].1 <= i32::MAX
                        },
                    self.edge_undo_stack@ == pre.committed().push(edge),
                    self.trail_lim@ == pre.lims().push(t0 as usize),
                    self.base_adj@ == pre.base_adj@,
                    self.trail@.len() >= t0,
                    self.trail@.take(t0) == pre.trail@,
                    forall|k: int|
                        0 <= k < self.trail@.len() ==> {
                            &&& (#[trigger] self.trail@[k]).0 < n
                            &&& self.nodes@[self.trail@[k].0 as int].lb <= self.trail@[k].1
                                <= self.nodes@[self.trail@[k].0 as int].ub
                        },
                    undo_trail(self.positions(), self.trail@, t0) == pre.positions(),
                    self.objective_value == obj_sum(self.nodes@),
                    cap_sum(self.nodes@) == cap_sum(pre.nodes@),
                    self.objective_value == pre.objective() + sum_deltas(deltas@),
                    forall|i: int|
                        0 <= i < n ==> node_delta_sum(deltas@, i) == obj_term(
                            #[trigger] self.nodes@[i],
                        ) - obj_term(pre.nodes@[i]),
                    forall|k: int|
                        0 <= k < deltas@.len() ==> (#[trigger] deltas@[k]).1 > 0 && (deltas@[k].0
                            as int) < n,
                    forall|q: int| 0 <= q < queue@.len() ==> (#[trigger] queue@[q]) < n,
                    // all edges out of other nodes, and the already processed
                    // edges of this node, are satisfied or their source is queued
                    forall|i: int, jj: int|
                        0 <= i < n && 0 <= jj < self.adj()[i].len() && (i != node as int || jj < j)
                            ==> {
                            self.positions()[(#[trigger] self.adj()[i][jj]).0 as int]
                                >= self.positions()[i] + self.adj()[i][jj].1 || queue@.contains(
                                i as u32,
                            )
                        },
                    self.positions()[edge.src as int] == p0[edge.src as int],
                    forall|q: Seq<Time>|
                        #[trigger] valid_extension(nx, ax, p0, q) ==> forall|i: int|
                            0 <= i < n ==> #[trigger] q[i] >= self.positions()[i],
                    forall|q: Seq<Time>|
                        #[trigger] valid_extension(nx, ax, p0, q) ==> forall|i: int|
                            0 <= i < n && self.positions()[i] > p0[i] ==> #[trigger] q[i]
                                >= self.positions()[i] + q[edge.src as int] - p0[edge.src as int],
                    forall|qi: int|
                        0 <= qi < queue@.len() ==> (#[trigger] queue@[qi]) == edge.src
                            || self.positions()[queue@[qi] as int] > p0[queue@[qi] as int],
                    node_u == edge.src || self.positions()[node as int] > p0[node as int],
                    (self.nodes@ == nodes_at_start && queue@ == queue_after_pop) || slack_sum(
                        self.nodes@,
                    ) < slack_sum(nodes_at_start),
                decreases deg - j,
            {
                let e2 = self.outgoing[node][j];
                let next_u = e2.0;
                let dist = e2.1;
                let next = next_u as usize;
                proof {
                    assert(self.adj()[node as int][j as int] == (next_u, dist));
                    assert((next_u as int) < n);
                }
                let target = self.nodes[node].position + dist;
                if self.nodes[next].position < target {
                    if next_u == edge.src || target > self.nodes[next].ub {
                        // infeasible: any feasible raising of the old positions
                        // would also have to raise past this bound (or around
                        // this positive cycle), so none exists
                        proof {
                            assert forall|q: Seq<Time>| !valid_extension(nx, ax, p0, q) by {
                                if valid_extension(nx, ax, p0, q) {
                                    assert(q[next as int] >= q[node as int] + dist);
                                    if node_u == edge.src {
                                        assert(q[node as int] >= self.positions()[node as int]);
                                    } else {
                                        assert(q[node as int] >= self.positions()[node as int]
                                            + q[edge.src as int] - p0[edge.src as int]);
                                    }
                                    if target > self.nodes@[next as int].ub {
                                        assert(q[edge.src as int] >= p0[edge.src as int]);
                                        assert(nx[next as int].ub == self.nodes@[next as int].ub);
                                        assert(q[next as int] <= nx[next as int].ub);
                                        assert(false);
                                    } else {
                                        // next_u == edge.src: a positive cycle
                                        assert(q[next as int] == q[edge.src as int]);
                                        assert(self.positions()[next as int] == p0[
                                            edge.src as int
                                        ]);
                                        assert(false);
                                    }
                                }
                            }
                            assert(!can_extend(nx, ax, p0));
                        }
                        proof {
                            lemma_levels_preserved(pre, *self, edge);
                            assert(self.trail_lim@.last() == t0 as usize);
                            assert(self.edge_undo_stack@.last() == edge);
                        }
                        let ghost at_fail = *self;
                        let _restored = self.pop();
                        proof {
                            assert(self.positions() == pre.positions());
                            assert(self.trail@ =~= pre.trail@);
                            assert(self.edge_undo_stack@ =~= pre.committed());
                            assert(self.trail_lim@ =~= pre.lims());
                            assert(at_fail.adj()[edge.src as int].drop_last() =~= pre.adj()[
                                edge.src as int
                            ]);
                            assert(self.adj() =~= pre.adj());
                            assert forall|i: int| 0 <= i < n implies self.nodes@[i] == pre.nodes@[
                                i
                            ] by {
                                assert(self.positions()[i] == pre.positions()[i]);
                                assert(same_meta(self.nodes@[i], pre.nodes@[i]));
                            }
                            assert(self.nodes@ =~= pre.nodes@);
                        }
                        return (false, Vec::new());
                    }
                    // commit the write: trail the old position, update the
                    // objective incrementally, requeue the target
                    let ghost trail_entry = self.trail@;
                    let ghost pos_entry = self.positions();
                    let oldpos = self.nodes[next].position;
                    self.trail.push((next_u, oldpos));
                    proof {
                        lemma_term_le_sum(self.nodes@, next as int);
                        lemma_obj_le_cap(self.nodes@);
                        lemma_obj_sum_nonneg(self.nodes@);
                    }
                    let old_comp = Self::obj_component(&self.nodes[next]);
                    self.objective_value = self.objective_value - old_comp;
                    let ghost nodes_before = self.nodes@;
                    let ghost pos_before = self.positions();
                    self.nodes[next].position = target;
                    proof {
                        lemma_obj_sum_update(nodes_before, next as int, self.nodes@[next as int]);
                        lemma_obj_term_bounds(self.nodes@[next as int]);
                        lemma_obj_le_cap(self.nodes@);
                        lemma_obj_sum_nonneg(self.nodes@);
                        lemma_term_le_sum(self.nodes@, next as int);
                        lemma_obj_term_monotone(nodes_before[next as int], self.nodes@[next as int]);
                        lemma_slack_sum_update(nodes_before, next as int, self.nodes@[next as int]);
                        if nodes_before != nodes_at_start {
                            lemma_slack_nonneg(self.nodes@);
                        }
                    }
                    let new_comp = Self::obj_component(&self.nodes[next]);
                    self.objective_value = self.objective_value + new_comp;
                    let delta = new_comp - old_comp;
                    let ghost deltas_before = deltas@;
                    if delta > 0 {
                        deltas.push((next_u, delta));
                        proof {
                            assert(deltas@.drop_last() =~= deltas_before);
                        }
                    }
                    proof {
                        // per-node attribution: only this node's term moved
                        assert forall|i: int|
                            0 <= i < n implies node_delta_sum(deltas@, i) == obj_term(
                            #[trigger] self.nodes@[i],
                        ) - obj_term(pre.nodes@[i]) by {
                            if delta > 0 {
                                assert(node_delta_sum(deltas@, i) == node_delta_sum(
                                    deltas_before,
                                    i,
                                ) + (if next_u as int == i {
                                    delta as int
                                } else {
                                    0
                                }));
                            }
                            if i != next as int {
                                assert(self.nodes@[i] == nodes_before[i]);
                            }
                        }
                    }
                    proof {
                        assert(self.trail@.drop_last() =~= trail_entry);
                        assert(self.trail@.last() == (next_u, oldpos));
                        assert(self.positions() =~= pos_entry.update(next as int, target));
                        assert(self.positions().update(next as int, oldpos) =~= pos_entry);
                        assert(self.trail@.len() > t0);
                        assert(undo_trail(self.positions(), self.trail@, t0) == undo_trail(
                            pos_entry,
                            trail_entry,
                            t0,
                        ));
                        assert(undo_trail(self.positions(), self.trail@, t0) == pre.positions());
                        assert(self.trail@.take(t0) =~= pre.trail@);
                        // any feasible raising also covers the raised position:
                        // it satisfies this very edge from a source it dominates
                        assert forall|q: Seq<Time>|
                            #[trigger] valid_extension(nx, ax, p0, q) implies (forall|i: int|
                            0 <= i < n && self.positions()[i] > p0[i] ==> #[trigger] q[i]
                                >= self.positions()[i] + q[edge.src as int] - p0[
                            edge.src as int
                        ]) by {
                            assert(q[next as int] >= q[node as int] + dist);
                            if node_u == edge.src {
                                assert(q[node as int] == q[edge.src as int]);
                                assert(pos_entry[node as int] == p0[edge.src as int]);
                            } else {
                                assert(q[node as int] >= pos_entry[node as int] + q[
                                    edge.src as int
                                ] - p0[edge.src as int]);
                            }
                            assert(q[next as int] >= target + q[edge.src as int] - p0[
                                edge.src as int
                            ]);
                            assert forall|i: int|
                                0 <= i < n && self.positions()[i] > p0[i] implies #[trigger] q[i]
                                >= self.positions()[i] + q[edge.src as int] - p0[
                                edge.src as int
                            ] by {
                                if i != next as int {
                                    assert(self.positions()[i] == pos_entry[i]);
                                }
                            }
                        }
                        assert forall|q: Seq<Time>|
                            #[trigger] valid_extension(nx, ax, p0, q) implies (forall|i: int|
                            0 <= i < n ==> #[trigger] q[i] >= self.positions()[i]) by {
                            assert(q[edge.src as int] >= p0[edge.src as int]);
                            assert forall|i: int| 0 <= i < n implies #[trigger] q[i]
                                >= self.positions()[i] by {
                                if self.positions()[i] > p0[i] {
                                    assert(q[i] >= self.positions()[i] + q[edge.src as int] - p0[
                                        edge.src as int
                                    ]);
                                } else {
                                    assert(self.positions()[i] == p0[i]);
                                }
                            }
                        }
                    }
                    // insert into the worklist, highest position first from the back
                    let ghost queue_before_ins = queue@;
                    let mut kk = queue.len();
                    while kk > 0 && self.nodes[queue[kk - 1] as usize].position < target
                        invariant
                            kk <= queue@.len(),
                            queue@ == queue_before_ins,
                        decreases kk,
                    {
                        kk -= 1;
                    }
                    queue.insert(kk, next_u);
                    proof {
                        assert forall|x: u32| queue_before_ins.contains(x) implies queue@.contains(
                            x,
                        ) by {
                            lemma_insert_keeps(queue_before_ins, kk as int, next_u, x);
                        }
                        assert(queue@.contains(next_u)) by {
                            assert(queue@[kk as int] == next_u);
                        }
                        assert forall|q: int| 0 <= q < queue@.len() implies (#[trigger] queue@[q])
                            < n by {
                            if q < kk as int {
                                assert(queue@[q] == queue_before_ins[q]);
                            } else if q > kk as int {
                                assert(queue@[q] == queue_before_ins[q - 1]);
                            }
                        }
                    }
                }
                j += 1;
            }
            proof {
                lemma_slack_nonneg(self.nodes@);
            }
        }
        // queue empty: every committed edge is satisfied
        proof {
            lemma_levels_preserved(pre, *self, edge);
            assert forall|i: int, jj: int|
                0 <= i < n && 0 <= jj < self.adj()[i].len() implies self.positions()[(
            #[trigger] self.adj()[i][jj]).0 as int] >= self.positions()[i] + self.adj()[i][jj].1 by {
                assert(!queue@.contains(i as u32));
            }
            assert(sat_positions(self.adj(), self.positions()));
            lemma_sum_deltas_nonneg(deltas@);
            // the final positions themselves witness feasibility
            assert(valid_extension(nx, ax, p0, self.positions())) by {
                assert(self.positions().len() == p0.len());
                assert forall|i: int| 0 <= i < n implies #[trigger] self.positions()[i] >= p0[i]
                    && self.positions()[i] <= nx[i].ub by {
                    assert(same_meta(self.nodes@[i], pre.nodes@[i]));
                }
            }
            assert(can_extend(nx, ax, p0));
            assert(push_success_rel(pre, edge, *self, deltas@));
        }
        (true, deltas)
    }

    /// Commit an edge that must always hold. Fails (returning `false`,
    /// engine unchanged) if propagation would exceed some node's upper
    /// bound. A load-time, root-only operation: no non-fixed edge may have
    /// been pushed yet, and the committed edge can never be popped.
    pub fn add_fixed_edge(&mut self, edge: Edge) -> (r: bool)
        requires
            old(self).wf(),
            old(self).committed().len() == 0,
            old(self).trail_seq().len() == 0,
            edge.src < old(self).nodes_seq().len(),
            edge.tgt < old(self).nodes_seq().len(),
        ensures
            final(self).wf(),
            r <==> can_extend(
                old(self).nodes_seq(),
                push_adj(old(self).adj(), edge),
                old(self).positions(),
            ),
            !r ==> final(self).same_state(*old(self)),
            r ==> forall|q: Seq<Time>|
                #[trigger] valid_extension(
                    old(self).nodes_seq(),
                    push_adj(old(self).adj(), edge),
                    old(self).positions(),
                    q,
                ) ==> forall|i: int|
                    0 <= i < old(self).nodes_seq().len()
                        ==> #[trigger] final(self).positions()[i] <= q[i],
            r ==> {
                &&& final(self).committed().len() == 0
                &&& final(self).lims().len() == 0
                &&& final(self).trail_seq().len() == 0
                &&& final(self).adj() == push_adj(old(self).adj(), edge)
                &&& final(self).nodes_seq().len() == old(self).nodes_seq().len()
                &&& forall|i: int|
                    0 <= i < final(self).nodes_seq().len() ==> same_meta(
                        #[trigger] final(self).nodes_seq()[i],
                        old(self).nodes_seq()[i],
                    )
                &&& forall|i: int|
                    0 <= i < final(self).nodes_seq().len()
                        ==> #[trigger] final(self).positions()[i] >= old(self).positions()[i]
                &&& sat_positions(final(self).adj(), final(self).positions())
                &&& final(self).objective() >= old(self).objective()
            },
    {
        let ghost pre = *self;
        let (ok, _deltas) = self.push_edge(edge);
        if !ok {
            return false;
        }
        self.trail.clear();
        self.trail_lim.clear();
        self.edge_undo_stack.clear();
        proof {
            self.base_adj@ = self.adj();
            lemma_sum_deltas_nonneg(_deltas@);
            assert(self.adj() =~= adj_after(self.base_adj@, self.edge_undo_stack@));
            assert forall|k: int| 0 <= k < self.edge_undo_stack@.len() implies self.level_good(
                k,
            ) by {}
        }
        true
    }

    /// Push an edge and, if it succeeded, immediately pop it again:
    /// reports feasibility and the cost deltas the push would cause,
    /// with no observable effect on the engine whatsoever.
    pub fn hypothetical_edge_lb(&mut self, edge: Edge) -> (r: (bool, Vec<(u32, Time)>))
        requires
            old(self).wf(),
            edge.src < old(self).nodes_seq().len(),
            edge.tgt < old(self).nodes_seq().len(),
        ensures
            final(self).wf(),
            final(self).same_state(*old(self)),
            r.0 <==> can_extend(
                old(self).nodes_seq(),
                push_adj(old(self).adj(), edge),
                old(self).positions(),
            ),
            r.0 ==> exists|mid: LongestPaths|
                push_success_rel(*old(self), edge, mid, r.1@) && #[trigger] mid.wf(),
            !r.0 ==> r.1@.len() == 0,
    {
        let ghost pre = *self;
        let tlen = self.trail.len();
        proof {
            assert(pre.trail_seq().len() == tlen as int);
        }
        let (ok, deltas) = self.push_edge(edge);
        if ok {
            let ghost mid = *self;
            let changed = self.pop();
            proof {
                lemma_push_pop_exact(pre, mid, *self, edge, deltas@, changed@);
            }
            (true, deltas)
        } else {
            (false, deltas)
        }
    }

    /// The nodes touched since trail checkpoint `lim` (0 = before the first
    /// committed edge), in trail order.
    pub fn updated_since(&self, lim: usize) -> (r: Vec<u32>)
        requires
            self.wf_core(),
            lim <= self.lims().len(),
        ensures
            r@.len() == self.trail_seq().len() - updated_start(*self, lim as int),
            forall|j: int|
                0 <= j < r@.len() ==> #[trigger] r@[j] == self.trail_seq()[updated_start(
                    *self,
                    lim as int,
                ) + j].0,
    {
        let start: usize = if lim == 0 {
            0
        } else {
            self.trail_lim[lim - 1]
        };
        let mut r: Vec<u32> = Vec::new();
        let mut k = start;
        while k < self.trail.len()
            invariant
                self.wf_core(),
                start == updated_start(*self, lim as int),
                start <= k <= self.trail@.len(),
                r@.len() == k - start,
                forall|j: int| 0 <= j < r@.len() ==> #[trigger] r@[j] == self.trail@[start + j].0,
            decreases self.trail@.len() - k,
        {
            let entry = self.trail[k];
            r.push(entry.0);
            k += 1;
        }
        r
    }

    /// The cost contribution of one node: `coeff * max(0, position - delayed_after)`.
    pub fn obj_component(node: &EngineNode) -> (r: i64)
        requires
            i32::MIN <= node.position <= i32::MAX,
            i32::MIN <= node.delayed_after <= i32::MAX,
            obj_term(*node) <= i64::MAX,
        ensures
            r == obj_term(*node),
    {
        proof {
            lemma_obj_term_bounds(*node);
        }
        let diff = node.position - node.delayed_after;
        if diff > 0 {
            (node.coeff as i64) * diff
        } else {
            0
        }
    }

    /// Append a node whose initial position is its lower bound; the
    /// objective absorbs the node's initial cost contribution. A load-time
    /// operation: no edge may have been committed yet.
    pub fn add_node(&mut self, node: &crate::problem::Node)
        requires
            old(self).wf(),
            old(self).committed().len() == 0,
            old(self).trail_seq().len() == 0,
            old(self).nodes_seq().len() < u32::MAX,
            node.lb <= node.ub,
            cap_sum(old(self).nodes_seq()) + term_cap(engine_node_of(*node)) <= i64::MAX,
        ensures
            final(self).wf(),
            final(self).nodes_seq() == old(self).nodes_seq().push(engine_node_of(*node)),
            final(self).objective() == old(self).objective() + obj_term(engine_node_of(*node)),
            final(self).committed().len() == 0,
            final(self).lims().len() == 0,
            final(self).trail_seq().len() == 0,
            final(self).adj() == old(self).adj().push(Seq::<(u32, Time)>::empty()),
    {
        let nd = EngineNode {
            ub: node.ub as i64,
            position: node.lb as i64,
            lb: node.lb as i64,
            delayed_after: node.threshold as i64,
            coeff: node.coeff,
        };
        proof {
            lemma_obj_term_bounds(nd);
            lemma_obj_sum_nonneg(self.nodes@);
            lemma_obj_le_cap(self.nodes@);
        }
        let component = Self::obj_component(&nd);
        self.objective_value = self.objective_value + component;
        self.nodes.push(nd);
        self.outgoing.push(Vec::new());
        proof {
            self.base_adj@ = self.base_adj@.push(Seq::<(u32, Time)>::empty());
            assert(self.nodes@.drop_last() =~= old(self).nodes@);
            assert(self.adj() =~= old(self).adj().push(Seq::<(u32, Time)>::empty()));
            assert(self.adj() =~= adj_after(self.base_adj@, self.edge_undo_stack@));
            assert(self.positions() =~= old(self).positions().push(nd.position));
            assert(old(self).adj() == adj_after(old(self).base_adj@, old(self).edge_undo_stack@));
            assert(sat_positions(old(self).adj(), old(self).positions()));
            assert(self.level_positions(0) == self.positions());
            assert(self.level_adj(0) == self.adj()) by {
                assert(self.committed().take(0) =~= Seq::<Edge>::empty());
            }
            assert forall|i: int, j: int|
                0 <= i < self.adj().len() && 0 <= j < self.adj()[i].len() implies self.positions()[(
            #[trigger] self.adj()[i][j]).0 as int] >= self.positions()[i] + self.adj()[i][j].1 by {
                assert(i < old(self).adj().len());
                assert(old(self).adj()[i][j] == self.adj()[i][j]);
                assert(old(self).positions()[i] == self.positions()[i]);
            }
            assert(sat_positions(self.adj(), self.positions()));
            assert forall|k: int| 0 <= k <= self.edge_undo_stack@.len() implies self.level_good(
                k,
            ) by {
                assert(self.committed().take(k) =~= Seq::<Edge>::empty());
                assert(self.level_positions(k) == self.positions());
            }
        }
    }
}

/// Law: a successful `push_edge` followed by the matching `pop` restores
/// every node's position, the objective value, and the whole observable
/// engine state exactly, whatever edge was pushed.
pub proof fn lemma_push_pop_exact(
    pre: LongestPaths,
    mid: LongestPaths,
    post: LongestPaths,
    edge: Edge,
    deltas: Seq<(u32, Time)>,
    changed: Seq<u32>,
)
    requires
        pre.wf(),
        pre.trail_seq().len() <= usize::MAX,
        edge.src < pre.nodes_seq().len(),
        edge.tgt < pre.nodes_seq().len(),
        push_success_rel(pre, edge, mid, deltas),
        pop_rel(mid, post, changed),
    ensures
        post.positions() == pre.positions(),
        post.objective() == pre.objective(),
        post.same_state(pre),
{
    let n = pre.nodes_seq().len() as int;
    let t0 = pre.trail_seq().len() as int;
    assert(mid.lims().last() == t0 as usize);
    assert(mid.committed().last() == edge);
    assert(post.positions() == undo_trail(mid.positions(), mid.trail_seq(), t0));
    assert(post.positions() == pre.positions());
    assert(post.trail_seq() =~= pre.trail_seq());
    assert(post.committed() =~= pre.committed());
    assert(post.lims() =~= pre.lims());
    assert(mid.adj()[edge.src as int].drop_last() =~= pre.adj()[edge.src as int]);
    assert(post.adj() =~= pre.adj());
    assert forall|i: int| 0 <= i < n implies post.nodes_seq()[i] == pre.nodes_seq()[i] by {
        assert(post.positions()[i] == pre.positions()[i]);
        assert(same_meta(post.nodes_seq()[i], mid.nodes_seq()[i]));
        assert(same_meta(mid.nodes_seq()[i], pre.nodes_seq()[i]));
    }
    assert(post.nodes_seq() =~= pre.nodes_seq());
    assert(post.objective() == obj_sum(pre.nodes_seq()));
    assert(pre.objective() == obj_sum(pre.nodes_seq()));
}

/// During and after propagation of a newly pushed edge, every rollback
/// level recorded before the push is still intact: the extended trail
/// rolls the state back to it exactly.
proof fn lemma_levels_preserved(pre: LongestPaths, cur: LongestPaths, edge: Edge)
    requires
        pre.wf(),
        edge.src < pre.nodes_seq().len(),
        edge.tgt < pre.nodes_seq().len(),
        cur.base() == pre.base(),
        cur.nodes_seq().len() == pre.nodes_seq().len(),
        forall|i: int|
            0 <= i < cur.nodes_seq().len() ==> same_meta(
                #[trigger] cur.nodes_seq()[i],
                pre.nodes_seq()[i],
            ),
        cur.committed() == pre.committed().push(edge),
        cur.lims() == pre.lims().push(pre.trail_seq().len() as usize),
        pre.trail_seq().len() <= usize::MAX,
        cur.trail_seq().len() >= pre.trail_seq().len(),
        cur.trail_seq().take(pre.trail_seq().len() as int) == pre.trail_seq(),
        undo_trail(cur.positions(), cur.trail_seq(), pre.trail_seq().len() as int)
            == pre.positions(),
    ensures
        forall|k: int| 0 <= k < cur.committed().len() ==> cur.level_good(k),
{
    let t0 = pre.trail_seq().len() as int;
    let m = pre.committed().len() as int;
    assert forall|k: int| 0 <= k < cur.committed().len() implies cur.level_good(k) by {
        if k < m {
            assert(pre.level_good(k));
            assert(cur.level_lim(k) == pre.lims()[k]);
            assert(pre.lims()[k] <= t0);
            lemma_undo_compose(cur.positions(), cur.trail_seq(), pre.lims()[k] as int, t0);
            assert(cur.level_positions(k) == pre.level_positions(k));
            assert(cur.committed().take(k) =~= pre.committed().take(k));
            assert(cur.level_adj(k) == pre.level_adj(k));
        } else {
            // level m is the state just before this push: `pre` itself
            assert(cur.level_lim(m) == t0);
            assert(cur.level_positions(m) == pre.positions());
            assert(cur.committed().take(m) =~= pre.committed());
            assert(cur.level_adj(m) == pre.adj());
            assert(sat_positions(pre.adj(), pre.positions()));
            assert(pre.positions().len() == pre.nodes_seq().len());
        }
    }
}

/// Where in the trail the entries after checkpoint `lim` begin.
pub open spec fn updated_start(e: LongestPaths, lim: int) -> int {
    if lim == 0 {
        0
    } else {
        e.lims()[lim - 1] as int
    }
}

/// The engine node a problem node loads as.
pub open spec fn engine_node_of(node: crate::problem::Node) -> EngineNode {
    EngineNode {
        ub: node.ub as i64,
        position: node.lb as i64,
        lb: node.lb as i64,
        delayed_after: node.threshold as i64,
        coeff: node.coeff,
    }
}

} // verus!
