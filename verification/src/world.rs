//! Per-node bound and branching evaluator: given the engine's current
//! committed state, determines which disjunctions are satisfied, which
//! alternatives remain feasible, the branching candidate set with its
//! score, and the resulting lower bound. The tightened WDG bound needs the
//! external mixed-integer optimizer, so evaluation can pause in
//! `MkStateResult::NeedsWdgBound` until the caller supplies its optimum.

use vstd::prelude::*;

use crate::bnb::SolverSettings;
use crate::longestpaths::{
    push_success_rel, pop_rel, sum_deltas, LongestPaths,
    lemma_sum_deltas_prefix,
};
use crate::partition::compute_partitions;
use crate::problem::{DisjunctiveGraph, Edge};
use crate::wdg::{alt_costs_ok, pairs_view, wdg_cost_sum, WdgEdge, WdgSolverBinaryMIP};
use crate::wdg::{lemma_wdg_cost_elem_le_sum, lemma_wdg_cost_sum_update};

verus! {

/// The result of evaluating a search node: a valid lower bound, and either
/// the alternatives of the disjunction chosen for branching, or `None` for
/// a terminal node whose schedule is fully resolved and worth `lb`.
pub struct State {
    pub lb: i64,
    pub branching: Option<Vec<Edge>>,
}

/// An evaluation that is waiting for the external optimizer's value on the
/// collected WDG subproblem.
pub struct PendingState {
    pub realized_cost: i64,
    pub branching: Option<Vec<Edge>>,
    pub cost_ub: i64,
}

/// Either a finished evaluation, or one that needs the WDG subproblem's
/// optimal value (from `World::wdg_disjunctions`) to finish.
pub enum MkStateResult {
    Ready(Option<State>),
    NeedsWdgBound(PendingState),
}

/// The deep view of a list of disjunction alternatives.
pub open spec fn sets_view(s: Seq<Vec<Edge>>) -> Seq<Seq<Edge>> {
    s.map(|_i: int, v: Vec<Edge>| v@)
}

/// The edge sets of two or more alternatives, in input order: the open
/// disjunctions the search must resolve.
pub open spec fn open_disjunctions(sets: Seq<Seq<Edge>>) -> Seq<Seq<Edge>>
    decreases sets.len(),
{
    if sets.len() == 0 {
        Seq::empty()
    } else {
        let rest = open_disjunctions(sets.drop_last());
        if sets.last().len() >= 2 {
            rest.push(sets.last())
        } else {
            rest
        }
    }
}

/// The permanently fixed edges: the single edge of every singleton edge
/// set, in input order.
pub open spec fn singleton_edges(sets: Seq<Seq<Edge>>) -> Seq<Edge>
    decreases sets.len(),
{
    if sets.len() == 0 {
        Seq::empty()
    } else {
        let rest = singleton_edges(sets.drop_last());
        if sets.last().len() == 1 {
            rest.push(sets.last()[0])
        } else {
            rest
        }
    }
}

/// The adjacency structure of the permanently fixed edges alone: one row
/// per node, filled from the singleton edge sets in input order.
pub open spec fn fixed_adjacency(n: nat, sets: Seq<Seq<Edge>>) -> Seq<Seq<(u32, i64)>>
    decreases sets.len(),
{
    if sets.len() == 0 {
        Seq::new(n as nat, |_i: int| Seq::<(u32, i64)>::empty())
    } else {
        let rest = fixed_adjacency(n, sets.drop_last());
        if sets.last().len() == 1 {
            crate::longestpaths::push_adj(rest, sets.last()[0])
        } else {
            rest
        }
    }
}

/// `q` sits in every node's time window and satisfies every permanently
/// fixed edge of `p`.
pub open spec fn fixed_ok(p: DisjunctiveGraph, q: Seq<i64>) -> bool {
    &&& q.len() == p.nodes@.len()
    &&& forall|i: int| 0 <= i < q.len() ==> p.nodes@[i].lb <= #[trigger] q[i] <= p.nodes@[i].ub
    &&& crate::longestpaths::sat_positions(
        fixed_adjacency(p.nodes@.len() as nat, sets_view(p.edge_sets@)),
        q,
    )
}

/// The permanently fixed edges admit feasible positions at all: no upper
/// bound is forced past and no positive-weight cycle closes at load time.
pub open spec fn fixed_feasible(p: DisjunctiveGraph) -> bool {
    exists|q: Seq<i64>| #[trigger] fixed_ok(p, q)
}

proof fn lemma_fixed_adjacency_len(n: nat, sets: Seq<Seq<Edge>>)
    requires
        forall|t: int|
            0 <= t < sets.len() && (#[trigger] sets[t]).len() == 1 ==> (sets[t][0].src as int) < n,
    ensures
        fixed_adjacency(n, sets).len() == n,
    decreases sets.len(),
{
    if sets.len() > 0 {
        assert forall|t: int|
            0 <= t < sets.drop_last().len() && (#[trigger] sets.drop_last()[t]).len() == 1 implies (
        sets.drop_last()[t][0].src as int) < n by {
            assert(sets.drop_last()[t] == sets[t]);
        }
        lemma_fixed_adjacency_len(n, sets.drop_last());
    }
}

/// Committing more of the fixed structure only appends to adjacency rows.
proof fn lemma_fixed_adjacency_prefix(n: nat, sets: Seq<Seq<Edge>>, s: int)
    requires
        0 <= s <= sets.len(),
        forall|t: int|
            0 <= t < sets.len() && (#[trigger] sets[t]).len() == 1 ==> (sets[t][0].src as int) < n,
    ensures
        fixed_adjacency(n, sets.take(s)).len() == n,
        fixed_adjacency(n, sets).len() == n,
        forall|i: int|
            0 <= i < n ==> fixed_adjacency(n, sets.take(s))[i].is_prefix_of(
                #[trigger] fixed_adjacency(n, sets)[i],
            ),
    decreases sets.len() - s,
{
    lemma_fixed_adjacency_len(n, sets);
    assert forall|t: int|
        0 <= t < sets.take(s).len() && (#[trigger] sets.take(s)[t]).len() == 1 implies (sets.take(
        s,
    )[t][0].src as int) < n by {
        assert(sets.take(s)[t] == sets[t]);
    }
    lemma_fixed_adjacency_len(n, sets.take(s));
    if s == sets.len() {
        assert(sets.take(s) =~= sets);
        assert forall|i: int|
            0 <= i < n implies fixed_adjacency(n, sets.take(s))[i].is_prefix_of(
            #[trigger] fixed_adjacency(n, sets)[i],
        ) by {
            assert(fixed_adjacency(n, sets)[i].subrange(
                0,
                fixed_adjacency(n, sets)[i].len() as int,
            ) =~= fixed_adjacency(n, sets)[i]);
        }
    } else {
        lemma_fixed_adjacency_prefix(n, sets, s + 1);
        let prev = fixed_adjacency(n, sets.take(s));
        let next = fixed_adjacency(n, sets.take(s + 1));
        assert(sets.take(s + 1).drop_last() =~= sets.take(s));
        assert(sets.take(s + 1).last() == sets[s]);
        assert forall|i: int| 0 <= i < n implies prev[i].is_prefix_of(
            #[trigger] fixed_adjacency(n, sets)[i],
        ) by {
            assert(next[i].is_prefix_of(fixed_adjacency(n, sets)[i]));
            if sets[s].len() == 1 && i == sets[s][0].src as int {
                assert(next[i] == prev[i].push((sets[s][0].tgt, sets[s][0].weight as i64)));
                assert(next[i].subrange(0, prev[i].len() as int) =~= prev[i]);
            } else {
                assert(next[i] == prev[i]);
            }
            // prefix is transitive
            assert(prev[i] =~= fixed_adjacency(n, sets)[i].subrange(0, prev[i].len() as int));
        }
    }
}

/// Positions satisfying an adjacency structure satisfy any row-prefix of it.
proof fn lemma_sat_rows_prefix(
    small: Seq<Seq<(u32, i64)>>,
    big: Seq<Seq<(u32, i64)>>,
    q: Seq<i64>,
)
    requires
        small.len() == big.len(),
        forall|i: int| 0 <= i < small.len() ==> small[i].is_prefix_of(#[trigger] big[i]),
        crate::longestpaths::sat_positions(big, q),
    ensures
        crate::longestpaths::sat_positions(small, q),
{
    assert forall|i: int, j: int|
        0 <= i < small.len() && 0 <= j < small[i].len() implies q[(#[trigger] small[i][j]).0
        as int] >= q[i] + small[i][j].1 by {
        assert(small[i].is_prefix_of(big[i]));
        assert(small[i][j] == big[i].subrange(0, small[i].len() as int)[j]);
        assert(small[i][j] == big[i][j]);
    }
}

/// A witness of the whole fixed structure extends any intermediate load
/// state it dominates when one more fixed edge is committed.
proof fn lemma_fixed_witness_extends(p: DisjunctiveGraph, sched: LongestPaths, s: int, q: Seq<i64>)
    requires
        p.wf(),
        0 <= s < p.edge_sets@.len(),
        p.edge_sets@[s]@.len() == 1,
        sched.nodes_seq().len() == p.nodes@.len(),
        forall|j: int|
            0 <= j < p.nodes@.len() ==> crate::longestpaths::same_meta(
                #[trigger] sched.nodes_seq()[j],
                crate::longestpaths::engine_node_of(p.nodes@[j]),
            ),
        sched.adj() == fixed_adjacency(p.nodes@.len() as nat, sets_view(p.edge_sets@).take(s)),
        fixed_ok(p, q),
        forall|i: int| 0 <= i < p.nodes@.len() ==> #[trigger] q[i] >= sched.positions()[i],
    ensures
        crate::longestpaths::valid_extension(
            sched.nodes_seq(),
            crate::longestpaths::push_adj(sched.adj(), p.edge_sets@[s]@[0]),
            sched.positions(),
            q,
        ),
{
    let n = p.nodes@.len() as nat;
    let sv = sets_view(p.edge_sets@);
    assert(sv.take(s + 1).drop_last() =~= sv.take(s));
    assert(sv.take(s + 1).last() == sv[s]);
    assert(sv[s] == p.edge_sets@[s]@);
    assert(crate::longestpaths::push_adj(sched.adj(), sv[s][0]) == fixed_adjacency(
        n,
        sv.take(s + 1),
    ));
    assert forall|t: int|
        0 <= t < sv.len() && (#[trigger] sv[t]).len() == 1 implies (sv[t][0].src as int) < n by {
        assert(sv[t] == p.edge_sets@[t]@);
        assert(p.edge_sets@[t]@[0].src < p.nodes@.len());
    }
    lemma_fixed_adjacency_prefix(n, sv, s + 1);
    lemma_sat_rows_prefix(fixed_adjacency(n, sv.take(s + 1)), fixed_adjacency(n, sv), q);
    assert forall|i: int| 0 <= i < q.len() implies #[trigger] q[i] <= sched.nodes_seq()[i].ub by {
        assert(crate::longestpaths::same_meta(
            sched.nodes_seq()[i],
            crate::longestpaths::engine_node_of(p.nodes@[i]),
        ));
    }
}

/// `v` is the value of a complete feasible schedule of problem `p`: the
/// objective of a well-formed engine state over `p`'s nodes, with every
/// position at or above its node's release time, every permanently fixed
/// edge satisfied, and every open disjunction satisfied by some
/// alternative. The least value over all total resolutions of the
/// disjunctions is therefore at most any such `v`.
pub open spec fn feasible_value(p: DisjunctiveGraph, v: int) -> bool {
    &&& (forall|s: int|
        0 <= s < p.edge_sets@.len() ==> (#[trigger] p.edge_sets@[s]@).len() != 0)
    &&& exists|e: LongestPaths|
        {
            &&& #[trigger] e.wf()
            &&& e.nodes_seq().len() == p.nodes@.len()
            &&& (forall|i: int|
                0 <= i < p.nodes@.len() ==> crate::longestpaths::same_meta(
                    #[trigger] e.nodes_seq()[i],
                    crate::longestpaths::engine_node_of(p.nodes@[i]),
                ))
            &&& (forall|i: int|
                0 <= i < p.nodes@.len() ==> p.nodes@[i].lb <= #[trigger] e.positions()[i]
                    && e.positions()[i] <= p.nodes@[i].ub)
            &&& e.base() == fixed_adjacency(p.nodes@.len() as nat, sets_view(p.edge_sets@))
            &&& crate::longestpaths::sat_positions(e.base(), e.positions())
            &&& e.objective() == v
            &&& (forall|d: int|
                0 <= d < open_disjunctions(sets_view(p.edge_sets@)).len()
                    ==> disjunction_satisfied(
                    e.positions(),
                    #[trigger] open_disjunctions(sets_view(p.edge_sets@))[d],
                ))
        }
}

/// Certificate: when the engine of a world loaded from `p` currently
/// satisfies every open disjunction, its objective value is the value of a
/// complete feasible schedule of `p`.
pub proof fn lemma_feasible_here(w: World, p: DisjunctiveGraph)
    requires
        w.wf(),
        forall|s: int| 0 <= s < p.edge_sets@.len() ==> (#[trigger] p.edge_sets@[s]@).len() != 0,
        w.engine().nodes_seq().len() == p.nodes@.len(),
        forall|i: int|
            0 <= i < p.nodes@.len() ==> crate::longestpaths::same_meta(
                #[trigger] w.engine().nodes_seq()[i],
                crate::longestpaths::engine_node_of(p.nodes@[i]),
            ),
        w.engine().base() == fixed_adjacency(p.nodes@.len() as nat, sets_view(p.edge_sets@)),
        w.nonunit() == open_disjunctions(sets_view(p.edge_sets@)),
        forall|d: int|
            0 <= d < w.nonunit().len() ==> disjunction_satisfied(
                w.engine().positions(),
                #[trigger] w.nonunit()[d],
            ),
    ensures
        feasible_value(p, w.engine().objective()),
{
    let e = w.engine();
    e.lemma_wf_implies_core();
    e.lemma_state_in_range();
    e.lemma_base_satisfied();
    assert(e.wf());
    assert forall|i: int|
        0 <= i < p.nodes@.len() implies p.nodes@[i].lb <= #[trigger] e.positions()[i]
        && e.positions()[i] <= p.nodes@[i].ub by {
        assert(e.nodes_seq()[i].lb <= e.positions()[i] <= e.nodes_seq()[i].ub);
    }
}

/// Law (bound monotonicity, one step). An evaluation returns either the
/// caller's `pre_lb` (short-circuit), the engine's realized cost, or the
/// realized cost plus a non-negative WDG bound — exactly the cases of
/// `mk_state`'s and `finish_state`'s contracts. Whenever the evaluation
/// starts with `pre_lb` at most the realized cost, the resulting bound is
/// therefore no smaller than `pre_lb`; since the driver passes the
/// parent's bound as `pre_lb` and positions (hence the realized cost) only
/// rise as edges are committed, bounds computed by propagation alone never
/// decrease from parent to child along a tree path. With the WDG bound
/// enabled the premise can fail: a parent's WDG bound may exceed the cost
/// its child actually realizes.
pub proof fn lemma_bound_monotone_step(pre_lb: i64, realized: i64, wdg_bound: i64, lb: int)
    requires
        pre_lb <= realized,
        wdg_bound >= 0,
        lb == pre_lb || lb == realized || lb == realized + wdg_bound,
    ensures
        lb >= pre_lb,
{
}

/// When every edge set is small, so is every open disjunction.
pub proof fn lemma_open_disjunctions_narrow(sets: Seq<Seq<Edge>>)
    requires
        forall|s: int| 0 <= s < sets.len() ==> (#[trigger] sets[s]).len() <= 2,
    ensures
        forall|d: int|
            0 <= d < open_disjunctions(sets).len() ==> (#[trigger] open_disjunctions(
                sets,
            )[d]).len() <= 2,
    decreases sets.len(),
{
    if sets.len() > 0 {
        lemma_open_disjunctions_narrow(sets.drop_last());
        let rest = open_disjunctions(sets.drop_last());
        assert forall|d: int|
            0 <= d < open_disjunctions(sets).len() implies (#[trigger] open_disjunctions(
            sets,
        )[d]).len() <= 2 by {
            if sets.last().len() >= 2 && d == rest.len() {
                assert(open_disjunctions(sets)[d] == sets.last());
            } else {
                assert(open_disjunctions(sets)[d] == rest[d]);
            }
        }
    }
}

/// Every branching edge points at existing nodes.
pub open spec fn branch_edges_ok(es: Seq<Edge>, n: int) -> bool {
    forall|j: int| 0 <= j < es.len() ==> ((#[trigger] es[j]).src as int) < n && (es[j].tgt as int) < n
}

/// An alternative survives evaluation: committing it on top of the
/// engine's state is feasible, and the objective of the resulting
/// longest-path closure stays below the cost cap.
pub open spec fn alt_survives(eng: LongestPaths, edge: Edge, cost_ub: i64) -> bool {
    &&& crate::longestpaths::can_extend(
        eng.nodes_seq(),
        crate::longestpaths::push_adj(eng.adj(), edge),
        eng.positions(),
    )
    &&& crate::longestpaths::obj_sum(
        crate::longestpaths::with_positions(
            eng.nodes_seq(),
            crate::longestpaths::least_extension(
                eng.nodes_seq(),
                crate::longestpaths::push_adj(eng.adj(), edge),
                eng.positions(),
            ),
        ),
    ) < cost_ub
}

/// The alternatives of a disjunction that survive evaluation, in order.
pub open spec fn survivors_of(eng: LongestPaths, es: Seq<Edge>, cost_ub: i64) -> Seq<Edge>
    decreases es.len(),
{
    if es.len() == 0 {
        Seq::empty()
    } else {
        let rest = survivors_of(eng, es.drop_last(), cost_ub);
        if alt_survives(eng, es.last(), cost_ub) {
            rest.push(es.last())
        } else {
            rest
        }
    }
}

/// The edges of collected (edge, cost delta) pairs.
pub open spec fn firsts(s: Seq<(Edge, i64)>) -> Seq<Edge> {
    s.map(|_i: int, t: (Edge, i64)| t.0)
}

/// Some alternative of the disjunction already holds under these positions.
pub open spec fn disjunction_satisfied(pos: Seq<i64>, es: Seq<Edge>) -> bool {
    exists|j: int|
        0 <= j < es.len() && pos[(#[trigger] es[j]).src as int] + es[j].weight <= pos[es[j].tgt
            as int]
}

/// The shared engine plus the static problem structure the evaluator needs:
/// the open disjunctions, and a partition id per node.
pub struct World {
    schedule: LongestPaths,
    nonunit_disjunctions: Vec<Vec<Edge>>,
    n_partitions: usize,
    partitions: Vec<u32>,
    wdg_solver: WdgSolverBinaryMIP,
}

impl World {
    /// The propagation engine's abstract state.
    pub closed spec fn engine(self) -> LongestPaths {
        self.schedule
    }

    /// The open disjunctions, in input order.
    pub closed spec fn nonunit(self) -> Seq<Seq<Edge>> {
        sets_view(self.nonunit_disjunctions@)
    }

    /// The partition id of every node.
    pub closed spec fn parts(self) -> Seq<u32> {
        self.partitions@
    }

    /// Number of partitions.
    pub closed spec fn n_parts(self) -> int {
        self.n_partitions as int
    }

    /// The WDG solver's collected disjunctions.
    pub closed spec fn solver(self) -> WdgSolverBinaryMIP {
        self.wdg_solver
    }

    pub closed spec fn wf(self) -> bool {
        let n = self.schedule.nodes_seq().len() as int;
        &&& self.schedule.wf()
        &&& self.partitions@.len() == n
        &&& self.n_partitions <= n
        &&& forall|i: int| 0 <= i < n ==> (#[trigger] self.partitions@[i] as int) < self.n_partitions
        &&& forall|d: int, j: int|
            0 <= d < self.nonunit().len() && 0 <= j < self.nonunit()[d].len() ==> {
                &&& (#[trigger] self.nonunit()[d][j]).src < n
                &&& self.nonunit()[d][j].tgt < n
            }
        &&& self.wdg_solver.wf()
    }

    /// The nonunit disjunction views, for contracts.
    pub closed spec fn nonunit_raw(self) -> Seq<Vec<Edge>> {
        self.nonunit_disjunctions@
    }

    /// The engine's current objective value: the realized cost of the
    /// committed partial schedule, a lower bound by propagation alone.
    pub fn longestpaths_bound(&self) -> (r: i64)
        requires
            self.wf(),
        ensures
            r == self.engine().objective(),
            r >= 0,
    {
        proof {
            self.schedule.lemma_wf_implies_core();
        }
        self.schedule.objective_value()
    }

    /// Thin delegation to the engine: commit one branching edge.
    pub fn push(&mut self, e: Edge) -> (r: bool)
        requires
            old(self).wf(),
            e.src < old(self).engine().nodes_seq().len(),
            e.tgt < old(self).engine().nodes_seq().len(),
        ensures
            final(self).wf(),
            final(self).nonunit() == old(self).nonunit(),
            final(self).nonunit_raw() == old(self).nonunit_raw(),
            final(self).parts() == old(self).parts(),
            final(self).n_parts() == old(self).n_parts(),
            r <==> crate::longestpaths::can_extend(
                old(self).engine().nodes_seq(),
                crate::longestpaths::push_adj(old(self).engine().adj(), e),
                old(self).engine().positions(),
            ),
            r ==> exists|deltas: Seq<(u32, i64)>|
                #[trigger] push_success_rel(
                    old(self).engine(),
                    e,
                    final(self).engine(),
                    deltas,
                ),
            !r ==> final(self).engine().same_state(old(self).engine()),
    {
        let (ok, deltas) = self.schedule.push_edge(e);
        proof {
            if ok {
                assert(push_success_rel(old(self).engine(), e, self.engine(), deltas@));
            }
            assert forall|d: int, j: int|
                0 <= d < self.nonunit().len() && 0 <= j < self.nonunit()[d].len() implies (
            #[trigger] self.nonunit()[d][j]).src < self.engine().nodes_seq().len()
                && self.nonunit()[d][j].tgt < self.engine().nodes_seq().len() by {
                assert((old(self).nonunit()[d][j]).src < old(self).engine().nodes_seq().len());
            }
        }
        ok
    }

    /// Thin delegation to the engine: undo the most recently pushed edge.
    pub fn pop(&mut self)
        requires
            old(self).wf(),
            old(self).engine().committed().len() > 0,
        ensures
            final(self).wf(),
            final(self).nonunit() == old(self).nonunit(),
            final(self).nonunit_raw() == old(self).nonunit_raw(),
            final(self).parts() == old(self).parts(),
            final(self).n_parts() == old(self).n_parts(),
            exists|changed: Seq<u32>|
                #[trigger] pop_rel(old(self).engine(), final(self).engine(), changed),
    {
        proof {
            self.schedule.lemma_wf_implies_core();
        }
        let changed = self.schedule.pop();
        proof {
            assert(pop_rel(old(self).engine(), self.engine(), changed@));
            assert forall|d: int, j: int|
                0 <= d < self.nonunit().len() && 0 <= j < self.nonunit()[d].len() implies (
            #[trigger] self.nonunit()[d][j]).src < self.engine().nodes_seq().len()
                && self.nonunit()[d][j].tgt < self.engine().nodes_seq().len() by {
                assert((old(self).nonunit()[d][j]).src < old(self).engine().nodes_seq().len());
            }
        }
    }

    /// The number of problem nodes.
    pub fn num_nodes(&self) -> (r: usize)
        ensures
            r == self.engine().nodes_seq().len(),
    {
        self.schedule.num_nodes()
    }

    /// The surviving WDG disjunctions for the external optimizer.
    pub fn wdg_disjunctions(&self) -> (r: Vec<(Vec<WdgEdge>, Vec<WdgEdge>)>)
        requires
            self.wf(),
        ensures
            pairs_view(r@) == self.solver().active(),
    {
        self.wdg_solver.mip_disjunctions()
    }

    /// Finish an evaluation that was waiting for the WDG subproblem's
    /// optimal value: the node's bound is the realized cost plus that
    /// value, and the node is pruned when it reaches `cost_ub`.
    pub fn finish_state(&self, pending: PendingState, wdg_bound: i64) -> (r: Option<State>)
        requires
            0 <= wdg_bound,
            // the supplied value is a valid bound for the collected selection
            // subproblem: its exact optimum, or (relaxed mode) a lower value
            wdg_bound <= crate::wdg::wdg_opt(self.solver().active(), self.n_parts() as nat),
            0 <= pending.realized_cost,
            pending.realized_cost + wdg_bound <= i64::MAX,
        ensures
            r is None ==> pending.realized_cost + wdg_bound >= pending.cost_ub,
            r is Some ==> {
                let s = r.unwrap();
                &&& s.lb == pending.realized_cost + wdg_bound
                &&& s.lb < pending.cost_ub
                &&& s.branching == pending.branching
            },
    {
        let lb = pending.realized_cost + wdg_bound;
        if lb >= pending.cost_ub {
            None
        } else {
            Some(State { lb, branching: pending.branching })
        }
    }

    /// Evaluate the search node at the engine's current position: skip
    /// disjunctions already satisfied by the current positions; test every
    /// alternative of the others hypothetically, discarding alternatives
    /// that are infeasible or would reach `cost_ub`; short-circuit on a
    /// forced or infeasible disjunction with bound `pre_lb`; otherwise
    /// keep the best-scoring disjunction for branching, feed the
    /// per-partition cost deltas to the WDG solver, and report the bound
    /// (pausing when the external optimizer is needed). The engine is left
    /// exactly as it was found.
    #[verifier::loop_isolation(false)]
    #[verifier::rlimit(100)]
    #[verifier::spinoff_prover]
    pub fn mk_state(&mut self, settings: &SolverSettings, pre_lb: i64, cost_ub: i64) -> (r:
        MkStateResult)
        requires
            old(self).wf(),
            settings.use_wdg_bound ==> forall|d: int|
                0 <= d < old(self).nonunit().len() ==> (#[trigger] old(self).nonunit()[d]).len()
                    <= 2,
        ensures
            final(self).wf(),
            final(self).engine().same_state(old(self).engine()),
            final(self).nonunit() == old(self).nonunit(),
            final(self).nonunit_raw() == old(self).nonunit_raw(),
            final(self).parts() == old(self).parts(),
            final(self).n_parts() == old(self).n_parts(),
            match r {
                MkStateResult::Ready(opt) => match opt {
                    Option::None => pre_lb >= cost_ub || old(self).engine().objective() >= cost_ub,
                    Option::Some(s) => {
                        &&& s.lb < cost_ub
                        &&& (s.lb == pre_lb || s.lb == old(self).engine().objective())
                        &&& (s.branching is None ==> s.lb == old(self).engine().objective()
                            && forall|d: int|
                            0 <= d < old(self).nonunit().len() ==> disjunction_satisfied(
                                old(self).engine().positions(),
                                #[trigger] old(self).nonunit()[d],
                            ))
                        &&& (s.branching is Some ==> branch_edges_ok(
                            s.branching.unwrap()@,
                            old(self).engine().nodes_seq().len() as int,
                        ))
                        // a branching choice is offered only over a still
                        // unsatisfied disjunction, and lists exactly the
                        // alternatives that survive the feasibility and
                        // cost-cap filter there
                        &&& (s.branching is Some ==> exists|d: int|
                            0 <= d < old(self).nonunit().len() && !disjunction_satisfied(
                                old(self).engine().positions(),
                                #[trigger] old(self).nonunit()[d],
                            ) && s.branching.unwrap()@ == survivors_of(
                                old(self).engine(),
                                old(self).nonunit()[d],
                                cost_ub,
                            ))
                        // fewer than two alternatives is the short-circuit:
                        // the bound is the caller's, never a fresh one
                        &&& (s.branching is Some && s.branching.unwrap()@.len() < 2 ==> s.lb
                            == pre_lb)
                        // with a real choice the bound is freshly computed
                        &&& (s.branching is Some && s.branching.unwrap()@.len() >= 2 ==> s.lb
                            == old(self).engine().objective())
                    },
                },
                MkStateResult::NeedsWdgBound(p) => {
                    &&& settings.use_wdg_bound
                    &&& p.cost_ub == cost_ub
                    &&& p.realized_cost == old(self).engine().objective()
                    &&& p.realized_cost >= 0
                    &&& p.branching is Some
                    &&& p.branching.unwrap()@.len() >= 2
                    &&& branch_edges_ok(
                        p.branching.unwrap()@,
                        old(self).engine().nodes_seq().len() as int,
                    )
                    &&& exists|d: int|
                        0 <= d < old(self).nonunit().len() && !disjunction_satisfied(
                            old(self).engine().positions(),
                            #[trigger] old(self).nonunit()[d],
                        ) && p.branching.unwrap()@ == survivors_of(
                            old(self).engine(),
                            old(self).nonunit()[d],
                            cost_ub,
                        )
                },
            },
    {
        let ghost pre = *self;
        self.wdg_solver.clear();
        proof {
            self.schedule.lemma_wf_implies_core();
        }
        let realized_cost = self.schedule.objective_value();
        let ghost n = self.schedule.nodes_seq().len() as int;
        let mut have_branch = false;
        let ghost mut first_unsat: int = 0;
        let mut best_score: i128 = 0;
        let mut branch_edges: Vec<Edge> = Vec::new();
        let mut short = false;
        let mut d: usize = 0;
        while d < self.nonunit_disjunctions.len() && !short
            invariant
                self.wf(),
                self.engine().same_state(pre.engine()),
                self.nonunit_raw() == pre.nonunit_raw(),
                self.parts() == pre.parts(),
                self.n_parts() == pre.n_parts(),
                d <= self.nonunit_disjunctions@.len(),
                !have_branch ==> forall|d2: int|
                    0 <= d2 < d ==> disjunction_satisfied(
                        self.engine().positions(),
                        #[trigger] self.nonunit()[d2],
                    ),
                self.solver().disj().len() > 0 ==> have_branch,
                short ==> have_branch,
                short ==> branch_edges@.len() < 2,
                have_branch ==> 0 <= first_unsat < self.nonunit().len()
                    && !disjunction_satisfied(
                    self.engine().positions(),
                    self.nonunit()[first_unsat],
                ) && branch_edges@ == survivors_of(
                    pre.engine(),
                    self.nonunit()[first_unsat],
                    cost_ub,
                ),
                !short && have_branch ==> branch_edges@.len() >= 2,
                branch_edges_ok(branch_edges@, n),
            decreases (if short {
                0int
            } else {
                1int
            }), self.nonunit_disjunctions@.len() - d,
        {
            proof {
                self.schedule.lemma_wf_implies_core();
                self.schedule.lemma_state_in_range();
            }
            let es_len = self.nonunit_disjunctions[d].len();
            // skip disjunctions some alternative of which already holds
            let mut satisfied = false;
            let mut j: usize = 0;
            while j < es_len
                invariant
                    j <= es_len,
                    satisfied == disjunction_satisfied(
                        self.engine().positions(),
                        self.nonunit()[d as int].take(j as int),
                    ),
                decreases es_len - j,
            {
                let e = self.nonunit_disjunctions[d][j];
                proof {
                    assert(e == self.nonunit()[d as int][j as int]);
                }
                let t1 = self.schedule.position(e.src as usize);
                let t2 = self.schedule.position(e.tgt as usize);
                let ghost sat_before = satisfied;
                if t1 + e.weight as i64 <= t2 {
                    satisfied = true;
                }
                proof {
                    let esd = self.nonunit()[d as int];
                    let pos = self.engine().positions();
                    assert(esd.take(j + 1).drop_last() =~= esd.take(j as int));
                    assert(esd.take(j + 1).last() == esd[j as int]);
                    if satisfied {
                        if sat_before {
                            let w = choose|w: int|
                                0 <= w < esd.take(j as int).len() && pos[(#[trigger] esd.take(
                                    j as int,
                                )[w]).src as int] + esd.take(j as int)[w].weight <= pos[esd.take(
                                    j as int,
                                )[w].tgt as int];
                            assert(esd.take(j + 1)[w] == esd.take(j as int)[w]);
                        } else {
                            assert(esd.take(j + 1)[j as int] == e);
                        }
                        assert(disjunction_satisfied(pos, esd.take(j + 1)));
                    } else {
                        assert forall|w: int| 0 <= w < j + 1 implies !(pos[(#[trigger] esd.take(
                            j + 1,
                        )[w]).src as int] + esd.take(j + 1)[w].weight <= pos[esd.take(j + 1)[w].tgt
                            as int]) by {
                            assert(esd.take(j + 1)[w] == esd[w]);
                            if w < j {
                                assert(esd.take(j as int)[w] == esd[w]);
                            }
                        }
                    }
                }
                j += 1;
            }
            if satisfied {
                proof {
                    assert(self.nonunit()[d as int].take(es_len as int) =~= self.nonunit()[
                        d as int
                    ]);
                }
                d += 1;
            } else {
                proof {
                    assert(self.nonunit()[d as int].take(es_len as int) =~= self.nonunit()[
                        d as int
                    ]);
                    assert(!disjunction_satisfied(
                        pre.engine().positions(),
                        self.nonunit()[d as int],
                    ));
                }
                // evaluate every alternative hypothetically
                let ghost solver_snap = self.wdg_solver;
                let mut valid_edges: Vec<(Edge, i64)> = Vec::new();
                proof {
                    assert(firsts(valid_edges@) =~= Seq::<Edge>::empty());
                    assert(self.nonunit()[d as int].take(0) =~= Seq::<Edge>::empty());
                }
                let mut route: Vec<Vec<WdgEdge>> = Vec::new();
                let mut j2: usize = 0;
                while j2 < es_len
                    invariant
                        j2 <= es_len,
                        self.wf(),
                        self.engine().same_state(pre.engine()),
                        self.nonunit_raw() == pre.nonunit_raw(),
                        self.parts() == pre.parts(),
                        self.n_parts() == pre.n_parts(),
                        self.wdg_solver == solver_snap,
                        valid_edges@.len() == route@.len(),
                        valid_edges@.len() <= j2,
                        firsts(valid_edges@) == survivors_of(
                            pre.engine(),
                            self.nonunit()[d as int].take(j2 as int),
                            cost_ub,
                        ),
                        forall|q: int|
                            0 <= q < route@.len() ==> alt_costs_ok(#[trigger] route@[q]@),
                        forall|q: int|
                            0 <= q < valid_edges@.len() ==> ((#[trigger] valid_edges@[q]).0.src
                                as int) < n && (valid_edges@[q].0.tgt as int) < n,
                    decreases es_len - j2,
                {
                    let e = self.nonunit_disjunctions[d][j2];
                    proof {
                        assert(e == self.nonunit()[d as int][j2 as int]);
                        self.schedule.lemma_wf_implies_core();
                        self.schedule.lemma_state_in_range();
                    }
                    let ghost before_hyp = self.schedule;
                    let (feasible, deltas) = self.schedule.hypothetical_edge_lb(e);
                    proof {
                        // the hypothetical verdict is exactly feasibility on
                        // the evaluated (unchanged) engine state
                        assert(before_hyp.nodes_seq() == pre.engine().nodes_seq());
                        assert(before_hyp.adj() == pre.engine().adj());
                        assert(before_hyp.positions() == pre.engine().positions());
                    }
                    if feasible {
                        proof {
                            let mid = choose|mid: LongestPaths|
                                push_success_rel(before_hyp, e, mid, deltas@) && #[trigger] mid.wf();
                            mid.lemma_wf_implies_core();
                            mid.lemma_state_in_range();
                            mid.lemma_objective_is_sum();
                            crate::longestpaths::lemma_push_computes_closure(
                                before_hyp,
                                e,
                                mid,
                                deltas@,
                            );
                            assert(sum_deltas(deltas@) == mid.objective() - before_hyp.objective());
                            assert(0 <= sum_deltas(deltas@) <= i64::MAX);
                            assert(forall|q: int|
                                0 <= q < deltas@.len() ==> (#[trigger] deltas@[q]).1 > 0 && (
                                deltas@[q].0 as int) < n);
                            // the collected total is the closure's extra cost
                            assert(mid.objective() == crate::longestpaths::obj_sum(
                                crate::longestpaths::with_positions(
                                    pre.engine().nodes_seq(),
                                    crate::longestpaths::least_extension(
                                        pre.engine().nodes_seq(),
                                        crate::longestpaths::push_adj(pre.engine().adj(), e),
                                        pre.engine().positions(),
                                    ),
                                ),
                            ));
                        }
                        // aggregate the cost deltas per partition
                        let mut constraints: Vec<WdgEdge> = Vec::new();
                        let mut total: i64 = 0;
                        let mut k: usize = 0;
                        proof {
                            assert(deltas@.take(0) =~= Seq::<(u32, i64)>::empty());
                        }
                        while k < deltas.len()
                            invariant
                                k <= deltas@.len(),
                                total == sum_deltas(deltas@.take(k as int)),
                                wdg_cost_sum(constraints@) == total,
                                alt_costs_ok(constraints@),
                            decreases deltas@.len() - k,
                        {
                            let entry = deltas[k];
                            let dnode = entry.0;
                            let dcost = entry.1;
                            let partition = self.partitions[dnode as usize];
                            proof {
                                lemma_sum_deltas_prefix(deltas@, k as int);
                                lemma_sum_deltas_prefix(deltas@, k + 1);
                                assert(deltas@.take(k + 1).drop_last() =~= deltas@.take(k as int));
                                assert(deltas@.take(k + 1).last() == deltas@[k as int]);
                            }
                            let mut ci: usize = 0;
                            let mut cfound = false;
                            while !cfound && ci < constraints.len()
                                invariant
                                    ci <= constraints@.len(),
                                    cfound ==> ci < constraints@.len(),
                                decreases constraints@.len() - ci + (if cfound {
                                    0int
                                } else {
                                    1int
                                }),
                            {
                                if constraints[ci].partition == partition {
                                    cfound = true;
                                } else {
                                    ci += 1;
                                }
                            }
                            let ghost cb = constraints@;
                            if cfound {
                                proof {
                                    lemma_wdg_cost_elem_le_sum(constraints@, ci as int);
                                }
                                let cur = constraints[ci].d_cost;
                                constraints[ci] = WdgEdge { partition, d_cost: cur + dcost };
                                proof {
                                    lemma_wdg_cost_sum_update(
                                        cb,
                                        ci as int,
                                        constraints@[ci as int],
                                    );
                                }
                            } else {
                                constraints.push(WdgEdge { partition, d_cost: dcost });
                                proof {
                                    assert(constraints@.drop_last() =~= cb);
                                }
                            }
                            total = total + dcost;
                            k += 1;
                        }
                        proof {
                            assert(deltas@.take(deltas@.len() as int) =~= deltas@);
                        }
                        let within = (realized_cost as i128 + total as i128) < (cost_ub as i128);
                        proof {
                            assert(within == alt_survives(pre.engine(), e, cost_ub));
                        }
                        let ghost valid_before = valid_edges@;
                        if within {
                            valid_edges.push((e, total));
                            route.push(constraints);
                            proof {
                                assert(firsts(valid_edges@) =~= firsts(valid_before).push(e));
                            }
                        }
                    } else {
                        proof {
                            assert(!alt_survives(pre.engine(), e, cost_ub));
                        }
                    }
                    proof {
                        let esd = self.nonunit()[d as int];
                        assert(esd.take(j2 + 1).drop_last() =~= esd.take(j2 as int));
                        assert(esd.take(j2 + 1).last() == e);
                    }
                    j2 += 1;
                }
                proof {
                    assert(self.nonunit()[d as int].take(es_len as int) =~= self.nonunit()[
                        d as int
                    ]);
                    assert(firsts(valid_edges@) == survivors_of(
                        pre.engine(),
                        self.nonunit()[d as int],
                        cost_ub,
                    ));
                }
                if valid_edges.len() < 2 {
                    // forced edge or dead end: short-circuit at `pre_lb`
                    short = true;
                    have_branch = true;
                    proof {
                        first_unsat = d as int;
                    }
                    let mut fe: Vec<Edge> = Vec::new();
                    let mut k3: usize = 0;
                    while k3 < valid_edges.len()
                        invariant
                            k3 <= valid_edges@.len(),
                            fe@ == firsts(valid_edges@).take(k3 as int),
                            branch_edges_ok(fe@, n),
                            forall|q: int|
                                0 <= q < valid_edges@.len() ==> ((#[trigger] valid_edges@[q]).0.src
                                    as int) < n && (valid_edges@[q].0.tgt as int) < n,
                        decreases valid_edges@.len() - k3,
                    {
                        fe.push(valid_edges[k3].0);
                        proof {
                            assert(fe@ =~= firsts(valid_edges@).take(k3 + 1));
                        }
                        k3 += 1;
                    }
                    proof {
                        assert(fe@ =~= firsts(valid_edges@));
                    }
                    branch_edges = fe;
                } else {
                    if settings.use_wdg_bound {
                        let alt1 = &route[0];
                        let alt2 = &route[1];
                        self.wdg_solver.add_disjunction(alt1, alt2);
                    }
                    // branching score: strong branching weighs the worst case,
                    // chronological branching prefers the earliest conflict
                    let score: i128;
                    if settings.use_strong_branching {
                        let mut mn = valid_edges[0].1;
                        let mut mx = valid_edges[0].1;
                        let mut k4: usize = 1;
                        while k4 < valid_edges.len()
                            invariant
                                1 <= k4 <= valid_edges@.len(),
                            decreases valid_edges@.len() - k4,
                        {
                            let v = valid_edges[k4].1;
                            if v < mn {
                                mn = v;
                            }
                            if v > mx {
                                mx = v;
                            }
                            k4 += 1;
                        }
                        score = 5 * (mn as i128) + (mx as i128);
                    } else {
                        proof {
                            self.schedule.lemma_wf_implies_core();
                            self.schedule.lemma_state_in_range();
                            assert(self.nonunit()[d as int][0] == self.nonunit()[d as int][0]);
                        }
                        let e0 = self.nonunit_disjunctions[d][0];
                        proof {
                            assert(e0 == self.nonunit()[d as int][0]);
                        }
                        let mut earliest = self.schedule.position(e0.src as usize);
                        let mut j3: usize = 0;
                        while j3 < es_len
                            invariant
                                j3 <= es_len,
                                i32::MIN <= earliest <= i32::MAX,
                            decreases es_len - j3,
                        {
                            let e2 = self.nonunit_disjunctions[d][j3];
                            proof {
                                assert(e2 == self.nonunit()[d as int][j3 as int]);
                                self.schedule.lemma_wf_implies_core();
                                self.schedule.lemma_state_in_range();
                            }
                            let t1 = self.schedule.position(e2.src as usize);
                            let t2 = self.schedule.position(e2.tgt as usize);
                            if t1 < earliest {
                                earliest = t1;
                            }
                            if t2 < earliest {
                                earliest = t2;
                            }
                            j3 += 1;
                        }
                        score = -(earliest as i128);
                    }
                    if !have_branch || score > best_score {
                        have_branch = true;
                        best_score = score;
                        proof {
                            first_unsat = d as int;
                        }
                        let mut fe: Vec<Edge> = Vec::new();
                        let mut k5: usize = 0;
                        while k5 < valid_edges.len()
                            invariant
                                k5 <= valid_edges@.len(),
                                fe@.len() == k5,
                                fe@ == firsts(valid_edges@).take(k5 as int),
                                branch_edges_ok(fe@, n),
                                forall|q: int|
                                    0 <= q < valid_edges@.len() ==> ((
                                    #[trigger] valid_edges@[q]).0.src as int) < n && (
                                    valid_edges@[q].0.tgt as int) < n,
                            decreases valid_edges@.len() - k5,
                        {
                            fe.push(valid_edges[k5].0);
                            proof {
                                assert(fe@ =~= firsts(valid_edges@).take(k5 + 1));
                            }
                            k5 += 1;
                        }
                        proof {
                            assert(fe@ =~= firsts(valid_edges@));
                        }
                        branch_edges = fe;
                    }
                    d += 1;
                }
            }
        }
        if short {
            if pre_lb >= cost_ub {
                return MkStateResult::Ready(None);
            }
            return MkStateResult::Ready(
                Some(State { lb: pre_lb, branching: Some(branch_edges) }),
            );
        }
        if settings.use_wdg_bound && self.wdg_solver.num_disjunctions() > 0 {
            return MkStateResult::NeedsWdgBound(
                PendingState {
                    realized_cost,
                    branching: if have_branch {
                        Some(branch_edges)
                    } else {
                        None
                    },
                    cost_ub,
                },
            );
        }
        let lb = realized_cost;
        if lb >= cost_ub {
            return MkStateResult::Ready(None);
        }
        MkStateResult::Ready(
            Some(
                State {
                    lb,
                    branching: if have_branch {
                        Some(branch_edges)
                    } else {
                        None
                    },
                },
            ),
        )
    }

    /// Load a problem: every node, then every fixed edge (propagating each),
    /// collecting the open disjunctions and the fixed-edge partitioning.
    /// Returns `None` when an edge set is empty or a fixed edge is
    /// infeasible during initial propagation: the problem has no solution.
    pub fn new(problem: &DisjunctiveGraph) -> (r: Option<World>)
        requires
            problem.wf(),
            problem.nodes@.len() < u32::MAX,
        ensures
            r is Some ==> {
                let w = r.unwrap();
                &&& w.wf()
                &&& w.engine().nodes_seq().len() == problem.nodes@.len()
                &&& w.engine().committed().len() == 0
                &&& w.nonunit() == open_disjunctions(sets_view(problem.edge_sets@))
                &&& (forall|i: int|
                    0 <= i < problem.nodes@.len() ==> crate::longestpaths::same_meta(
                        #[trigger] w.engine().nodes_seq()[i],
                        crate::longestpaths::engine_node_of(problem.nodes@[i]),
                    ))
                &&& w.engine().base() == fixed_adjacency(
                    problem.nodes@.len() as nat,
                    sets_view(problem.edge_sets@),
                )
                // the loaded positions are the longest-path closure of the
                // fixed edges from the release times: feasible themselves,
                // and pointwise least among everything feasible
                &&& fixed_ok(*problem, w.engine().positions())
                &&& (forall|q: Seq<i64>|
                    #[trigger] fixed_ok(*problem, q) ==> forall|i: int|
                        0 <= i < problem.nodes@.len() ==> #[trigger] q[i]
                            >= w.engine().positions()[i])
                &&& w.parts().len() == problem.nodes@.len()
                &&& w.n_parts() <= problem.nodes@.len()
                &&& (forall|i: int|
                    0 <= i < problem.nodes@.len() ==> (#[trigger] w.parts()[i] as int)
                        < w.n_parts())
                // two nodes share a partition id exactly when fixed edges
                // connect them
                &&& (forall|i: int, j: int|
                    #![trigger w.parts()[i], w.parts()[j]]
                    0 <= i < problem.nodes@.len() && 0 <= j < problem.nodes@.len() ==> ((
                    w.parts()[i] == w.parts()[j]) <==> crate::partition::fixed_connected(
                        singleton_edges(sets_view(problem.edge_sets@)),
                        i,
                        j,
                    )))
                &&& forall|s: int|
                    0 <= s < problem.edge_sets@.len() ==> (#[trigger] problem.edge_sets@[s]@.len())
                        != 0
            },
            r is None <==> ((exists|s: int|
                0 <= s < problem.edge_sets@.len() && (#[trigger] problem.edge_sets@[s]@.len())
                    == 0) || !fixed_feasible(*problem)),
    {
        let mut schedule = LongestPaths::new();
        proof {
            schedule.lemma_wf_implies_core();
            schedule.lemma_base_is_adj_at_root();
            assert(schedule.adj() =~= Seq::new(0, |_j: int| Seq::<(u32, i64)>::empty()));
        }
        let mut i: usize = 0;
        while i < problem.nodes.len()
            invariant
                problem.wf(),
                problem.nodes@.len() < u32::MAX,
                i <= problem.nodes@.len(),
                schedule.wf(),
                schedule.committed().len() == 0,
                schedule.trail_seq().len() == 0,
                schedule.nodes_seq().len() == i,
                forall|j: int|
                    0 <= j < i ==> #[trigger] schedule.nodes_seq()[j]
                        == crate::longestpaths::engine_node_of(problem.nodes@[j]),
                schedule.adj() == Seq::new(i as nat, |_j: int| Seq::<(u32, i64)>::empty()),
                crate::longestpaths::cap_sum(schedule.nodes_seq()) == crate::problem::cost_budget(
                    problem.nodes@.take(i as int),
                ),
            decreases problem.nodes@.len() - i,
        {
            let node = problem.nodes[i];
            let ghost prev_nodes = schedule.nodes_seq();
            proof {
                crate::problem::lemma_cost_budget_prefix(problem.nodes@, i + 1);
                assert(problem.nodes@.take(i + 1).drop_last() =~= problem.nodes@.take(i as int));
                assert(problem.nodes@.take(i + 1).last() == problem.nodes@[i as int]);
                assert(crate::longestpaths::term_cap(
                    crate::longestpaths::engine_node_of(problem.nodes@[i as int]),
                ) == crate::problem::node_cost_cap(problem.nodes@[i as int]));
            }
            let ghost prev_adj = schedule.adj();
            schedule.add_node(&node);
            proof {
                assert(schedule.nodes_seq().drop_last() =~= prev_nodes);
                assert(schedule.adj() =~= Seq::new(
                    (i + 1) as nat,
                    |_j: int| Seq::<(u32, i64)>::empty(),
                ));
            }
            i += 1;
        }
        let n = schedule.num_nodes();
        proof {
            // every witness of the fixed structure starts above the release times
            assert forall|q: Seq<i64>| #[trigger] fixed_ok(*problem, q) implies forall|i: int|
                0 <= i < n ==> #[trigger] q[i] >= schedule.positions()[i] by {
                assert forall|i: int| 0 <= i < n implies #[trigger] q[i]
                    >= schedule.positions()[i] by {
                    assert(schedule.nodes_seq()[i] == crate::longestpaths::engine_node_of(
                        problem.nodes@[i],
                    ));
                }
            }
        }
        // commit the fixed edges, collect the open disjunctions
        let mut nonunit: Vec<Vec<Edge>> = Vec::new();
        let mut fixed: Vec<Edge> = Vec::new();
        let mut s: usize = 0;
        proof {
            assert(sets_view(nonunit@) =~= Seq::<Seq<Edge>>::empty());
            assert(open_disjunctions(sets_view(problem.edge_sets@).take(0)) =~= Seq::<
                Seq<Edge>,
            >::empty());
            assert(fixed@ =~= singleton_edges(sets_view(problem.edge_sets@).take(0)));
        }
        while s < problem.edge_sets.len()
            invariant
                problem.wf(),
                s <= problem.edge_sets@.len(),
                n == schedule.nodes_seq().len(),
                n == problem.nodes@.len(),
                n < u32::MAX,
                schedule.wf(),
                schedule.committed().len() == 0,
                schedule.trail_seq().len() == 0,
                sets_view(nonunit@) == open_disjunctions(
                    sets_view(problem.edge_sets@).take(s as int),
                ),
                forall|j: int|
                    0 <= j < n ==> crate::longestpaths::same_meta(
                        #[trigger] schedule.nodes_seq()[j],
                        crate::longestpaths::engine_node_of(problem.nodes@[j]),
                    ),
                schedule.adj() == fixed_adjacency(
                    n as nat,
                    sets_view(problem.edge_sets@).take(s as int),
                ),
                forall|q: Seq<i64>|
                    #[trigger] fixed_ok(*problem, q) ==> forall|i: int|
                        0 <= i < n ==> #[trigger] q[i] >= schedule.positions()[i],
                fixed@ == singleton_edges(sets_view(problem.edge_sets@).take(s as int)),
                forall|k: int|
                    0 <= k < fixed@.len() ==> (#[trigger] fixed@[k]).src < n && fixed@[k].tgt < n,
                forall|s2: int|
                    0 <= s2 < s ==> (#[trigger] problem.edge_sets@[s2]@.len()) != 0,
                forall|d: int, j: int|
                    0 <= d < sets_view(nonunit@).len() && 0 <= j < sets_view(nonunit@)[d].len()
                        ==> (#[trigger] sets_view(nonunit@)[d][j]).src < n && sets_view(
                        nonunit@,
                    )[d][j].tgt < n,
            decreases problem.edge_sets@.len() - s,
        {
            let set_len = problem.edge_sets[s].len();
            proof {
                let sv = sets_view(problem.edge_sets@);
                assert(sv.take(s + 1).drop_last() =~= sv.take(s as int));
                assert(sv.take(s + 1).last() == sv[s as int]);
            }
            if set_len == 0 {
                proof {
                    assert(problem.edge_sets@[s as int]@.len() == 0);
                }
                return None;
            } else if set_len == 1 {
                let e = problem.edge_sets[s][0];
                let ghost pre_sched = schedule;
                if !schedule.add_fixed_edge(e) {
                    // the committed fixed prefix already rules out every
                    // witness of the whole fixed structure
                    proof {
                        assert(e == sets_view(problem.edge_sets@)[s as int][0]);
                        assert forall|q: Seq<i64>| !fixed_ok(*problem, q) by {
                            if fixed_ok(*problem, q) {
                                lemma_fixed_witness_extends(*problem, pre_sched, s as int, q);
                                assert(crate::longestpaths::can_extend(
                                    pre_sched.nodes_seq(),
                                    crate::longestpaths::push_adj(pre_sched.adj(), e),
                                    pre_sched.positions(),
                                ));
                            }
                        }
                        assert(!fixed_feasible(*problem));
                    }
                    return None;
                }
                fixed.push(e);
                proof {
                    let sv = sets_view(problem.edge_sets@);
                    assert(e == sv[s as int][0]);
                    assert(fixed@ =~= singleton_edges(sv.take(s + 1)));
                    assert(schedule.adj() == crate::longestpaths::push_adj(
                        fixed_adjacency(n as nat, sv.take(s as int)),
                        e,
                    ));
                    assert(schedule.adj() == fixed_adjacency(n as nat, sv.take(s + 1)));
                    // witnesses still dominate the tightened load state
                    assert forall|q: Seq<i64>| #[trigger] fixed_ok(*problem, q) implies forall|
                        i: int,
                    | 0 <= i < n ==> #[trigger] q[i] >= schedule.positions()[i] by {
                        lemma_fixed_witness_extends(*problem, pre_sched, s as int, q);
                        assert(crate::longestpaths::valid_extension(
                            pre_sched.nodes_seq(),
                            crate::longestpaths::push_adj(pre_sched.adj(), e),
                            pre_sched.positions(),
                            q,
                        ));
                    }
                }
            } else {
                let mut copy: Vec<Edge> = Vec::new();
                let mut j: usize = 0;
                while j < problem.edge_sets[s].len()
                    invariant
                        s < problem.edge_sets@.len(),
                        j <= problem.edge_sets@[s as int]@.len(),
                        copy@ == problem.edge_sets@[s as int]@.take(j as int),
                    decreases problem.edge_sets@[s as int]@.len() - j,
                {
                    copy.push(problem.edge_sets[s][j]);
                    proof {
                        assert(copy@ =~= problem.edge_sets@[s as int]@.take(j + 1));
                    }
                    j += 1;
                }
                proof {
                    assert(copy@ =~= problem.edge_sets@[s as int]@);
                }
                nonunit.push(copy);
                proof {
                    let sv = sets_view(problem.edge_sets@);
                    assert(sets_view(nonunit@) =~= open_disjunctions(sv.take(s as int)).push(
                        problem.edge_sets@[s as int]@,
                    ));
                    assert(fixed@ =~= singleton_edges(sv.take(s + 1)));
                }
            }
            s += 1;
        }
        proof {
            assert(sets_view(problem.edge_sets@).take(problem.edge_sets@.len() as int)
                =~= sets_view(problem.edge_sets@));
            schedule.lemma_wf_implies_core();
            schedule.lemma_base_is_adj_at_root();
            // the loaded positions themselves witness fixed feasibility
            schedule.lemma_state_in_range();
            schedule.lemma_base_satisfied();
            assert(fixed_ok(*problem, schedule.positions())) by {
                assert forall|i: int|
                    0 <= i < n implies problem.nodes@[i].lb <= #[trigger] schedule.positions()[i]
                    && schedule.positions()[i] <= problem.nodes@[i].ub by {
                    assert(crate::longestpaths::same_meta(
                        schedule.nodes_seq()[i],
                        crate::longestpaths::engine_node_of(problem.nodes@[i]),
                    ));
                }
                assert(crate::longestpaths::sat_positions(schedule.adj(), schedule.positions()));
            }
            assert(fixed_feasible(*problem));
        }
        let (partitions, n_partitions) = compute_partitions(n, &fixed);
        let w = World {
            schedule,
            nonunit_disjunctions: nonunit,
            n_partitions,
            partitions,
            wdg_solver: WdgSolverBinaryMIP::new(),
        };
        Some(w)
    }
}

} // verus!
