//! Tests of the evaluator, the WDG solver, the partitioning, and the
//! branch-and-bound driver, including brute-force cross-checks.

use disjunctive::bnb::{solve, Search, SolverSettings, StepResult};
use disjunctive::partition::compute_partitions;
use disjunctive::problem::{DisjunctiveGraph, Edge, Node};
use disjunctive::wdg::{WdgEdge, WdgSolverBinaryMIP};
use disjunctive::world::{MkStateResult, World};

fn node(lb: i32, ub: i32, coeff: u32, threshold: i32) -> Node {
    Node { lb, ub, coeff, threshold }
}

fn edge(src: u32, tgt: u32, weight: i32) -> Edge {
    Edge { src, tgt, weight }
}

fn plain_settings(strong: bool) -> SolverSettings {
    SolverSettings { use_strong_branching: strong, use_wdg_bound: false, use_relaxed_wdg: false }
}

/// The optimal value of the WDG selection subproblem by brute force: one
/// alternative per disjunction, each partition pays the largest cost
/// imposed on it.
fn brute_mip(pairs: &[(Vec<WdgEdge>, Vec<WdgEdge>)]) -> i64 {
    let n = pairs.len();
    assert!(n < 20);
    let mut best = i64::MAX;
    for mask in 0..(1u32 << n) {
        let mut floors: Vec<(u32, i64)> = Vec::new();
        for (i, pair) in pairs.iter().enumerate() {
            let alt = if mask & (1 << i) != 0 { &pair.0 } else { &pair.1 };
            for w in alt.iter() {
                match floors.iter_mut().find(|f| f.0 == w.partition) {
                    Some(f) => {
                        if w.d_cost > f.1 {
                            f.1 = w.d_cost;
                        }
                    }
                    None => floors.push((w.partition, w.d_cost.max(0))),
                }
            }
        }
        let total: i64 = floors.iter().map(|f| f.1.max(0)).sum();
        best = best.min(total);
    }
    if n == 0 { 0 } else { best }
}

/// The minimum completion value over every total resolution of the
/// disjunctions, computed through the verified engine by pushing each
/// combination.
fn brute_force_optimum(problem: &DisjunctiveGraph) -> Option<i64> {
    let open: Vec<Vec<Edge>> =
        problem.edge_sets.iter().filter(|s| s.len() >= 2).cloned().collect();
    let mut best: Option<i64> = None;
    let mut counters = vec![0usize; open.len()];
    loop {
        let mut world = World::new(problem).expect("loadable");
        let mut pushed = 0;
        let mut feasible = true;
        for (d, c) in counters.iter().enumerate() {
            if world.push(open[d][*c]) {
                pushed += 1;
            } else {
                feasible = false;
                break;
            }
        }
        if feasible {
            let v = world.longestpaths_bound();
            best = Some(best.map_or(v, |b: i64| b.min(v)));
        }
        for _ in 0..pushed {
            world.pop();
        }
        // next combination
        let mut d = 0;
        loop {
            if d == counters.len() {
                return best;
            }
            counters[d] += 1;
            if counters[d] < open[d].len() {
                break;
            }
            counters[d] = 0;
            d += 1;
        }
    }
}

fn two_disjunction_problem() -> DisjunctiveGraph {
    DisjunctiveGraph {
        nodes: vec![node(0, 100, 0, 0), node(0, 100, 2, 0), node(0, 100, 3, 0)],
        edge_sets: vec![
            vec![edge(0, 1, 4), edge(1, 0, 2)],
            vec![edge(1, 2, 3), edge(2, 1, 1)],
        ],
    }
}

/// A binary disjunction whose second alternative violates an upper bound:
/// evaluation short-circuits on the forced edge, and after committing it
/// the node is terminal with the forced choice's cost.
#[test]
fn scenario_forced_edge() {
    let problem = DisjunctiveGraph {
        nodes: vec![node(0, 0, 0, 0), node(0, 10, 1, 0)],
        edge_sets: vec![vec![edge(0, 1, 3), edge(1, 0, 4)]],
    };
    let settings = plain_settings(true);
    let mut world = World::new(&problem).expect("loadable");
    let pre = world.longestpaths_bound();
    match world.mk_state(&settings, pre, i64::MAX) {
        MkStateResult::Ready(Some(st)) => {
            let b = st.branching.expect("forced edge survives");
            assert_eq!(b.len(), 1);
            assert_eq!(b[0], edge(0, 1, 3));
            assert_eq!(st.lb, pre);
        }
        _ => panic!("expected a ready state"),
    }
    // committing the forced edge resolves the schedule at its cost
    assert!(world.push(edge(0, 1, 3)));
    match world.mk_state(&settings, 0, i64::MAX) {
        MkStateResult::Ready(Some(st)) => {
            assert!(st.branching.is_none());
            assert_eq!(st.lb, 3);
        }
        _ => panic!("expected a terminal state"),
    }
    // the search finds exactly that value
    let (stats, value) = solve(&problem, &settings, 1000);
    assert_eq!(value, Some(3));
    assert_eq!(stats.best_value, 3);
    assert_eq!(stats.root_bound, 0);
    assert!(stats.n_nodes_solved >= 1);
}

/// With both alternatives feasible in distinct partitions, the WDG bound
/// is at least the plain propagation bound on the same node.
#[test]
fn scenario_wdg_bound_tightens() {
    let problem = DisjunctiveGraph {
        nodes: vec![
            node(0, 1000, 0, 0),
            node(0, 1000, 1, 0),
            node(0, 1000, 0, 0),
            node(0, 1000, 1, 0),
        ],
        edge_sets: vec![vec![edge(0, 1, 5), edge(2, 3, 5)]],
    };
    // plain bound
    let plain = plain_settings(true);
    let mut world = World::new(&problem).expect("loadable");
    let lb_plain = match world.mk_state(&plain, 0, i64::MAX) {
        MkStateResult::Ready(Some(st)) => st.lb,
        _ => panic!("expected a ready state"),
    };
    // WDG bound via the external-optimizer protocol, brute-forced here
    let wdg = SolverSettings {
        use_strong_branching: true,
        use_wdg_bound: true,
        use_relaxed_wdg: false,
    };
    let mut world2 = World::new(&problem).expect("loadable");
    let lb_wdg = match world2.mk_state(&wdg, 0, i64::MAX) {
        MkStateResult::NeedsWdgBound(p) => {
            let pairs = world2.wdg_disjunctions();
            assert_eq!(pairs.len(), 1);
            let bound = brute_mip(&pairs);
            assert_eq!(bound, 5);
            world2
                .finish_state(p, bound)
                .expect("bound below the cost cap")
                .lb
        }
        _ => panic!("expected a pending state"),
    };
    assert!(lb_wdg >= lb_plain);
    assert_eq!(lb_plain, 0);
    assert_eq!(lb_wdg, 5);
}

/// Soundness on a small instance: the search's reported optimum equals the
/// brute-force minimum over all resolutions, under both branching rules.
#[test]
fn search_matches_brute_force() {
    let problem = two_disjunction_problem();
    let expected = brute_force_optimum(&problem);
    assert!(expected.is_some());
    for strong in [false, true] {
        let (stats, value) = solve(&problem, &plain_settings(strong), 100_000);
        assert_eq!(value, expected);
        assert_eq!(stats.best_value, expected.unwrap());
        assert!(stats.best_bound <= expected.unwrap());
    }
}

/// A cooperative budget of zero: the driver still solves the root
/// iteration, then returns either no incumbent or a feasible one.
#[test]
fn scenario_zero_budget() {
    let problem = two_disjunction_problem();
    let (stats, value) = solve(&problem, &plain_settings(true), 0);
    assert!(stats.n_nodes_solved >= 1);
    if let Some(v) = value {
        let brute = brute_force_optimum(&problem).unwrap();
        assert!(v >= brute);
    }
}

/// An empty edge set makes the whole problem infeasible at load.
#[test]
fn empty_edge_set_is_infeasible() {
    let problem = DisjunctiveGraph {
        nodes: vec![node(0, 10, 1, 0)],
        edge_sets: vec![vec![]],
    };
    assert!(World::new(&problem).is_none());
    let (stats, value) = solve(&problem, &plain_settings(true), 100);
    assert!(value.is_none());
    assert_eq!(stats.n_nodes_solved, 0);
}

/// A fixed edge that violates a node's upper bound during the initial
/// propagation also means "no solution".
#[test]
fn infeasible_fixed_edge_is_no_solution() {
    let problem = DisjunctiveGraph {
        nodes: vec![node(0, 100, 1, 0), node(0, 3, 1, 0)],
        edge_sets: vec![vec![edge(0, 1, 7)]],
    };
    assert!(World::new(&problem).is_none());
    let (_, value) = solve(&problem, &plain_settings(false), 100);
    assert!(value.is_none());
}

/// Partitioning: nodes joined by fixed edges share a dense id, others do
/// not.
#[test]
fn partitions_from_fixed_edges() {
    let fixed = vec![edge(0, 1, 1), edge(2, 3, 1)];
    let (parts, count) = compute_partitions(5, &fixed);
    assert_eq!(parts.len(), 5);
    assert_eq!(count, 3);
    assert_eq!(parts[0], parts[1]);
    assert_eq!(parts[2], parts[3]);
    assert_ne!(parts[0], parts[2]);
    assert_ne!(parts[0], parts[4]);
    assert_ne!(parts[2], parts[4]);
    for p in parts.iter() {
        assert!((*p as usize) < count);
    }
}

/// Dominance pruning: a pair weaker on both sides is dropped, a pair
/// stronger on both sides evicts, and neither changes the brute-force
/// optimum of the selection subproblem.
#[test]
fn dominance_pruning_is_value_safe() {
    let mut solver = WdgSolverBinaryMIP::new();
    let a1 = vec![WdgEdge { partition: 0, d_cost: 5 }];
    let a2 = vec![WdgEdge { partition: 1, d_cost: 7 }];
    solver.add_disjunction(&a1, &a2);
    assert_eq!(solver.num_disjunctions(), 1);

    // dominated on both sides: rejected outright
    let b1 = vec![WdgEdge { partition: 0, d_cost: 3 }];
    let b2 = vec![WdgEdge { partition: 1, d_cost: 6 }];
    solver.add_disjunction(&b1, &b2);
    assert_eq!(solver.num_disjunctions(), 1);
    let with_first = solver.mip_disjunctions();
    assert_eq!(with_first.len(), 1);

    // the rejected pair would not have changed the optimum
    let mut kept_both = with_first.clone();
    kept_both.push((b1.clone(), b2.clone()));
    assert_eq!(brute_mip(&with_first), brute_mip(&kept_both));

    // dominating on both sides: evicts the earlier pair
    let c1 = vec![WdgEdge { partition: 0, d_cost: 9 }];
    let c2 = vec![WdgEdge { partition: 1, d_cost: 9 }];
    solver.add_disjunction(&c1, &c2);
    assert_eq!(solver.num_disjunctions(), 2);
    let active = solver.mip_disjunctions();
    assert_eq!(active.len(), 1);
    assert_eq!(active[0].0[0].d_cost, 9);
    // pruning the evicted pair keeps the optimum
    let mut unpruned = active.clone();
    unpruned.push((a1.clone(), a2.clone()));
    assert_eq!(brute_mip(&active), brute_mip(&unpruned));

    solver.clear();
    assert_eq!(solver.num_disjunctions(), 0);
}

/// Driving the step machine by hand with the WDG bound enabled: the search
/// pauses for bounds and still reaches the brute-force optimum.
#[test]
fn step_machine_with_wdg_bound() {
    let problem = two_disjunction_problem();
    let expected = brute_force_optimum(&problem).unwrap();
    let settings = SolverSettings {
        use_strong_branching: true,
        use_wdg_bound: true,
        use_relaxed_wdg: false,
    };
    let mut search = Search::new(&problem, &settings).expect("loadable");
    let mut pending_bound: Option<i64> = None;
    let mut guard = 0;
    loop {
        guard += 1;
        assert!(guard < 100_000);
        let timed_out = search.steps() > 10_000;
        match search.step(timed_out, pending_bound.take()) {
            StepResult::Finished => break,
            StepResult::Working => {}
            StepResult::WdgBoundNeeded => {
                let pairs = search.wdg_disjunctions();
                pending_bound = Some(brute_mip(&pairs));
            }
        }
    }
    assert_eq!(search.best_value(), Some(expected));
}
