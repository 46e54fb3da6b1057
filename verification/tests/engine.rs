//! Tests of the longest-path propagation engine: loading, propagation,
//! exact rollback, hypothetical purity, and the objective formula.

use disjunctive::longestpaths::LongestPaths;
use disjunctive::problem::{Edge, Node};

fn node(lb: i32, ub: i32, coeff: u32, threshold: i32) -> Node {
    Node { lb, ub, coeff, threshold }
}

fn edge(src: u32, tgt: u32, weight: i32) -> Edge {
    Edge { src, tgt, weight }
}

/// Two nodes, one fixed edge `0 -> 1` of weight 5, windows `[0,0]` and
/// `[0, inf]`: after load the positions are `[0, 5]` and the objective
/// follows the coefficients.
#[test]
fn scenario_fixed_edge_positions() {
    let mut lp = LongestPaths::new();
    lp.add_node(&node(0, 0, 1, 0));
    lp.add_node(&node(0, i32::MAX, 2, 0));
    assert!(lp.add_fixed_edge(edge(0, 1, 5)));
    assert_eq!(lp.position(0), 0);
    assert_eq!(lp.position(1), 5);
    // objective = 1*max(0, 0-0) + 2*max(0, 5-0)
    assert_eq!(lp.objective_value(), 10);
    assert_eq!(lp.depth(), 0);
}

/// An edge whose target upper bound would be exceeded is rejected and the
/// engine is left exactly as it was.
#[test]
fn scenario_push_ub_violation_rejected() {
    let mut lp = LongestPaths::new();
    lp.add_node(&node(0, 100, 1, 0));
    lp.add_node(&node(0, 3, 4, 0));
    let before = (lp.position(0), lp.position(1), lp.objective_value(), lp.depth());
    let (ok, deltas) = lp.push_edge(edge(0, 1, 7));
    assert!(!ok);
    assert!(deltas.is_empty());
    let after = (lp.position(0), lp.position(1), lp.objective_value(), lp.depth());
    assert_eq!(before, after);
}

/// A cycle of positive total weight back into the pushed edge's source is
/// rejected, with the engine unchanged.
#[test]
fn push_positive_cycle_rejected() {
    let mut lp = LongestPaths::new();
    lp.add_node(&node(0, 1000, 0, 0));
    lp.add_node(&node(0, 1000, 0, 0));
    assert!(lp.add_fixed_edge(edge(0, 1, 3)));
    let before = (lp.position(0), lp.position(1), lp.objective_value());
    let (ok, _) = lp.push_edge(edge(1, 0, 1));
    assert!(!ok);
    let after = (lp.position(0), lp.position(1), lp.objective_value());
    assert_eq!(before, after);
}

/// Push/pop exactness: a successful push followed by the matching pop
/// restores every position and the objective value bit for bit.
#[test]
fn push_pop_restores_exactly() {
    let mut lp = LongestPaths::new();
    lp.add_node(&node(0, 100, 1, 0));
    lp.add_node(&node(2, 100, 3, 1));
    lp.add_node(&node(0, 100, 5, 10));
    assert!(lp.add_fixed_edge(edge(0, 1, 4)));
    let before = (lp.position(0), lp.position(1), lp.position(2), lp.objective_value());
    let (ok, deltas) = lp.push_edge(edge(1, 2, 6));
    assert!(ok);
    // position(2) rose from 0 to 10, exactly at its cost threshold
    assert_eq!(lp.position(2), 10);
    let total: i64 = deltas.iter().map(|d| d.1).sum();
    assert_eq!(lp.objective_value(), before.3 + total);
    let changed = lp.pop();
    assert!(changed.contains(&2));
    let after = (lp.position(0), lp.position(1), lp.position(2), lp.objective_value());
    assert_eq!(before, after);
}

/// Hypothetical evaluation has no observable effect, whether the edge is
/// feasible or not.
#[test]
fn hypothetical_is_pure() {
    let mut lp = LongestPaths::new();
    lp.add_node(&node(0, 100, 2, 0));
    lp.add_node(&node(0, 8, 7, 2));
    assert!(lp.add_fixed_edge(edge(0, 1, 1)));
    let before = (lp.position(0), lp.position(1), lp.objective_value(), lp.depth());

    // feasible hypothetical: reports the would-be cost deltas
    let (ok, deltas) = lp.hypothetical_edge_lb(edge(0, 1, 8));
    assert!(ok);
    let total: i64 = deltas.iter().map(|d| d.1).sum();
    // position(1) would rise from 1 to 8: delta 7*(8-2) - 7*0 = 42
    assert_eq!(total, 42);
    assert_eq!(
        before,
        (lp.position(0), lp.position(1), lp.objective_value(), lp.depth())
    );

    // infeasible hypothetical: also no effect
    let (ok2, deltas2) = lp.hypothetical_edge_lb(edge(0, 1, 9));
    assert!(!ok2);
    assert!(deltas2.is_empty());
    assert_eq!(
        before,
        (lp.position(0), lp.position(1), lp.objective_value(), lp.depth())
    );
}

/// The objective formula: `coeff * max(0, position - threshold)`, summed.
#[test]
fn objective_formula_exact() {
    let mut lp = LongestPaths::new();
    lp.add_node(&node(2, 100, 3, 2));
    lp.add_node(&node(0, 100, 4, 6));
    assert_eq!(lp.objective_value(), 0);
    assert!(lp.add_fixed_edge(edge(0, 1, 5)));
    // positions [2, 7]: objective = 3*max(0,2-2) + 4*max(0,7-6) = 4
    assert_eq!(lp.objective_value(), 4);
    let (ok, _) = lp.push_edge(edge(0, 1, 9));
    assert!(ok);
    // positions [2, 11]: objective = 4*max(0,11-6) = 20
    assert_eq!(lp.position(1), 11);
    assert_eq!(lp.objective_value(), 20);
}

/// Nodes below their cost threshold contribute nothing, even after moving.
#[test]
fn objective_threshold_clamps_at_zero() {
    let mut lp = LongestPaths::new();
    lp.add_node(&node(0, 100, 9, 50));
    lp.add_node(&node(0, 100, 9, 50));
    assert!(lp.add_fixed_edge(edge(0, 1, 10)));
    assert_eq!(lp.position(1), 10);
    assert_eq!(lp.objective_value(), 0);
}

/// `updated_since` lists the nodes touched since a checkpoint.
#[test]
fn updated_since_reports_touched_nodes() {
    let mut lp = LongestPaths::new();
    lp.add_node(&node(0, 100, 1, 0));
    lp.add_node(&node(0, 100, 1, 0));
    lp.add_node(&node(0, 100, 1, 0));
    assert!(lp.add_fixed_edge(edge(0, 1, 2)));
    let (ok, _) = lp.push_edge(edge(1, 2, 2));
    assert!(ok);
    let touched = lp.updated_since(0);
    assert_eq!(touched, vec![2]);
    let (ok2, _) = lp.push_edge(edge(0, 2, 50));
    assert!(ok2);
    // checkpoint 2 is the state just before the second push
    let touched2 = lp.updated_since(2);
    assert_eq!(touched2, vec![2]);
    assert_eq!(lp.updated_since(0), vec![2, 2]);
}

/// LIFO discipline across several pushes: popping twice restores the state
/// before both pushes, in order.
#[test]
fn nested_push_pop_lifo() {
    let mut lp = LongestPaths::new();
    lp.add_node(&node(0, 100, 1, 0));
    lp.add_node(&node(0, 100, 2, 0));
    lp.add_node(&node(0, 100, 3, 0));
    let s0 = (lp.position(0), lp.position(1), lp.position(2), lp.objective_value());
    let (ok1, _) = lp.push_edge(edge(0, 1, 4));
    assert!(ok1);
    let s1 = (lp.position(0), lp.position(1), lp.position(2), lp.objective_value());
    let (ok2, _) = lp.push_edge(edge(1, 2, 4));
    assert!(ok2);
    assert_eq!(lp.position(2), 8);
    lp.pop();
    assert_eq!(
        s1,
        (lp.position(0), lp.position(1), lp.position(2), lp.objective_value())
    );
    lp.pop();
    assert_eq!(
        s0,
        (lp.position(0), lp.position(1), lp.position(2), lp.objective_value())
    );
}
