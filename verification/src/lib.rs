//! Branch-and-bound solver for disjunctive scheduling problems.
//!
//! A problem is a set of nodes with time windows and cost coefficients,
//! together with edge sets: a singleton set is a permanently fixed
//! precedence constraint, a larger set is an open disjunction of which
//! exactly one edge must ultimately be chosen. The solver maintains
//! earliest feasible times by incremental longest-path propagation with
//! exact rollback, and searches the space of disjunction resolutions by
//! best-first/depth-first branch and bound.

pub mod bnb;
pub mod longestpaths;
pub mod wdg;
pub mod partition;
pub mod problem;
pub mod world;
