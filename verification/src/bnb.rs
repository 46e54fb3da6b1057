//! Branch-and-bound driver: a search tree of decision nodes over a shared
//! propagation engine, navigated between tree positions by popping and
//! pushing edges, with a best-first frontier and depth-first descent into
//! a promising child. The tightened WDG bound needs the external
//! optimizer, so the driver is a step machine: `step` runs one unit of
//! work and, when a bound is needed, pauses in an awaiting phase until the
//! caller supplies the optimizer's value.

use vstd::prelude::*;

use crate::problem::{DisjunctiveGraph, Edge};
use crate::world::{branch_edges_ok, MkStateResult, PendingState, State, World};

verus! {

/// Search configuration. `use_relaxed_wdg` only matters when
/// `use_wdg_bound` is set: it lets the external optimizer solve the
/// selection variables as continuous relaxations.
#[derive(Clone, Copy, Debug)]
pub struct SolverSettings {
    pub use_strong_branching: bool,
    pub use_wdg_bound: bool,
    pub use_relaxed_wdg: bool,
}

/// Diagnostic counters accumulated over a search run.
#[derive(Clone, Copy, Debug)]
pub struct SolverStats {
    pub n_states_generated: usize,
    pub n_nodes_generated: usize,
    pub n_nodes_solved: usize,
    pub max_depth: u32,
    pub solution_depth: u32,
    pub root_bound: i64,
    pub best_bound: i64,
    pub best_value: i64,
}

/// A search-tree node: immutable once created, shared by index into the
/// arena, never freed during a run.
pub struct TreeNode {
    pub lb: i64,
    pub branching: Option<Vec<Edge>>,
    pub depth: usize,
    pub parent: Option<(usize, Edge)>,
}

/// Where the step machine stands.
#[derive(Clone, Copy, PartialEq, Eq, Structural, Debug)]
pub enum Phase {
    /// The root node has not been evaluated yet.
    EvalRoot,
    /// Root evaluation waits for the WDG subproblem's optimum.
    AwaitRoot,
    /// At the top of the search loop: navigate to the target and expand it.
    Ready,
    /// Mid-expansion: the child evaluation at `branch_k` waits for the WDG
    /// subproblem's optimum.
    AwaitBranch,
    /// The search is over; the stats and incumbent are final.
    Done,
}

/// What one `step` call did.
pub enum StepResult {
    /// More work remains: call `step` again.
    Working,
    /// Solve the subproblem in `wdg_disjunctions()` and pass its optimal
    /// value to the next `step` call.
    WdgBoundNeeded,
    /// The search is finished.
    Finished,
}

/// A tree depth clamped into the 32-bit diagnostic counter.
pub open spec fn clamp_depth(d: int) -> int {
    if d < u32::MAX {
        d
    } else {
        u32::MAX as int
    }
}

/// Arena consistency: the root is node 0 at depth 0; every other node has
/// an earlier parent one level up, reached by an edge between existing
/// problem nodes; branching edge lists are valid too.
pub open spec fn arena_wf(nodes: Seq<TreeNode>, n: int) -> bool {
    forall|i: int|
        0 <= i < nodes.len() ==> {
            &&& ((#[trigger] nodes[i]).parent is Some <==> i != 0)
            &&& (nodes[i].parent is Some ==> {
                let p = nodes[i].parent.unwrap().0 as int;
                let e = nodes[i].parent.unwrap().1;
                &&& 0 <= p < i
                &&& nodes[i].depth == nodes[p].depth + 1
                &&& (e.src as int) < n
                &&& (e.tgt as int) < n
            })
            &&& (i == 0 ==> nodes[i].depth == 0)
            &&& nodes[i].depth <= i
            &&& (nodes[i].branching is Some ==> branch_edges_ok(nodes[i].branching.unwrap()@, n))
        }
}

/// The edges committed on the way from the root to tree node `i`.
pub open spec fn path_edges(nodes: Seq<TreeNode>, i: int) -> Seq<Edge>
    decreases (if i >= 0 {
        i
    } else {
        0
    }),
{
    if 0 <= i < nodes.len() {
        match nodes[i].parent {
            Some(pe) => {
                if 0 <= pe.0 < i {
                    path_edges(nodes, pe.0 as int).push(pe.1)
                } else {
                    Seq::empty()
                }
            },
            None => Seq::empty(),
        }
    } else {
        Seq::empty()
    }
}

/// On a consistent arena, the path to a node is as long as it is deep.
pub proof fn lemma_path_edges_len(nodes: Seq<TreeNode>, n: int, i: int)
    requires
        arena_wf(nodes, n),
        0 <= i < nodes.len(),
    ensures
        path_edges(nodes, i).len() == nodes[i].depth,
    decreases i,
{
    if nodes[i].parent is Some {
        lemma_path_edges_len(nodes, n, nodes[i].parent.unwrap().0 as int);
    }
}

/// Appending a leaf never changes the path to an existing node.
pub proof fn lemma_path_edges_push(nodes: Seq<TreeNode>, t: TreeNode, i: int)
    requires
        0 <= i < nodes.len(),
    ensures
        path_edges(nodes.push(t), i) == path_edges(nodes, i),
    decreases i,
{
    if nodes[i].parent is Some && 0 <= nodes[i].parent.unwrap().0 < i {
        lemma_path_edges_push(nodes, t, nodes[i].parent.unwrap().0 as int);
    }
}

/// The branch-and-bound search: the shared world, the tree arena, the
/// best-first frontier, the incumbent, and the step machine's phase.
pub struct Search {
    world: World,
    problem: Ghost<DisjunctiveGraph>,
    settings: SolverSettings,
    nodes: Vec<TreeNode>,
    frontier: Vec<usize>,
    world_pos: usize,
    target: usize,
    best: Option<usize>,
    stats: SolverStats,
    phase: Phase,
    pending: Option<PendingState>,
    steps_done: u64,
    cur_branches: Vec<Edge>,
    branch_k: usize,
    new_children: Vec<usize>,
}

/// Saturating diagnostic counter.
fn bump(x: usize) -> (r: usize)
    ensures
        r == x + 1 || r == usize::MAX,
{
    if x < usize::MAX {
        x + 1
    } else {
        x
    }
}

/// An owned copy of an edge list.
fn copy_edge_list(v: &Vec<Edge>) -> (r: Vec<Edge>)
    ensures
        r@ == v@,
{
    let mut r: Vec<Edge> = Vec::new();
    let mut i: usize = 0;
    while i < v.len()
        invariant
            i <= v@.len(),
            r@ == v@.take(i as int),
        decreases v@.len() - i,
    {
        r.push(v[i]);
        proof {
            assert(r@ =~= v@.take(i + 1));
        }
        i += 1;
    }
    proof {
        assert(v@.take(v@.len() as int) =~= v@);
    }
    r
}

impl Search {
    pub closed spec fn settings_spec(self) -> SolverSettings {
        self.settings
    }

    /// The problem this search was loaded from.
    pub closed spec fn problem_spec(self) -> DisjunctiveGraph {
        self.problem@
    }

    pub closed spec fn steps_spec(self) -> u64 {
        self.steps_done
    }

    pub closed spec fn is_awaiting(self) -> bool {
        self.phase is AwaitRoot || self.phase is AwaitBranch
    }

    pub closed spec fn is_eval_root(self) -> bool {
        self.phase is EvalRoot
    }

    pub closed spec fn is_done(self) -> bool {
        self.phase is Done
    }

    /// The incumbent's value, `None` while no complete schedule was found.
    pub closed spec fn incumbent(self) -> Option<i64> {
        match self.best {
            Some(b) => Some(self.nodes@[b as int].lb),
            None => None,
        }
    }

    spec fn n(self) -> int {
        self.world.engine().nodes_seq().len() as int
    }

    /// The world still reflects the loaded problem: same node data, the
    /// fixed structure as its base, and the problem's open disjunctions.
    spec fn problem_tie(self) -> bool {
        &&& (forall|s: int|
            0 <= s < self.problem@.edge_sets@.len() ==> (
            #[trigger] self.problem@.edge_sets@[s]@).len() != 0)
        &&& self.world.engine().nodes_seq().len() == self.problem@.nodes@.len()
        &&& (forall|i: int|
            0 <= i < self.problem@.nodes@.len() ==> crate::longestpaths::same_meta(
                #[trigger] self.world.engine().nodes_seq()[i],
                crate::longestpaths::engine_node_of(self.problem@.nodes@[i]),
            ))
        &&& self.world.engine().base() == crate::world::fixed_adjacency(
            self.problem@.nodes@.len() as nat,
            crate::world::sets_view(self.problem@.edge_sets@),
        )
        &&& self.world.nonunit() == crate::world::open_disjunctions(
            crate::world::sets_view(self.problem@.edge_sets@),
        )
    }

    spec fn base_wf(self) -> bool {
        &&& self.world.wf()
        &&& self.problem_tie()
        &&& (self.settings.use_wdg_bound ==> forall|d: int|
            0 <= d < self.world.nonunit().len() ==> (#[trigger] self.world.nonunit()[d]).len()
                <= 2)
        &&& arena_wf(self.nodes@, self.n())
        &&& (forall|i: int|
            0 <= i < self.nodes@.len() && (#[trigger] self.nodes@[i]).branching is None
                ==> crate::world::feasible_value(self.problem@, self.nodes@[i].lb as int))
        &&& (self.best is Some ==> self.nodes@[self.best.unwrap() as int].branching is None)
        &&& forall|q: int|
            0 <= q < self.frontier@.len() ==> (#[trigger] self.frontier@[q] as int)
                < self.nodes@.len()
        &&& forall|q: int|
            0 <= q < self.new_children@.len() ==> (#[trigger] self.new_children@[q] as int)
                < self.nodes@.len()
        &&& (self.best is Some ==> (self.best.unwrap() as int) < self.nodes@.len())
        &&& (match self.best {
            Some(b) => self.stats.best_value == self.nodes@[b as int].lb,
            None => self.stats.best_value == i64::MAX,
        })
        &&& (forall|i: int|
            0 <= i < self.nodes@.len() ==> clamp_depth((#[trigger] self.nodes@[i]).depth as int)
                <= self.stats.max_depth as int)
        &&& (self.best is Some ==> self.stats.n_nodes_solved >= 1)
    }

    /// A pending evaluation carries a non-negative realized cost and valid
    /// branching edges, and only exists when the WDG bound is in use.
    spec fn pending_ok(self) -> bool {
        &&& self.pending is Some
        &&& self.pending.unwrap().realized_cost >= 0
        &&& self.settings.use_wdg_bound
        &&& self.pending.unwrap().branching is Some
        &&& branch_edges_ok(self.pending.unwrap().branching.unwrap()@, self.n())
    }

    spec fn positioned(self) -> bool {
        &&& self.nodes@.len() > 0
        &&& (self.world_pos as int) < self.nodes@.len()
        &&& (self.target as int) < self.nodes@.len()
        &&& self.world.engine().committed() == path_edges(self.nodes@, self.world_pos as int)
    }

    pub closed spec fn wf(self) -> bool {
        &&& self.base_wf()
        &&& (match self.phase {
            Phase::EvalRoot => self.nodes@.len() == 0
                && self.world.engine().committed().len() == 0,
            Phase::AwaitRoot => {
                &&& self.nodes@.len() == 0
                &&& self.world.engine().committed().len() == 0
                &&& self.pending_ok()
            },
            Phase::Ready => self.positioned(),
            Phase::AwaitBranch => {
                &&& self.positioned()
                &&& self.world_pos == self.target
                &&& (self.branch_k as int) < self.cur_branches@.len()
                &&& branch_edges_ok(self.cur_branches@, self.n())
                &&& self.pending_ok()
                &&& self.stats.n_nodes_solved >= 1
            },
            Phase::Done => true,
        })
    }

    /// How many search-loop iterations have run.
    pub fn steps(&self) -> (r: u64)
        ensures
            r == self.steps_spec(),
    {
        self.steps_done
    }

    /// The accumulated statistics.
    pub fn stats(&self) -> (r: SolverStats)
        ensures
            r == self.stats_spec(),
    {
        self.stats
    }

    pub closed spec fn stats_spec(self) -> SolverStats {
        self.stats
    }

    /// The incumbent's value, if a complete schedule was found. Any value
    /// reported here is the value of a complete feasible schedule of the
    /// loaded problem.
    pub fn best_value(&self) -> (r: Option<i64>)
        requires
            self.wf(),
        ensures
            r == self.incumbent(),
            r is Some ==> crate::world::feasible_value(self.problem_spec(), r.unwrap() as int),
    {
        match self.best {
            Some(b) => Some(self.nodes[b].lb),
            None => None,
        }
    }

    /// The WDG subproblem to solve while the search is awaiting a bound.
    pub fn wdg_disjunctions(&self) -> (r: Vec<
        (Vec<crate::wdg::WdgEdge>, Vec<crate::wdg::WdgEdge>)
    >)
        requires
            self.wf(),
        ensures
            crate::wdg::pairs_view(r@) == self.world_spec().solver().active(),
    {
        self.world.wdg_disjunctions()
    }

    pub closed spec fn world_spec(self) -> World {
        self.world
    }

    /// Set up a search on a freshly loaded problem. `None` means the
    /// problem is infeasible at load time (an empty edge set, or a fixed
    /// edge violating a bound): there is nothing to search.
    pub fn new(problem: &DisjunctiveGraph, settings: &SolverSettings) -> (r: Option<Search>)
        requires
            problem.wf(),
            problem.nodes@.len() < u32::MAX,
            settings.use_relaxed_wdg ==> settings.use_wdg_bound,
            settings.use_wdg_bound ==> forall|s: int|
                0 <= s < problem.edge_sets@.len() ==> (#[trigger] problem.edge_sets@[s]@.len())
                    <= 2,
        ensures
            r is None <==> ((exists|s: int|
                0 <= s < problem.edge_sets@.len() && (#[trigger] problem.edge_sets@[s]@.len())
                    == 0) || !crate::world::fixed_feasible(*problem)),
            r is Some ==> {
                &&& r.unwrap().wf()
                &&& r.unwrap().is_eval_root()
                &&& !r.unwrap().is_awaiting()
                &&& r.unwrap().settings_spec() == *settings
                &&& r.unwrap().problem_spec() == *problem
                &&& r.unwrap().steps_spec() == 0
            },
    {
        let world = match World::new(problem) {
            None => {
                return None;
            },
            Some(w) => w,
        };
        let stats = SolverStats {
            n_states_generated: 0,
            n_nodes_generated: 0,
            n_nodes_solved: 0,
            max_depth: 0,
            solution_depth: u32::MAX,
            root_bound: 0,
            best_bound: 0,
            best_value: i64::MAX,
        };
        let r = Search {
            world,
            problem: Ghost(*problem),
            settings: *settings,
            nodes: Vec::new(),
            frontier: Vec::new(),
            world_pos: 0,
            target: 0,
            best: None,
            stats,
            phase: Phase::EvalRoot,
            pending: None,
            steps_done: 0,
            cur_branches: Vec::new(),
            branch_k: 0,
            new_children: Vec::new(),
        };
        proof {
            if settings.use_wdg_bound {
                crate::world::lemma_open_disjunctions_narrow(
                    crate::world::sets_view(problem.edge_sets@),
                );
            }
        }
        Some(r)
    }

    /// The incumbent's value, or the largest bound when there is none.
    fn incumbent_or_max(&self) -> (r: i64)
        requires
            self.base_wf(),
        ensures
            r == match self.incumbent() {
                Some(v) => v,
                None => i64::MAX,
            },
    {
        match self.best {
            Some(b) => self.nodes[b].lb,
            None => i64::MAX,
        }
    }

    /// Close the search: fix up the solution statistics and stop.
    fn finish(&mut self) -> (r: StepResult)
        requires
            old(self).base_wf(),
        ensures
            final(self).problem == old(self).problem,
            final(self).wf(),
            final(self).is_done(),
            r is Finished,
            final(self).settings_spec() == old(self).settings_spec(),
            final(self).steps_spec() == old(self).steps_spec(),
            final(self).incumbent() == old(self).incumbent(),
            final(self).stats_spec().best_value == old(self).stats_spec().best_value,
            final(self).stats_spec().n_nodes_solved == old(self).stats_spec().n_nodes_solved,
    {
        match self.best {
            Some(b) => {
                let d = self.nodes[b].depth;
                self.stats.solution_depth = if d < u32::MAX as usize {
                    d as u32
                } else {
                    u32::MAX
                };
                let lb = self.nodes[b].lb;
                if lb > self.stats.best_bound {
                    self.stats.best_bound = lb;
                }
            },
            None => {
                self.stats.solution_depth = u32::MAX;
            },
        }
        self.phase = Phase::Done;
        StepResult::Finished
    }

    /// Install the evaluated root as tree node 0, or stop if it is pruned.
    fn install_root(&mut self, opt: Option<State>) -> (r: StepResult)
        requires
            old(self).base_wf(),
            old(self).nodes@.len() == 0,
            old(self).world_spec().engine().committed().len() == 0,
            old(self).best is None,
            (opt is Some && opt.unwrap().branching is Some) ==> branch_edges_ok(
                opt.unwrap().branching.unwrap()@,
                old(self).n(),
            ),
            (opt is Some && opt.unwrap().branching is None) ==> crate::world::feasible_value(
                old(self).problem@,
                opt.unwrap().lb as int,
            ),
        ensures
            final(self).problem == old(self).problem,
            final(self).wf(),
            !(r is WdgBoundNeeded),
            r is Working ==> !final(self).is_eval_root() && !final(self).is_awaiting(),
            r is Finished ==> final(self).is_done(),
            opt is Some ==> r is Working,
            final(self).settings_spec() == old(self).settings_spec(),
            final(self).steps_spec() == old(self).steps_spec(),
    {
        match opt {
            None => self.finish(),
            Some(s) => {
                let root = TreeNode { lb: s.lb, branching: s.branching, depth: 0, parent: None };
                self.nodes.push(root);
                self.stats.root_bound = s.lb;
                self.target = 0;
                self.world_pos = 0;
                self.phase = Phase::Ready;
                proof {
                    assert(path_edges(self.nodes@, 0) =~= Seq::<Edge>::empty());
                    assert(self.world.engine().committed() =~= Seq::<Edge>::empty());
                }
                StepResult::Working
            },
        }
    }

    /// Move the engine from its current tree position to the target: pop
    /// up to the common ancestor, then push the target-side edges back
    /// down, so engine work is proportional to tree distance. The descent
    /// re-pushes edges that succeeded when their nodes were created;
    /// `false` (never expected) means such a push failed and the search
    /// cannot continue.
    #[verifier::loop_isolation(false)]
    #[verifier::rlimit(100)]
    #[verifier::spinoff_prover]
    fn navigate(&mut self) -> (r: bool)
        requires
            old(self).base_wf(),
            old(self).positioned(),
        ensures
            final(self).base_wf(),
            final(self).nodes@ == old(self).nodes@,
            final(self).target == old(self).target,
            final(self).best == old(self).best,
            final(self).frontier@ == old(self).frontier@,
            final(self).new_children@ == old(self).new_children@,
            final(self).cur_branches@ == old(self).cur_branches@,
            final(self).stats_spec() == old(self).stats_spec(),
            final(self).settings_spec() == old(self).settings_spec(),
            final(self).steps_spec() == old(self).steps_spec(),
            final(self).phase == old(self).phase,
            final(self).pending == old(self).pending,
            final(self).problem == old(self).problem,
            r ==> final(self).positioned() && final(self).world_pos == final(self).target,
    {
        let ghost n0 = self.n();
        let mut buf: Vec<(usize, Edge)> = Vec::new();
        let mut anc = self.target;
        while anc != self.world_pos
            invariant
                self.nodes@ == old(self).nodes@,
                self.target == old(self).target,
                self.best == old(self).best,
                self.frontier@ == old(self).frontier@,
                self.new_children@ == old(self).new_children@,
                self.cur_branches@ == old(self).cur_branches@,
                self.stats == old(self).stats,
                self.settings == old(self).settings,
                self.steps_done == old(self).steps_done,
                self.phase == old(self).phase,
                self.pending == old(self).pending,
                self.world_spec().parts() == old(self).world_spec().parts(),
                self.world_spec().n_parts() == old(self).world_spec().n_parts(),
                self.problem == old(self).problem,
                self.world_spec().engine().base() == old(self).world_spec().engine().base(),
                forall|i: int|
                    0 <= i < self.world_spec().engine().nodes_seq().len()
                        ==> crate::longestpaths::same_meta(
                        #[trigger] self.world_spec().engine().nodes_seq()[i],
                        old(self).world_spec().engine().nodes_seq()[i],
                    ),
                (anc as int) < self.nodes@.len(),
                (self.world_pos as int) < self.nodes@.len(),
                self.world.engine().committed() == path_edges(self.nodes@, self.world_pos as int),
                self.world.wf(),
                self.world_spec().nonunit() == old(self).world_spec().nonunit(),
                self.world_spec().engine().nodes_seq().len() == old(self).world_spec().engine().nodes_seq().len(),
                buf@.len() > 0 ==> buf@[0].0 == self.target,
                buf@.len() == 0 ==> anc == self.target,
                forall|q: int|
                    0 <= q < buf@.len() ==> {
                        let id = (#[trigger] buf@[q]).0;
                        &&& (id as int) < self.nodes@.len()
                        &&& self.nodes@[id as int].parent is Some
                        &&& self.nodes@[id as int].parent.unwrap().1 == buf@[q].1
                        &&& self.nodes@[id as int].parent.unwrap().0 == (if q == buf@.len() - 1 {
                            anc
                        } else {
                            buf@[q + 1].0
                        })
                    },
            decreases self.nodes@[anc as int].depth + self.nodes@[self.world_pos as int].depth,
        {
            let ad = self.nodes[anc].depth;
            let wd = self.nodes[self.world_pos].depth;
            if ad > wd {
                let pe = self.nodes[anc].parent;
                match pe {
                    Some(p) => {
                        buf.push((anc, p.1));
                        anc = p.0;
                    },
                    None => {
                        // unreachable: a node above depth 0 has a parent
                        proof {
                            assert(false);
                        }
                    },
                }
            } else {
                proof {
                    lemma_path_edges_len(self.nodes@, n0, self.world_pos as int);
                    if wd == 0 {
                        assert(self.world_pos == 0 && anc == 0);
                        assert(false);
                    }
                }
                let pe = self.nodes[self.world_pos].parent;
                let ghost wpre = self.world;
                self.world.pop();
                match pe {
                    Some(p) => {
                        self.world_pos = p.0;
                        proof {
                            let changed = choose|changed: Seq<u32>|
                                crate::longestpaths::pop_rel(
                                    wpre.engine(),
                                    self.world_spec().engine(),
                                    changed,
                                );
                            assert(crate::longestpaths::pop_rel(
                                wpre.engine(),
                                self.world_spec().engine(),
                                changed,
                            ));
                        }
                    },
                    None => {
                        proof {
                            assert(false);
                        }
                    },
                }
            }
        }
        // descend back down to the target
        let mut k = buf.len();
        while k > 0
            invariant
                self.nodes@ == old(self).nodes@,
                self.target == old(self).target,
                self.best == old(self).best,
                self.frontier@ == old(self).frontier@,
                self.new_children@ == old(self).new_children@,
                self.cur_branches@ == old(self).cur_branches@,
                self.stats == old(self).stats,
                self.settings == old(self).settings,
                self.steps_done == old(self).steps_done,
                self.phase == old(self).phase,
                self.pending == old(self).pending,
                self.world_spec().parts() == old(self).world_spec().parts(),
                self.world_spec().n_parts() == old(self).world_spec().n_parts(),
                self.problem == old(self).problem,
                self.world_spec().engine().base() == old(self).world_spec().engine().base(),
                forall|i: int|
                    0 <= i < self.world_spec().engine().nodes_seq().len()
                        ==> crate::longestpaths::same_meta(
                        #[trigger] self.world_spec().engine().nodes_seq()[i],
                        old(self).world_spec().engine().nodes_seq()[i],
                    ),
                k <= buf@.len(),
                (self.world_pos as int) < self.nodes@.len(),
                self.world.engine().committed() == path_edges(self.nodes@, self.world_pos as int),
                self.world.wf(),
                self.world_spec().nonunit() == old(self).world_spec().nonunit(),
                self.world_spec().engine().nodes_seq().len() == old(self).world_spec().engine().nodes_seq().len(),
                self.world_pos == (if k == buf@.len() {
                    anc
                } else {
                    buf@[k as int].0
                }),
                buf@.len() > 0 ==> buf@[0].0 == self.target,
                buf@.len() == 0 ==> anc == self.target,
                forall|q: int|
                    0 <= q < buf@.len() ==> {
                        let id = (#[trigger] buf@[q]).0;
                        &&& (id as int) < self.nodes@.len()
                        &&& self.nodes@[id as int].parent is Some
                        &&& self.nodes@[id as int].parent.unwrap().1 == buf@[q].1
                        &&& self.nodes@[id as int].parent.unwrap().0 == (if q == buf@.len() - 1 {
                            anc
                        } else {
                            buf@[q + 1].0
                        })
                    },
            decreases k,
        {
            let entry = buf[k - 1];
            let ghost wpre = self.world;
            let ok = self.world.push(entry.1);
            if !ok {
                return false;
            }
            proof {
                let deltas = choose|deltas: Seq<(u32, i64)>|
                    crate::longestpaths::push_success_rel(
                        wpre.engine(),
                        entry.1,
                        self.world_spec().engine(),
                        deltas,
                    );
                assert(crate::longestpaths::push_success_rel(
                    wpre.engine(),
                    entry.1,
                    self.world_spec().engine(),
                    deltas,
                ));
            }
            self.world_pos = entry.0;
            k -= 1;
        }
        true
    }

    /// Account one evaluated child of the target: prune dead ends, record
    /// a terminal child as the new incumbent when it improves on it, keep
    /// open children for the frontier.
    #[verifier::rlimit(100)]
    fn record_child(&mut self, st: Option<State>, edge: Edge)
        requires
            old(self).base_wf(),
            old(self).positioned(),
            old(self).world_pos == old(self).target,
            (edge.src as int) < old(self).n(),
            (edge.tgt as int) < old(self).n(),
            (st is Some && st.unwrap().branching is Some) ==> branch_edges_ok(
                st.unwrap().branching.unwrap()@,
                old(self).n(),
            ),
            (st is Some && st.unwrap().branching is None) ==> crate::world::feasible_value(
                old(self).problem@,
                st.unwrap().lb as int,
            ),
            old(self).stats.n_nodes_solved >= 1,
        ensures
            final(self).problem == old(self).problem,
            final(self).base_wf(),
            final(self).positioned(),
            final(self).world_pos == final(self).target,
            final(self).target == old(self).target,
            final(self).world_spec() == old(self).world_spec(),
            final(self).stats.n_nodes_solved == old(self).stats.n_nodes_solved,
            final(self).nodes@.len() >= old(self).nodes@.len(),
            final(self).cur_branches@ == old(self).cur_branches@,
            final(self).settings_spec() == old(self).settings_spec(),
            final(self).steps_spec() == old(self).steps_spec(),
            final(self).phase == old(self).phase,
            final(self).pending == old(self).pending,
            final(self).frontier@ == old(self).frontier@,
    {
        let st = match st {
            None => {
                return ;
            },
            Some(s) => s,
        };
        // a surviving list with no alternatives is a dead branch, not a node
        let dead = match &st.branching {
            Some(b) => b.len() == 0,
            None => false,
        };
        if dead {
            return ;
        }
        self.stats.n_nodes_generated = bump(self.stats.n_nodes_generated);
        // depth fits: a node's depth never exceeds its arena index
        let _bound = self.nodes.len();
        proof {
            assert(self.nodes@[self.target as int].depth <= self.target as int);
        }
        let depth = self.nodes[self.target].depth + 1;
        let is_terminal = st.branching.is_none();
        let lb = st.lb;
        let idx = self.nodes.len();
        let ghost nodes0 = self.nodes@;
        let node = TreeNode { lb, branching: st.branching, depth, parent: Some((self.target, edge)) };
        self.nodes.push(node);
        proof {
            assert(arena_wf(self.nodes@, self.n())) by {
                assert forall|i: int| 0 <= i < self.nodes@.len() implies {
                    &&& ((#[trigger] self.nodes@[i]).parent is Some <==> i != 0)
                    &&& (self.nodes@[i].parent is Some ==> {
                        let p = self.nodes@[i].parent.unwrap().0 as int;
                        let e = self.nodes@[i].parent.unwrap().1;
                        &&& 0 <= p < i
                        &&& self.nodes@[i].depth == self.nodes@[p].depth + 1
                        &&& (e.src as int) < self.n()
                        &&& (e.tgt as int) < self.n()
                    })
                    &&& (i == 0 ==> self.nodes@[i].depth == 0)
                    &&& self.nodes@[i].depth <= i
                    &&& (self.nodes@[i].branching is Some ==> branch_edges_ok(
                        self.nodes@[i].branching.unwrap()@,
                        self.n(),
                    ))
                } by {
                    if i < nodes0.len() {
                        assert(self.nodes@[i] == nodes0[i]);
                    }
                }
            }
            lemma_path_edges_push(nodes0, node, self.world_pos as int);
        }
        let d32: u32 = if depth < u32::MAX as usize {
            depth as u32
        } else {
            u32::MAX
        };
        if d32 > self.stats.max_depth {
            self.stats.max_depth = d32;
        }
        if is_terminal {
            let ub = self.incumbent_or_max();
            if lb < ub {
                self.best = Some(idx);
                self.stats.best_value = lb;
            }
        } else {
            self.new_children.push(idx);
        }
    }

    /// Read and clear the pending evaluation: its realized cost, its cost
    /// bound, and an owned copy of its branching choice.
    fn take_pending(&mut self) -> (r: (i64, i64, Option<Vec<Edge>>))
        requires
            old(self).pending_ok(),
        ensures
            *final(self) == (Search { pending: None, ..*old(self) }),
            r.0 == old(self).pending.unwrap().realized_cost,
            r.1 == old(self).pending.unwrap().cost_ub,
            r.0 >= 0,
            (r.2 is Some <==> old(self).pending.unwrap().branching is Some),
            r.2 is Some ==> r.2.unwrap()@ == old(self).pending.unwrap().branching.unwrap()@,
    {
        let (realized, cost_ub) = match &self.pending {
            Some(p) => (p.realized_cost, p.cost_ub),
            None => (0, 0),
        };
        let branching: Option<Vec<Edge>> = match &self.pending {
            Some(p) => match &p.branching {
                Some(v) => Some(copy_edge_list(v)),
                None => None,
            },
            None => None,
        };
        self.pending = None;
        (realized, cost_ub, branching)
    }

    /// Choose the next target: descend into the best new child when it is
    /// at least as good as the frontier's best; otherwise take the
    /// frontier's best; stop when its bound proves optimality or nothing
    /// is left. On a tie the newest child wins.
    #[verifier::loop_isolation(false)]
    fn select_next(&mut self) -> (r: StepResult)
        requires
            old(self).base_wf(),
            old(self).positioned(),
        ensures
            final(self).wf(),
            final(self).settings_spec() == old(self).settings_spec(),
            final(self).steps_spec() == old(self).steps_spec(),
            final(self).problem == old(self).problem,
            !(r is WdgBoundNeeded),
            r is Working ==> !final(self).is_awaiting() && !final(self).is_eval_root(),
            r is Finished ==> final(self).is_done(),
    {
        let ub = self.incumbent_or_max();
        let has_children = self.new_children.len() > 0;
        let mut bc: usize = 0;
        if has_children {
            let mut q: usize = 1;
            while q < self.new_children.len()
                invariant
                    self == old(self),
                    bc < self.new_children@.len(),
                    q <= self.new_children@.len(),
                decreases self.new_children@.len() - q,
            {
                if self.nodes[self.new_children[q]].lb < self.nodes[self.new_children[bc]].lb {
                    bc = q;
                }
                q += 1;
            }
        }
        let has_frontier = self.frontier.len() > 0;
        let mut fq: usize = 0;
        if has_frontier {
            let mut q: usize = 1;
            while q < self.frontier.len()
                invariant
                    self == old(self),
                    fq < self.frontier@.len(),
                    q <= self.frontier@.len(),
                decreases self.frontier@.len() - q,
            {
                if self.nodes[self.frontier[q]].lb < self.nodes[self.frontier[fq]].lb {
                    fq = q;
                }
                q += 1;
            }
        }
        if has_children && (!has_frontier || self.nodes[self.new_children[bc]].lb
            <= self.nodes[self.frontier[fq]].lb) {
            self.target = self.new_children[bc];
            let mut q: usize = 0;
            while q < self.new_children.len()
                invariant
                    q <= self.new_children@.len(),
                    self.new_children@ == old(self).new_children@,
                    self.nodes@ == old(self).nodes@,
                    self.problem == old(self).problem,
                    self.world_spec() == old(self).world_spec(),
                    self.world_pos == old(self).world_pos,
                    self.best == old(self).best,
                    self.stats == old(self).stats,
                    self.settings == old(self).settings,
                    self.steps_done == old(self).steps_done,
                    self.phase == old(self).phase,
                    self.pending == old(self).pending,
                    self.cur_branches@ == old(self).cur_branches@,
                    (self.target as int) < self.nodes@.len(),
                    forall|w: int|
                        0 <= w < self.frontier@.len() ==> (#[trigger] self.frontier@[w] as int)
                            < self.nodes@.len(),
                decreases self.new_children@.len() - q,
            {
                if q != bc {
                    let c = self.new_children[q];
                    self.frontier.push(c);
                }
                q += 1;
            }
            self.new_children = Vec::new();
            self.phase = Phase::Ready;
            StepResult::Working
        } else if has_frontier {
            let ghost f0 = self.frontier@;
            let nid = self.frontier.swap_remove(fq);
            proof {
                assert forall|w: int|
                    0 <= w < self.frontier@.len() implies (#[trigger] self.frontier@[w] as int)
                    < self.nodes@.len() by {
                    if w == fq as int {
                        assert(self.frontier@[w] == f0[f0.len() - 1]);
                    } else {
                        assert(self.frontier@[w] == f0[w]);
                    }
                }
            }
            if self.nodes[nid].lb >= ub {
                // the best remaining bound cannot improve on the incumbent
                self.finish()
            } else {
                self.target = nid;
                let mut q: usize = 0;
                while q < self.new_children.len()
                    invariant
                        q <= self.new_children@.len(),
                        self.new_children@ == old(self).new_children@,
                        self.nodes@ == old(self).nodes@,
                        self.problem == old(self).problem,
                        self.world_spec() == old(self).world_spec(),
                        self.world_pos == old(self).world_pos,
                        self.best == old(self).best,
                        self.stats == old(self).stats,
                        self.settings == old(self).settings,
                        self.steps_done == old(self).steps_done,
                        self.phase == old(self).phase,
                        self.pending == old(self).pending,
                        self.cur_branches@ == old(self).cur_branches@,
                        (self.target as int) < self.nodes@.len(),
                        forall|w: int|
                            0 <= w < self.frontier@.len() ==> (#[trigger] self.frontier@[w] as int)
                                < self.nodes@.len(),
                    decreases self.new_children@.len() - q,
                {
                    let c = self.new_children[q];
                    self.frontier.push(c);
                    q += 1;
                }
                self.new_children = Vec::new();
                self.phase = Phase::Ready;
                StepResult::Working
            }
        } else {
            self.finish()
        }
    }

    /// Evaluate the target's branching edges from `from_k` on, collecting
    /// the children that survive; pauses when a child evaluation needs the
    /// WDG bound, and otherwise picks the next target.
    #[verifier::loop_isolation(false)]
    #[verifier::rlimit(100)]
    #[verifier::spinoff_prover]
    fn expand(&mut self, from_k: usize) -> (r: StepResult)
        requires
            old(self).base_wf(),
            old(self).positioned(),
            old(self).world_pos == old(self).target,
            branch_edges_ok(old(self).cur_branches@, old(self).n()),
            old(self).stats.n_nodes_solved >= 1,
        ensures
            final(self).wf(),
            final(self).settings_spec() == old(self).settings_spec(),
            final(self).steps_spec() == old(self).steps_spec(),
            final(self).problem == old(self).problem,
            r is Working ==> !final(self).is_awaiting() && !final(self).is_eval_root(),
            r is WdgBoundNeeded ==> final(self).is_awaiting() && final(self).settings_spec().use_wdg_bound,
            r is Finished ==> final(self).is_done(),
    {
        let mut k = from_k;
        while k < self.cur_branches.len()
            invariant
                self.base_wf(),
                self.positioned(),
                self.world_pos == self.target,
                self.problem == old(self).problem,
                self.stats.n_nodes_solved >= 1,
                self.cur_branches@ == old(self).cur_branches@,
                branch_edges_ok(self.cur_branches@, self.n()),
                self.n() == old(self).n(),
                self.settings == old(self).settings,
                self.steps_done == old(self).steps_done,
                self.phase == old(self).phase,
                self.pending == old(self).pending,
            decreases self.cur_branches@.len() - k,
        {
            let e = self.cur_branches[k];
            let ghost wpre = self.world;
            // the evaluator accepted this edge when choosing the branching,
            // so the push succeeds; a failure would mean the child cannot
            // exist, and the branch is skipped
            let ok = self.world.push(e);
            if ok {
                proof {
                    let deltas = choose|deltas: Seq<(u32, i64)>|
                        crate::longestpaths::push_success_rel(
                            wpre.engine(),
                            e,
                            self.world_spec().engine(),
                            deltas,
                        );
                    assert(crate::longestpaths::push_success_rel(
                        wpre.engine(),
                        e,
                        self.world_spec().engine(),
                        deltas,
                    ));
                }
                let pre_lb = self.nodes[self.target].lb;
                let ub = self.incumbent_or_max();
                let ghost wmid = self.world;
                let res = self.world.mk_state(&self.settings, pre_lb, ub);
                self.stats.n_states_generated = bump(self.stats.n_states_generated);
                let ghost wpost = self.world;
                self.world.pop();
                proof {
                    let changed = choose|changed: Seq<u32>|
                        crate::longestpaths::pop_rel(
                            wpost.engine(),
                            self.world_spec().engine(),
                            changed,
                        );
                    assert(crate::longestpaths::pop_rel(
                        wpost.engine(),
                        self.world_spec().engine(),
                        changed,
                    ));
                    assert(self.world.engine().committed() =~= path_edges(
                        self.nodes@,
                        self.world_pos as int,
                    ));
                }
                match res {
                    MkStateResult::Ready(st) => {
                        proof {
                            if st is Some && st.unwrap().branching is None {
                                crate::world::lemma_feasible_here(wmid, self.problem@);
                            }
                        }
                        self.record_child(st, e);
                    },
                    MkStateResult::NeedsWdgBound(p) => {
                        self.branch_k = k;
                        self.pending = Some(p);
                        self.phase = Phase::AwaitBranch;
                        return StepResult::WdgBoundNeeded;
                    },
                }
            }
            k += 1;
        }
        self.select_next()
    }

    /// Run one unit of search: evaluate the root, or run one iteration of
    /// the search loop (check the budget and the bound, navigate to the
    /// target, expand it, choose the next target). `timed_out` is the
    /// caller's cooperative budget check, honoured once per iteration; a
    /// `wdg_bound` (the optimizer's optimum for `wdg_disjunctions()`,
    /// necessarily non-negative) must be supplied exactly when the
    /// previous step returned `WdgBoundNeeded`.
    #[verifier::rlimit(100)]
    #[verifier::spinoff_prover]
    pub fn step(&mut self, timed_out: bool, wdg_bound: Option<i64>) -> (r: StepResult)
        requires
            old(self).wf(),
            wdg_bound is Some <==> old(self).is_awaiting(),
            // the supplied value is a valid bound for the collected selection
            // subproblem: its exact optimum, or (relaxed mode) a lower value
            wdg_bound is Some ==> 0 <= wdg_bound.unwrap() <= crate::wdg::wdg_opt(
                old(self).world_spec().solver().active(),
                old(self).world_spec().n_parts() as nat,
            ),
            !timed_out ==> old(self).steps_spec() < u64::MAX,
        ensures
            final(self).wf(),
            final(self).settings_spec() == old(self).settings_spec(),
            final(self).problem_spec() == old(self).problem_spec(),
            final(self).steps_spec() >= old(self).steps_spec(),
            r is WdgBoundNeeded ==> final(self).is_awaiting() && old(self).settings_spec().use_wdg_bound,
            r is Working ==> !final(self).is_awaiting() && !final(self).is_eval_root(),
            r is Working && old(self).is_eval_root() ==> final(self).steps_spec() == old(self).steps_spec(),
            r is Working && !old(self).is_eval_root() && !old(self).is_awaiting() ==> !timed_out
                && final(self).steps_spec() == old(self).steps_spec() + 1,
            r is Finished ==> final(self).is_done(),
            // evaluating the root stops the search only in the degenerate
            // case where its realized cost already saturates every bound
            old(self).is_eval_root() && r is Finished ==> old(
                self,
            ).world_spec().engine().objective() >= i64::MAX,
            !old(self).settings_spec().use_wdg_bound ==> !final(self).is_awaiting(),
    {
        match self.phase {
            Phase::Done => StepResult::Finished,
            Phase::EvalRoot => {
                let pre_lb = self.world.longestpaths_bound();
                let ghost wroot = self.world;
                let res = self.world.mk_state(&self.settings, pre_lb, i64::MAX);
                match res {
                    MkStateResult::Ready(opt) => {
                        proof {
                            if opt is Some && opt.unwrap().branching is None {
                                crate::world::lemma_feasible_here(wroot, self.problem@);
                            }
                            if opt is None {
                                assert(old(self).world_spec().engine().objective() >= i64::MAX);
                            }
                        }
                        self.install_root(opt)
                    },
                    MkStateResult::NeedsWdgBound(p) => {
                        self.pending = Some(p);
                        self.phase = Phase::AwaitRoot;
                        StepResult::WdgBoundNeeded
                    },
                }
            },
            Phase::AwaitRoot => {
                let b = match wdg_bound {
                    Some(b) => b,
                    None => 0,
                };
                let taken = self.take_pending();
                let realized = taken.0;
                let cost_ub = taken.1;
                let opt: Option<State> = if (realized as i128) + (b as i128) < (cost_ub as i128) {
                    Some(State { lb: realized + b, branching: taken.2 })
                } else {
                    None
                };
                self.install_root(opt)
            },
            Phase::Ready => {
                if timed_out {
                    return self.finish();
                }
                self.steps_done = self.steps_done + 1;
                let ub = self.incumbent_or_max();
                let tlb = self.nodes[self.target].lb;
                if tlb >= ub {
                    // optimality proven: nothing left can improve
                    return self.finish();
                }
                if tlb > self.stats.best_bound {
                    self.stats.best_bound = tlb;
                }
                if !self.navigate() {
                    return self.finish();
                }
                self.stats.n_nodes_solved = bump(self.stats.n_nodes_solved);
                let branching_opt: Option<Vec<Edge>> = match &self.nodes[self.target].branching {
                    Some(bs) => Some(copy_edge_list(bs)),
                    None => None,
                };
                match branching_opt {
                    None => {
                        // a terminal target: adopt it if it improves
                        let lb = self.nodes[self.target].lb;
                        if lb < ub {
                            self.best = Some(self.target);
                            self.stats.best_value = lb;
                        }
                        self.new_children = Vec::new();
                        self.select_next()
                    },
                    Some(bs) => {
                        self.cur_branches = bs;
                        self.new_children = Vec::new();
                        self.expand(0)
                    },
                }
            },
            Phase::AwaitBranch => {
                let b = match wdg_bound {
                    Some(b) => b,
                    None => 0,
                };
                let taken = self.take_pending();
                let realized = taken.0;
                let cost_ub = taken.1;
                let st: Option<State> = if (realized as i128) + (b as i128) < (cost_ub as i128) {
                    Some(State { lb: realized + b, branching: taken.2 })
                } else {
                    None
                };
                // the next index fits: branch_k indexes cur_branches
                let _bound = self.cur_branches.len();
                let e = self.cur_branches[self.branch_k];
                let k1 = self.branch_k + 1;
                self.phase = Phase::Ready;
                self.record_child(st, e);
                self.expand(k1)
            },
        }
    }
}

/// Solve a problem by branch and bound without the WDG bound (which needs
/// the external optimizer: drive `Search::step` directly to use it),
/// within a cooperative budget of `max_steps` search iterations. Returns
/// the accumulated statistics and the best complete schedule value found,
/// which is optimal when the search ran to completion within the budget.
pub fn solve(problem: &DisjunctiveGraph, settings: &SolverSettings, max_steps: u64) -> (r: (
    SolverStats,
    Option<i64>,
))
    requires
        problem.wf(),
        problem.nodes@.len() < u32::MAX,
        !settings.use_wdg_bound,
        !settings.use_relaxed_wdg,
        max_steps < u64::MAX,
    ensures
        r.1 is Some ==> r.0.best_value == r.1.unwrap(),
        r.1 is None ==> r.0.best_value == i64::MAX,
        // load-time infeasibility is a plain no-solution outcome
        (exists|s: int|
            0 <= s < problem.edge_sets@.len() && (#[trigger] problem.edge_sets@[s]@.len())
                == 0) ==> r.1 is None,
        !crate::world::fixed_feasible(*problem) ==> r.1 is None,
        // any reported value is the value of a complete feasible schedule,
        // so it is never below the least value over all total resolutions
        r.1 is Some ==> crate::world::feasible_value(*problem, r.1.unwrap() as int),
{
    let mut search = match Search::new(problem, settings) {
        None => {
            // infeasible at load time: nothing to search
            let stats = SolverStats {
                n_states_generated: 0,
                n_nodes_generated: 0,
                n_nodes_solved: 0,
                max_depth: 0,
                solution_depth: u32::MAX,
                root_bound: 0,
                best_bound: 0,
                best_value: i64::MAX,
            };
            return (stats, None);
        },
        Some(s) => s,
    };
    loop
        invariant_except_break
            search.steps_spec() <= max_steps + 1,
        invariant
            search.wf(),
            !search.is_awaiting(),
            search.settings_spec() == *settings,
            search.problem_spec() == *problem,
            !settings.use_wdg_bound,
            max_steps < u64::MAX,
        ensures
            search.wf(),
        decreases max_steps + 1 - search.steps_spec(), (if search.is_eval_root() {
            1int
        } else {
            0int
        }),
    {
        let timed_out = search.steps() > max_steps;
        let res = search.step(timed_out, None);
        match res {
            StepResult::Finished => {
                break ;
            },
            StepResult::Working => {},
            StepResult::WdgBoundNeeded => {
                proof {
                    assert(false);
                }
                break ;
            },
        }
    }
    let stats = search.stats();
    let best = search.best_value();
    (stats, best)
}

} // verus!
