//! Depth-first branch-and-bound search for the exact QUBO minimum.
//!
//! The solver owns a stack of nodes, each a partial fixing with the lower
//! bound and relaxation point inherited from its parent.  `solve` runs the
//! search on persistence and leaf evaluation alone; a caller with a convex
//! relaxation oracle drives the same machinery through `get_next_node` and
//! `process_node`, handing each processed node's bound and primal point
//! back in.

use vstd::prelude::*;

use crate::model::{b2i, d_sum, f_of, flip_up_delta, lemma_f_zero, mat_wf};
use crate::persistence::{
    compute_iterative_persistence, consistent, count_fixed, coupling, extends, fix_count,
    lemma_consistent_extends, lemma_count_full_all_fixed, lemma_fix_count_le,
    lemma_fix_count_mono, lemma_fix_count_strict, lemma_persist_preserves_min, spec_persist,
};
use crate::problem::{Qubo, COEFF_LIMIT};
use crate::rng::{jsf_u64, prng_draw};

verus! {

/// Scale of relaxation-point coordinates: a stored value `s` stands for
/// the real `s / SOL_SCALE` in `[0, 1]`.
pub const SOL_SCALE: i64 = 1_000_000;

/// Counters stay below this, so every increment in a run is safe.
pub const COUNTER_LIMIT: u64 = 0x1000_0000_0000_0000;

/// Largest node budget `solve` accepts.
pub const MAX_NODE_BUDGET: u64 = 1_000_000_000;

/// A node's inherited lower bound: none for the root, or the parent's
/// relaxation objective.
#[derive(Clone, Copy, Debug, PartialEq, Eq, Structural)]
pub enum Bound {
    NegInf,
    Finite(i64),
}

/// Whether the bound is strictly above `v` (the pruning test).
pub open spec fn bound_gt(b: Bound, v: int) -> bool {
    match b {
        Bound::NegInf => false,
        Bound::Finite(l) => l > v,
    }
}

/// The bound is a true lower bound for the objective on every completion
/// of the fixing.
pub open spec fn bound_valid_for(
    q: Seq<Seq<i64>>,
    c: Seq<i64>,
    b: Bound,
    fx: Seq<Option<bool>>,
) -> bool {
    match b {
        Bound::NegInf => true,
        Bound::Finite(l) => forall|y: Seq<bool>| #[trigger] consistent(y, fx) ==> l <= f_of(q, c, y),
    }
}

/// A branch-and-bound tree node.
pub struct QuboBBNode {
    pub lower_bound: Bound,
    pub solution: Vec<i64>,
    pub fixed_variables: Vec<Option<bool>>,
}

/// Which free variable a node is split on.
#[derive(Clone, Copy, Debug, PartialEq, Eq, Structural)]
pub enum BranchStrategy {
    FirstNotFixed,
    MostViolated,
    Random,
    WorstApproximation,
}

/// Run-time options of the solver.  The node budget is the deterministic
/// termination guard of `solve`; an embedding program that prefers a
/// wall-clock budget drives the step interface and stops on its own clock.
#[derive(Clone, Copy, Debug)]
pub struct SolverOptions {
    pub branch_strategy: BranchStrategy,
    pub max_nodes: u64,
    pub seed: u64,
}

/// What the relaxation oracle reported for a processed node.
pub enum QpOutcome {
    /// A finite (or absent) lower bound and the relaxation's primal point,
    /// scaled by `SOL_SCALE` and clamped to `[0, SOL_SCALE]`.
    Solved { lower_bound: Bound, solution: Vec<i64> },
    /// The oracle failed; the node is dropped and the failure recorded.
    Failed,
}

/// The complete 0/1 point read off a fixing (free variables at 0).
pub open spec fn leaf_vec(fx: Seq<Option<bool>>) -> Seq<bool> {
    Seq::new(
        fx.len(),
        |i: int|
            if fx[i] is Some {
                fx[i]->0
            } else {
                false
            },
    )
}

/// Some completion of `fx` does at least as well as `x`.
pub open spec fn node_covers(
    q: Seq<Seq<i64>>,
    c: Seq<i64>,
    fx: Seq<Option<bool>>,
    x: Seq<bool>,
) -> bool {
    exists|y: Seq<bool>| #[trigger] consistent(y, fx) && f_of(q, c, y) <= f_of(q, c, x)
}

/// Some node of the stack covers `x`.
pub open spec fn stack_covers(
    q: Seq<Seq<i64>>,
    c: Seq<i64>,
    nodes: Seq<QuboBBNode>,
    x: Seq<bool>,
) -> bool {
    exists|k: int|
        0 <= k < nodes.len() && #[trigger] node_covers(q, c, nodes[k].fixed_variables@, x)
}

/// Every node's inherited bound is a true lower bound for its subtree.
pub open spec fn stack_valid(q: Seq<Seq<i64>>, c: Seq<i64>, nodes: Seq<QuboBBNode>) -> bool {
    forall|k: int|
        0 <= k < nodes.len() ==> bound_valid_for(
            q,
            c,
            (#[trigger] nodes[k]).lower_bound,
            nodes[k].fixed_variables@,
        )
}

/// Two to the `k`.
pub open spec fn two_pow(k: nat) -> int
    decreases k,
{
    if k == 0 {
        1
    } else {
        2 * two_pow((k - 1) as nat)
    }
}

pub proof fn lemma_two_pow_pos(k: nat)
    ensures
        two_pow(k) >= 1,
    decreases k,
{
    if k > 0 {
        lemma_two_pow_pos((k - 1) as nat);
    }
}

pub proof fn lemma_two_pow_mono(a: nat, b: nat)
    requires
        a <= b,
    ensures
        two_pow(a) <= two_pow(b),
    decreases b,
{
    if a < b {
        lemma_two_pow_mono(a, (b - 1) as nat);
        lemma_two_pow_pos((b - 1) as nat);
    }
}

/// An upper bound on the number of nodes a subtree can still produce:
/// strictly shrinks whenever one more variable is fixed.
pub open spec fn node_measure(nd: QuboBBNode, n: int) -> int {
    let free = n - fix_count(nd.fixed_variables@, n);
    if free <= 0 {
        1
    } else {
        2 * two_pow(free as nat) - 1
    }
}

/// Total remaining search size of a node stack.
pub open spec fn stack_measure(nodes: Seq<QuboBBNode>, n: int) -> int
    decreases nodes.len(),
{
    if nodes.len() == 0 {
        0
    } else {
        stack_measure(nodes.drop_last(), n) + node_measure(nodes.last(), n)
    }
}

pub proof fn lemma_node_measure_pos(nd: QuboBBNode, n: int)
    ensures
        node_measure(nd, n) >= 1,
{
    let free = n - fix_count(nd.fixed_variables@, n);
    if free > 0 {
        lemma_two_pow_pos(free as nat);
    }
}

pub proof fn lemma_stack_measure_len(nodes: Seq<QuboBBNode>, n: int)
    ensures
        stack_measure(nodes, n) >= nodes.len(),
    decreases nodes.len(),
{
    if nodes.len() > 0 {
        lemma_stack_measure_len(nodes.drop_last(), n);
        lemma_node_measure_pos(nodes.last(), n);
    }
}

pub proof fn lemma_stack_measure_push(nodes: Seq<QuboBBNode>, nd: QuboBBNode, n: int)
    ensures
        stack_measure(nodes.push(nd), n) == stack_measure(nodes, n) + node_measure(nd, n),
{
    assert(nodes.push(nd).drop_last() =~= nodes);
    assert(nodes.push(nd).last() == nd);
}

/// Removing everything above position `k` frees at least that node's
/// measure.
pub proof fn lemma_stack_measure_take(nodes: Seq<QuboBBNode>, k: int, n: int)
    requires
        0 <= k < nodes.len(),
    ensures
        stack_measure(nodes.take(k), n) + node_measure(nodes[k], n) <= stack_measure(nodes, n),
    decreases nodes.len(),
{
    if k == nodes.len() - 1 {
        assert(nodes.take(k) =~= nodes.drop_last());
    } else {
        lemma_stack_measure_take(nodes.drop_last(), k, n);
        assert(nodes.drop_last().take(k) =~= nodes.take(k));
        assert(nodes.drop_last()[k] == nodes[k]);
        lemma_node_measure_pos(nodes.last(), n);
    }
}

/// The branch-and-bound solver state.
pub struct BBSolver {
    pub qubo: Qubo,
    pub best_solution: Vec<bool>,
    pub best_solution_value: i64,
    pub nodes: Vec<QuboBBNode>,
    pub nodes_processed: u64,
    pub nodes_visited: u64,
    pub nodes_objective_evales: u64,
    pub subproblem_failures: u64,
    pub options: SolverOptions,
}

impl BBSolver {
    /// Shape invariant of one node against this solver's problem.
    pub open spec fn node_wf(&self, nd: QuboBBNode) -> bool {
        &&& nd.fixed_variables@.len() == self.qubo.n()
        &&& nd.solution@.len() == self.qubo.n()
        &&& forall|i: int|
            0 <= i < nd.solution@.len() ==> 0 <= #[trigger] nd.solution@[i] <= SOL_SCALE
    }

    /// Solver invariant: the problem is well formed, the incumbent is a
    /// real point with its exact objective value, and every stacked node
    /// fits the problem.
    pub open spec fn wf(&self) -> bool {
        &&& self.qubo.wf()
        &&& self.best_solution@.len() == self.qubo.n()
        &&& self.best_solution_value == self.qubo.f(self.best_solution@)
        &&& forall|k: int| 0 <= k < self.nodes@.len() ==> self.node_wf(#[trigger] self.nodes@[k])
    }

    /// Creates a solver with the zero vector as initial incumbent, whose
    /// objective is 0.
    pub fn new(qubo: Qubo, options: SolverOptions) -> (r: BBSolver)
        requires
            qubo.wf(),
        ensures
            r.wf(),
            r.qubo == qubo,
            r.options == options,
            r.nodes@.len() == 0,
            r.nodes_processed == 0,
            r.nodes_visited == 0,
            r.nodes_objective_evales == 0,
            r.subproblem_failures == 0,
            r.best_solution_value == 0,
            forall|i: int| 0 <= i < r.best_solution@.len() ==> !(#[trigger] r.best_solution@[i]),
    {
        let n = qubo.c.len();
        let mut zeros: Vec<bool> = Vec::new();
        let mut i: usize = 0;
        while i < n
            invariant
                0 <= i <= n,
                zeros@.len() == i,
                forall|j: int| 0 <= j < i ==> !(#[trigger] zeros@[j]),
            decreases n - i,
        {
            zeros.push(false);
            i = i + 1;
        }
        proof {
            lemma_f_zero(qubo.qm(), qubo.cv(), zeros@);
        }
        BBSolver {
            qubo,
            best_solution: zeros,
            best_solution_value: 0,
            nodes: Vec::new(),
            nodes_processed: 0,
            nodes_visited: 0,
            nodes_objective_evales: 0,
            subproblem_failures: 0,
            options,
        }
    }

    /// Installs a caller-supplied 0/1 incumbent; its exact objective value
    /// becomes the initial incumbent value.
    pub fn warm_start(&mut self, initial_solution: Vec<bool>)
        requires
            old(self).wf(),
            initial_solution@.len() == old(self).qubo.n(),
        ensures
            final(self).wf(),
            final(self).best_solution@ == initial_solution@,
            final(self).best_solution_value == final(self).qubo.f(initial_solution@),
            final(self).qubo == old(self).qubo,
            final(self).nodes == old(self).nodes,
            final(self).options == old(self).options,
            final(self).nodes_processed == old(self).nodes_processed,
            final(self).nodes_visited == old(self).nodes_visited,
            final(self).nodes_objective_evales == old(self).nodes_objective_evales,
            final(self).subproblem_failures == old(self).subproblem_failures,
    {
        let v = self.qubo.eval(&initial_solution);
        self.best_solution = initial_solution;
        self.best_solution_value = v;
    }

    /// The search stops when the node budget is spent or the stack is
    /// empty.
    pub fn termination_condition(&self, max_nodes: u64) -> (r: bool)
        ensures
            r == (self.nodes_processed >= max_nodes || self.nodes@.len() == 0),
    {
        self.nodes_processed >= max_nodes || self.nodes.len() == 0
    }

    /// Bound test and leaf handling.  A node is pruned when its inherited
    /// bound exceeds the incumbent value, or when it is a leaf, in which
    /// case its point is evaluated and the incumbent updated if the leaf
    /// improves on it.
    pub fn can_prune(&mut self, node: &QuboBBNode) -> (r: bool)
        requires
            old(self).wf(),
            old(self).node_wf(*node),
            old(self).nodes_objective_evales < COUNTER_LIMIT,
        ensures
            final(self).wf(),
            final(self).qubo == old(self).qubo,
            final(self).nodes == old(self).nodes,
            final(self).options == old(self).options,
            final(self).nodes_visited == old(self).nodes_visited,
            final(self).nodes_processed == old(self).nodes_processed,
            final(self).subproblem_failures == old(self).subproblem_failures,
            final(self).best_solution_value <= old(self).best_solution_value,
            old(self).nodes_objective_evales <= final(self).nodes_objective_evales
                <= old(self).nodes_objective_evales + 1,
            !r ==> *final(self) == *old(self),
            !r ==> fix_count(node.fixed_variables@, old(self).qubo.n()) < old(self).qubo.n()
                && !bound_gt(node.lower_bound, final(self).best_solution_value as int),
            r == (bound_gt(node.lower_bound, old(self).best_solution_value as int) || fix_count(
                node.fixed_variables@,
                old(self).qubo.n(),
            ) == old(self).qubo.n()),
            bound_gt(node.lower_bound, old(self).best_solution_value as int)
                ==> *final(self) == *old(self),
            (!bound_gt(node.lower_bound, old(self).best_solution_value as int) && fix_count(
                node.fixed_variables@,
                old(self).qubo.n(),
            ) == old(self).qubo.n()) ==> ({
                let leaf = leaf_vec(node.fixed_variables@);
                let lv = f_of(old(self).qubo.qm(), old(self).qubo.cv(), leaf);
                &&& final(self).nodes_objective_evales == old(self).nodes_objective_evales + 1
                &&& (lv < old(self).best_solution_value ==> final(self).best_solution@ == leaf
                    && final(self).best_solution_value == lv)
                &&& (lv >= old(self).best_solution_value ==> final(self).best_solution@ == old(
                    self,
                ).best_solution@ && final(self).best_solution_value == old(
                    self,
                ).best_solution_value)
            }),
            r ==> (bound_valid_for(
                old(self).qubo.qm(),
                old(self).qubo.cv(),
                node.lower_bound,
                node.fixed_variables@,
            ) ==> forall|x: Seq<bool>|
                #[trigger] node_covers(
                    old(self).qubo.qm(),
                    old(self).qubo.cv(),
                    node.fixed_variables@,
                    x,
                ) ==> f_of(old(self).qubo.qm(), old(self).qubo.cv(), x)
                    >= final(self).best_solution_value),
    {
        let ghost qs = self.qubo.qm();
        let ghost cs = self.qubo.cv();
        let n = self.qubo.num_x();
        // fathom by inherited bound
        let bound_prune = match node.lower_bound {
            Bound::NegInf => false,
            Bound::Finite(l) => l > self.best_solution_value,
        };
        if bound_prune {
            proof {
                if bound_valid_for(qs, cs, node.lower_bound, node.fixed_variables@) {
                    assert forall|x: Seq<bool>|
                        #[trigger] node_covers(qs, cs, node.fixed_variables@, x) implies f_of(
                        qs,
                        cs,
                        x,
                    ) >= self.best_solution_value by {
                        let y = choose|y: Seq<bool>|
                            #[trigger] consistent(y, node.fixed_variables@) && f_of(qs, cs, y)
                                <= f_of(qs, cs, x);
                        assert(consistent(y, node.fixed_variables@));
                    }
                }
            }
            return true;
        }
        // leaf: materialize the point, evaluate, update the incumbent
        let count = count_fixed(&node.fixed_variables);
        if count == n {
            proof {
                lemma_count_full_all_fixed(node.fixed_variables@, n as int);
            }
            let mut solution: Vec<bool> = Vec::new();
            let mut i: usize = 0;
            while i < n
                invariant
                    node.fixed_variables@.len() == n,
                    forall|j: int|
                        0 <= j < n ==> (#[trigger] node.fixed_variables@[j]) is Some,
                    0 <= i <= n,
                    solution@.len() == i,
                    forall|j: int|
                        0 <= j < i ==> #[trigger] solution@[j] == leaf_vec(
                            node.fixed_variables@,
                        )[j],
                decreases n - i,
            {
                let v = match node.fixed_variables[i] {
                    Some(b) => b,
                    None => false,
                };
                solution.push(v);
                i = i + 1;
            }
            proof {
                assert(solution@ =~= leaf_vec(node.fixed_variables@));
            }
            let solution_value = self.qubo.eval(&solution);
            self.nodes_objective_evales = self.nodes_objective_evales + 1;
            if solution_value < self.best_solution_value {
                self.best_solution = solution;
                self.best_solution_value = solution_value;
            }
            proof {
                assert forall|x: Seq<bool>|
                    #[trigger] node_covers(qs, cs, node.fixed_variables@, x) implies f_of(qs, cs, x)
                    >= self.best_solution_value by {
                    let y = choose|y: Seq<bool>|
                        #[trigger] consistent(y, node.fixed_variables@) && f_of(qs, cs, y) <= f_of(
                            qs,
                            cs,
                            x,
                        );
                    assert(y =~= leaf_vec(node.fixed_variables@));
                }
            }
            return true;
        }
        proof {
            lemma_fix_count_le(node.fixed_variables@, n as int);
        }
        false
    }

    /// Picks the free variable the current strategy selects.  Whatever the
    /// strategy, the returned index is free.
    pub fn make_branch(&mut self, node: &QuboBBNode) -> (r: usize)
        requires
            old(self).wf(),
            old(self).node_wf(*node),
            fix_count(node.fixed_variables@, old(self).qubo.n()) < old(self).qubo.n(),
            old(self).nodes_objective_evales + 4 <= COUNTER_LIMIT,
        ensures
            final(self).wf(),
            final(self).qubo == old(self).qubo,
            final(self).nodes == old(self).nodes,
            final(self).options == old(self).options,
            final(self).nodes_visited == old(self).nodes_visited,
            final(self).nodes_processed == old(self).nodes_processed,
            final(self).subproblem_failures == old(self).subproblem_failures,
            final(self).best_solution == old(self).best_solution,
            final(self).best_solution_value == old(self).best_solution_value,
            old(self).nodes_objective_evales <= final(self).nodes_objective_evales <= old(self).nodes_objective_evales + 4,
            r < old(self).qubo.n(),
            node.fixed_variables@[r as int] is None,
    {
        match self.options.branch_strategy {
            BranchStrategy::FirstNotFixed => self.first_not_fixed(node),
            BranchStrategy::MostViolated => self.most_violated(node),
            BranchStrategy::Random => self.random(node),
            BranchStrategy::WorstApproximation => self.worst_approximation(node),
        }
    }

    /// The smallest free index.
    pub fn first_not_fixed(&self, node: &QuboBBNode) -> (r: usize)
        requires
            self.wf(),
            self.node_wf(*node),
            fix_count(node.fixed_variables@, self.qubo.n()) < self.qubo.n(),
        ensures
            r < self.qubo.n(),
            node.fixed_variables@[r as int] is None,
            forall|j: int| 0 <= j < r ==> (#[trigger] node.fixed_variables@[j]) is Some,
    {
        let n = self.qubo.num_x();
        let mut i: usize = 0;
        while i < n
            invariant
                self.wf(),
                self.node_wf(*node),
                n == self.qubo.n(),
                0 <= i <= n,
                forall|j: int| 0 <= j < i ==> (#[trigger] node.fixed_variables@[j]) is Some,
            decreases n - i,
        {
            if node.fixed_variables[i].is_none() {
                return i;
            }
            i = i + 1;
        }
        proof {
            lemma_all_some_count_full(node.fixed_variables@, n as int);
        }
        0
    }

    /// The free index whose relaxation value is closest to one half; among
    /// equally close ones the largest index wins, as in a linear scan that
    /// takes ties.
    pub fn most_violated(&self, node: &QuboBBNode) -> (r: usize)
        requires
            self.wf(),
            self.node_wf(*node),
            fix_count(node.fixed_variables@, self.qubo.n()) < self.qubo.n(),
        ensures
            r < self.qubo.n(),
            node.fixed_variables@[r as int] is None,
            forall|j: int|
                0 <= j < self.qubo.n() && (#[trigger] node.fixed_variables@[j]) is None ==> viol(
                    node.solution@[r as int] as int,
                ) <= viol(node.solution@[j] as int),
            forall|j: int|
                r < j < self.qubo.n() && (#[trigger] node.fixed_variables@[j]) is None ==> viol(
                    node.solution@[r as int] as int,
                ) < viol(node.solution@[j] as int),
    {
        let n = self.qubo.num_x();
        let mut most_violated: i64 = 2 * SOL_SCALE;
        let mut index_most_violated: usize = 0;
        let mut found = false;
        let mut i: usize = 0;
        while i < n
            invariant
                self.wf(),
                self.node_wf(*node),
                n == self.qubo.n(),
                0 <= i <= n,
                found ==> index_most_violated < i && node.fixed_variables@[index_most_violated as int] is None
                    && most_violated == viol(node.solution@[index_most_violated as int] as int),
                found ==> forall|j: int|
                    0 <= j < i && (#[trigger] node.fixed_variables@[j]) is None ==> most_violated
                        <= viol(node.solution@[j] as int),
                found ==> forall|j: int|
                    index_most_violated < j < i && (#[trigger] node.fixed_variables@[j]) is None
                        ==> most_violated < viol(node.solution@[j] as int),
                !found ==> forall|j: int|
                    0 <= j < i ==> (#[trigger] node.fixed_variables@[j]) is Some,
                !found ==> most_violated == 2 * SOL_SCALE,
            decreases n - i,
        {
            if node.fixed_variables[i].is_none() {
                let s = node.solution[i];
                let violation = if 2 * s >= SOL_SCALE {
                    2 * s - SOL_SCALE
                } else {
                    SOL_SCALE - 2 * s
                };
                assert(violation == viol(node.solution@[i as int] as int));
                assert(violation <= SOL_SCALE);
                if violation <= most_violated {
                    most_violated = violation;
                    index_most_violated = i;
                    found = true;
                }
            }
            i = i + 1;
        }
        proof {
            if !found {
                lemma_all_some_count_full(node.fixed_variables@, n as int);
            }
        }
        index_most_violated
    }

    /// A pseudo-random free index: a deterministic draw seeded from the
    /// option seed and the visit counter picks a start, and the scan wraps
    /// around to the first free index at or after it.
    pub fn random(&self, node: &QuboBBNode) -> (r: usize)
        requires
            self.wf(),
            self.node_wf(*node),
            fix_count(node.fixed_variables@, self.qubo.n()) < self.qubo.n(),
        ensures
            r < self.qubo.n(),
            node.fixed_variables@[r as int] is None,
            ({
                let start = jsf_u64(self.options.seed ^ self.nodes_visited) as int
                    % self.qubo.n();
                r == wrap_first_free(node.fixed_variables@, start)
            }),
    {
        let n = self.qubo.num_x();
        let draw = prng_draw(self.options.seed ^ self.nodes_visited);
        let index = (draw % (n as u64)) as usize;
        let ghost start = jsf_u64(self.options.seed ^ self.nodes_visited) as int % n as int;
        assert(index == start);
        let mut i: usize = index;
        while i < n
            invariant
                self.wf(),
                self.node_wf(*node),
                n == self.qubo.n(),
                start == jsf_u64(self.options.seed ^ self.nodes_visited) as int % n as int,
                index == start,
                index <= i <= n,
                index < n,
                forall|j: int| index <= j < i ==> (#[trigger] node.fixed_variables@[j]) is Some,
            decreases n - i,
        {
            if node.fixed_variables[i].is_none() {
                proof {
                    lemma_first_free_found(node.fixed_variables@, index as int, i as int);
                }
                return i;
            }
            i = i + 1;
        }
        let mut k: usize = 0;
        while k < index
            invariant
                self.wf(),
                self.node_wf(*node),
                n == self.qubo.n(),
                start == jsf_u64(self.options.seed ^ self.nodes_visited) as int % n as int,
                index == start,
                index < n,
                0 <= k <= index,
                forall|j: int| index <= j < n ==> (#[trigger] node.fixed_variables@[j]) is Some,
                forall|j: int| 0 <= j < k ==> (#[trigger] node.fixed_variables@[j]) is Some,
            decreases index - k,
        {
            if node.fixed_variables[k].is_none() {
                proof {
                    lemma_wrap_free_found(node.fixed_variables@, index as int, k as int);
                }
                return k;
            }
            k = k + 1;
        }
        proof {
            lemma_all_some_count_full(node.fixed_variables@, n as int);
        }
        0
    }

    /// The free variable whose worse one-flip child, measured exactly on
    /// the all-zero and all-one completions of the relaxation point, is
    /// worst; the first such index wins ties.
    pub fn worst_approximation(&mut self, node: &QuboBBNode) -> (r: usize)
        requires
            old(self).wf(),
            old(self).node_wf(*node),
            fix_count(node.fixed_variables@, old(self).qubo.n()) < old(self).qubo.n(),
            old(self).nodes_objective_evales + 4 <= COUNTER_LIMIT,
        ensures
            final(self).wf(),
            final(self).qubo == old(self).qubo,
            final(self).nodes == old(self).nodes,
            final(self).options == old(self).options,
            final(self).nodes_visited == old(self).nodes_visited,
            final(self).nodes_processed == old(self).nodes_processed,
            final(self).subproblem_failures == old(self).subproblem_failures,
            final(self).best_solution == old(self).best_solution,
            final(self).best_solution_value == old(self).best_solution_value,
            final(self).nodes_objective_evales == old(self).nodes_objective_evales + 4,
            r < old(self).qubo.n(),
            node.fixed_variables@[r as int] is None,
            forall|j: int|
                0 <= j < old(self).qubo.n() && (#[trigger] node.fixed_variables@[j]) is None
                    ==> wa_gain(
                    old(self).qubo.qm(),
                    old(self).qubo.cv(),
                    node.fixed_variables@,
                    j,
                ) <= wa_gain(
                    old(self).qubo.qm(),
                    old(self).qubo.cv(),
                    node.fixed_variables@,
                    r as int,
                ),
            forall|j: int|
                0 <= j < r && (#[trigger] node.fixed_variables@[j]) is None ==> wa_gain(
                    old(self).qubo.qm(),
                    old(self).qubo.cv(),
                    node.fixed_variables@,
                    j,
                ) < wa_gain(
                    old(self).qubo.qm(),
                    old(self).qubo.cv(),
                    node.fixed_variables@,
                    r as int,
                ),
    {
        let ghost qs = self.qubo.qm();
        let ghost cs = self.qubo.cv();
        let ghost fxs = node.fixed_variables@;
        let n = self.qubo.num_x();
        // the two rounded completions of the relaxation point
        let mut zero_buffer: Vec<bool> = Vec::new();
        let mut one_buffer: Vec<bool> = Vec::new();
        let mut i: usize = 0;
        while i < n
            invariant
                self.node_wf(*node),
                n == self.qubo.n(),
                0 <= i <= n,
                zero_buffer@.len() == i,
                one_buffer@.len() == i,
                forall|j: int| 0 <= j < i ==> #[trigger] zero_buffer@[j] == leaf_vec(fxs)[j],
                forall|j: int| 0 <= j < i ==> #[trigger] one_buffer@[j] == ones_vec(fxs)[j],
                fxs == node.fixed_variables@,
            decreases n - i,
        {
            match node.fixed_variables[i] {
                Some(v) => {
                    zero_buffer.push(v);
                    one_buffer.push(v);
                },
                None => {
                    zero_buffer.push(false);
                    one_buffer.push(true);
                },
            }
            i = i + 1;
        }
        proof {
            assert(zero_buffer@ =~= leaf_vec(fxs));
            assert(one_buffer@ =~= ones_vec(fxs));
        }
        // four exact objective sweeps' worth of work
        self.nodes_objective_evales = self.nodes_objective_evales + 4;
        let mut worst_approximation: i64 = 0;
        let mut index_worst_approximation: usize = 0;
        let mut found = false;
        let mut i2: usize = 0;
        while i2 < n
            invariant
                self.wf(),
                self.node_wf(*node),
                qs == self.qubo.qm(),
                cs == self.qubo.cv(),
                fxs == node.fixed_variables@,
                zero_buffer@ == leaf_vec(fxs),
                one_buffer@ == ones_vec(fxs),
                n == self.qubo.n(),
                0 <= i2 <= n,
                found ==> index_worst_approximation < i2 && fxs[index_worst_approximation as int]
                    is None && worst_approximation as int == wa_gain(
                    qs,
                    cs,
                    fxs,
                    index_worst_approximation as int,
                ),
                found ==> forall|j: int|
                    0 <= j < i2 && (#[trigger] fxs[j]) is None ==> wa_gain(qs, cs, fxs, j)
                        <= worst_approximation as int,
                found ==> forall|j: int|
                    0 <= j < index_worst_approximation && (#[trigger] fxs[j]) is None ==> wa_gain(
                        qs,
                        cs,
                        fxs,
                        j,
                    ) < worst_approximation as int,
                !found ==> forall|j: int| 0 <= j < i2 ==> (#[trigger] fxs[j]) is Some,
            decreases n - i2,
        {
            if node.fixed_variables[i2].is_none() {
                let flip_zero = self.flip_delta(&zero_buffer, i2);
                let flip_one = self.flip_delta(&one_buffer, i2);
                let min_obj_gain = if flip_zero < flip_one {
                    flip_zero
                } else {
                    flip_one
                };
                assert(min_obj_gain as int == wa_gain(qs, cs, fxs, i2 as int));
                if !found || min_obj_gain > worst_approximation {
                    worst_approximation = min_obj_gain;
                    index_worst_approximation = i2;
                    found = true;
                }
            }
            i2 = i2 + 1;
        }
        proof {
            if !found {
                lemma_all_some_count_full(fxs, n as int);
            }
        }
        index_worst_approximation
    }

    /// The exact change of the objective when entry `i` of the 0/1 point
    /// `x` is flipped.
    fn flip_delta(&self, x: &Vec<bool>, i: usize) -> (r: i64)
        requires
            self.wf(),
            x@.len() == self.qubo.n(),
            i < self.qubo.n(),
        ensures
            r as int == flip_change(self.qubo.qm(), self.qubo.cv(), x@, i as int),
    {
        let ghost qs = self.qubo.qm();
        let ghost cs = self.qubo.cv();
        let ghost xs = x@;
        let n = self.qubo.num_x();
        let mut acc: i64 = 0;
        let mut j: usize = 0;
        while j < n
            invariant
                self.wf(),
                qs == self.qubo.qm(),
                cs == self.qubo.cv(),
                xs == x@,
                x@.len() == n,
                n == self.qubo.n(),
                i < n,
                0 <= j <= n,
                acc == d_sum(qs, xs, i as int, j as int),
                -(j as int * (2 * COEFF_LIMIT)) <= acc <= j as int * (2 * COEFF_LIMIT),
            decreases n - j,
        {
            proof {
                assert(self.qubo.q@.len() == n);
                assert(qs[i as int] == self.qubo.q@[i as int]@);
                assert(qs[j as int] == self.qubo.q@[j as int]@);
                lemma_d_sum_term_range(qs, xs, i as int, j as int + 1, n as int, COEFF_LIMIT as int);
                assert((j as int + 1) * (2 * COEFF_LIMIT) <= 4096 * (2 * COEFF_LIMIT))
                    by (nonlinear_arith)
                    requires
                        0 <= j as int + 1 <= 4096,
                ;
            }
            if j != i {
                if x[j] {
                    let t: i64 = self.qubo.q[i][j] + self.qubo.q[j][i];
                    proof {
                        assert(coupling(qs, i as int, j as int) * b2i(xs[j as int]) == t)
                            by (nonlinear_arith)
                            requires
                                b2i(xs[j as int]) == 1,
                                coupling(qs, i as int, j as int) == t as int,
                        ;
                    }
                    acc = acc + t;
                } else {
                    proof {
                        assert(coupling(qs, i as int, j as int) * b2i(xs[j as int]) == 0)
                            by (nonlinear_arith)
                            requires
                                b2i(xs[j as int]) == 0,
                        ;
                    }
                }
            }
            j = j + 1;
        }
        proof {
            assert(self.qubo.q@.len() == n);
            assert(qs[i as int] == self.qubo.q@[i as int]@);
            assert(n as int * (2 * COEFF_LIMIT) <= 4096 * (2 * COEFF_LIMIT)) by (nonlinear_arith)
                requires
                    0 <= n as int <= 4096,
            ;
        }
        let up: i64 = self.qubo.q[i][i] + self.qubo.c[i] + acc;
        if x[i] {
            -up
        } else {
            up
        }
    }
}

/// Splits a node on `branch_id`: one child fixes it to 0, the other to 1,
/// and each child's fixing is closed under persistence.  Both inherit the
/// supplied bound and relaxation point.
impl BBSolver {
    pub fn branch(
        &self,
        node: QuboBBNode,
        branch_id: usize,
        lower_bound: Bound,
        solution: Vec<i64>,
    ) -> (r: (QuboBBNode, QuboBBNode))
        requires
            self.wf(),
            self.node_wf(node),
            branch_id < self.qubo.n(),
            node.fixed_variables@[branch_id as int] is None,
            solution@.len() == self.qubo.n(),
            forall|i: int| 0 <= i < solution@.len() ==> 0 <= #[trigger] solution@[i] <= SOL_SCALE,
        ensures
            self.node_wf(r.0),
            self.node_wf(r.1),
            r.0.lower_bound == lower_bound,
            r.1.lower_bound == lower_bound,
            r.0.solution@ == solution@,
            r.1.solution@ == solution@,
            r.0.fixed_variables@ == spec_persist(
                self.qubo.qm(),
                self.qubo.cv(),
                node.fixed_variables@.update(branch_id as int, Some(false)),
                self.qubo.n(),
            ),
            r.1.fixed_variables@ == spec_persist(
                self.qubo.qm(),
                self.qubo.cv(),
                node.fixed_variables@.update(branch_id as int, Some(true)),
                self.qubo.n(),
            ),
            extends(
                r.0.fixed_variables@,
                node.fixed_variables@.update(branch_id as int, Some(false)),
            ),
            extends(
                r.1.fixed_variables@,
                node.fixed_variables@.update(branch_id as int, Some(true)),
            ),
    {
        let ghost qs = self.qubo.qm();
        let ghost cs = self.qubo.cv();
        let n = self.qubo.num_x();
        let mut zero_fixed = copy_fixing(&node.fixed_variables);
        let mut one_fixed = copy_fixing(&node.fixed_variables);
        zero_fixed[branch_id] = Some(false);
        one_fixed[branch_id] = Some(true);
        proof {
            assert(zero_fixed@ =~= node.fixed_variables@.update(branch_id as int, Some(false)));
            assert(one_fixed@ =~= node.fixed_variables@.update(branch_id as int, Some(true)));
        }
        let zero_persist = compute_iterative_persistence(&self.qubo, &zero_fixed, n);
        let one_persist = compute_iterative_persistence(&self.qubo, &one_fixed, n);
        let zero_branch = QuboBBNode {
            lower_bound,
            solution: copy_solution(&solution),
            fixed_variables: zero_persist,
        };
        let one_branch = QuboBBNode {
            lower_bound,
            solution,
            fixed_variables: one_persist,
        };
        (zero_branch, one_branch)
    }

    /// Pops nodes, counting each visit, until one survives pruning; the
    /// incumbent can only improve, and under valid bounds no pruned node's
    /// subtree could have beaten the returned incumbent.
    pub fn get_next_node(&mut self) -> (r: Option<QuboBBNode>)
        requires
            old(self).wf(),
            old(self).nodes_visited + old(self).nodes@.len() <= COUNTER_LIMIT,
            old(self).nodes_objective_evales + old(self).nodes@.len() <= COUNTER_LIMIT,
        ensures
            final(self).wf(),
            final(self).qubo == old(self).qubo,
            final(self).options == old(self).options,
            final(self).nodes_processed == old(self).nodes_processed,
            final(self).subproblem_failures == old(self).subproblem_failures,
            final(self).best_solution_value <= old(self).best_solution_value,
            final(self).nodes@.len() <= old(self).nodes@.len(),
            final(self).nodes@ == old(self).nodes@.take(final(self).nodes@.len() as int),
            final(self).nodes_visited == old(self).nodes_visited + old(self).nodes@.len() - final(self).nodes@.len(),
            old(self).nodes_objective_evales <= final(self).nodes_objective_evales <= old(self).nodes_objective_evales + old(self).nodes@.len() - final(self).nodes@.len(),
            r is Some ==> final(self).node_wf(r->0) && fix_count(
                r->0.fixed_variables@,
                old(self).qubo.n(),
            ) < old(self).qubo.n() && !bound_gt(
                r->0.lower_bound,
                final(self).best_solution_value as int,
            ),
            r is Some ==> r->0 == old(self).nodes@[final(self).nodes@.len() as int]
                && final(self).nodes@.len() < old(self).nodes@.len(),
            r is Some ==> stack_measure(final(self).nodes@, old(self).qubo.n()) + node_measure(
                r->0,
                old(self).qubo.n(),
            ) <= stack_measure(old(self).nodes@, old(self).qubo.n()),
            r is None ==> final(self).nodes@.len() == 0,
            stack_valid(old(self).qubo.qm(), old(self).qubo.cv(), old(self).nodes@)
                ==> forall|x: Seq<bool>|
                (#[trigger] f_of(old(self).qubo.qm(), old(self).qubo.cv(), x) >= old(self).best_solution_value || stack_covers(
                    old(self).qubo.qm(),
                    old(self).qubo.cv(),
                    old(self).nodes@,
                    x,
                )) ==> (f_of(old(self).qubo.qm(), old(self).qubo.cv(), x) >= final(self).best_solution_value || stack_covers(
                    old(self).qubo.qm(),
                    old(self).qubo.cv(),
                    final(self).nodes@,
                    x,
                ) || (r is Some && node_covers(
                    old(self).qubo.qm(),
                    old(self).qubo.cv(),
                    r->0.fixed_variables@,
                    x,
                ))),
    {
        let ghost qs = self.qubo.qm();
        let ghost cs = self.qubo.cv();
        let ghost nodes0 = self.nodes@;
        let ghost best0 = self.best_solution_value;
        let ghost visited0 = self.nodes_visited;
        let ghost evales0 = self.nodes_objective_evales;
        while self.nodes.len() > 0
            invariant
                self.wf(),
                qs == self.qubo.qm(),
                cs == self.qubo.cv(),
                self.qubo == old(self).qubo,
                self.options == old(self).options,
                self.nodes_processed == old(self).nodes_processed,
                self.subproblem_failures == old(self).subproblem_failures,
                nodes0 == old(self).nodes@,
                best0 == old(self).best_solution_value,
                visited0 == old(self).nodes_visited,
                evales0 == old(self).nodes_objective_evales,
                visited0 + nodes0.len() <= COUNTER_LIMIT,
                evales0 + nodes0.len() <= COUNTER_LIMIT,
                self.best_solution_value <= best0,
                self.nodes@.len() <= nodes0.len(),
                self.nodes@ == nodes0.take(self.nodes@.len() as int),
                self.nodes_visited == visited0 + nodes0.len() - self.nodes@.len(),
                evales0 <= self.nodes_objective_evales <= evales0 + nodes0.len()
                    - self.nodes@.len(),
                stack_valid(qs, cs, nodes0) ==> forall|x: Seq<bool>|
                    (#[trigger] f_of(qs, cs, x) >= best0 || stack_covers(qs, cs, nodes0, x)) ==> (
                    f_of(qs, cs, x) >= self.best_solution_value || stack_covers(
                        qs,
                        cs,
                        self.nodes@,
                        x,
                    )),
            decreases self.nodes@.len(),
        {
            let ghost prev_nodes = self.nodes@;
            let ghost prev_best = self.best_solution_value;
            let node = self.nodes.pop().unwrap();
            proof {
                assert(node == nodes0[prev_nodes.len() - 1]);
                assert(self.nodes@ =~= nodes0.take(self.nodes@.len() as int));
                assert(self.node_wf(node));
            }
            self.nodes_visited = self.nodes_visited + 1;
            let pruned = self.can_prune(&node);
            if !pruned {
                proof {
                    lemma_stack_measure_take(nodes0, self.nodes@.len() as int, self.qubo.n());
                    if stack_valid(qs, cs, nodes0) {
                        assert forall|x: Seq<bool>|
                            (#[trigger] f_of(qs, cs, x) >= best0 || stack_covers(
                                qs,
                                cs,
                                nodes0,
                                x,
                            )) implies (f_of(qs, cs, x) >= self.best_solution_value
                            || stack_covers(qs, cs, self.nodes@, x) || node_covers(
                            qs,
                            cs,
                            node.fixed_variables@,
                            x,
                        )) by {
                            if f_of(qs, cs, x) >= best0 {
                            } else if stack_covers(qs, cs, prev_nodes, x) {
                                let k = choose|k: int|
                                    0 <= k < prev_nodes.len() && #[trigger] node_covers(
                                        qs,
                                        cs,
                                        prev_nodes[k].fixed_variables@,
                                        x,
                                    );
                                if k < self.nodes@.len() {
                                    assert(self.nodes@[k] == prev_nodes[k]);
                                    assert(stack_covers(qs, cs, self.nodes@, x));
                                } else {
                                    assert(prev_nodes[k] == node);
                                }
                            }
                        }
                    }
                }
                return Some(node);
            }
            proof {
                if stack_valid(qs, cs, nodes0) {
                    assert(bound_valid_for(qs, cs, node.lower_bound, node.fixed_variables@));
                    assert forall|x: Seq<bool>|
                        (#[trigger] f_of(qs, cs, x) >= best0 || stack_covers(qs, cs, nodes0, x))
                        implies (f_of(qs, cs, x) >= self.best_solution_value || stack_covers(
                        qs,
                        cs,
                        self.nodes@,
                        x,
                    )) by {
                        if f_of(qs, cs, x) >= best0 {
                        } else if stack_covers(qs, cs, prev_nodes, x) {
                            let k = choose|k: int|
                                0 <= k < prev_nodes.len() && #[trigger] node_covers(
                                    qs,
                                    cs,
                                    prev_nodes[k].fixed_variables@,
                                    x,
                                );
                            if k < self.nodes@.len() {
                                assert(self.nodes@[k] == prev_nodes[k]);
                                assert(stack_covers(qs, cs, self.nodes@, x));
                            } else {
                                assert(prev_nodes[k] == node);
                                assert(node_covers(qs, cs, node.fixed_variables@, x));
                            }
                        }
                    }
                }
            }
        }
        proof {
            assert(self.nodes@.len() == 0);
        }
        None
    }

    /// Applies the oracle's verdict on a node: a failure is recorded and
    /// the node dropped; a bound above the incumbent fathoms the node;
    /// otherwise the node is split and both children pushed.
    pub fn process_node(&mut self, node: QuboBBNode, outcome: QpOutcome)
        requires
            old(self).wf(),
            old(self).node_wf(node),
            fix_count(node.fixed_variables@, old(self).qubo.n()) < old(self).qubo.n(),
            old(self).nodes_processed < COUNTER_LIMIT,
            old(self).nodes_objective_evales + 4 <= COUNTER_LIMIT,
            old(self).subproblem_failures < COUNTER_LIMIT,
            old(self).nodes@.len() + 2 <= usize::MAX,
            outcome matches QpOutcome::Solved { lower_bound, solution } ==> solution@.len() == old(self).qubo.n() && forall|i: int|
                0 <= i < solution@.len() ==> 0 <= #[trigger] solution@[i] <= SOL_SCALE,
        ensures
            final(self).wf(),
            final(self).qubo == old(self).qubo,
            final(self).options == old(self).options,
            final(self).nodes_visited == old(self).nodes_visited,
            final(self).best_solution == old(self).best_solution,
            final(self).best_solution_value == old(self).best_solution_value,
            final(self).nodes_processed == old(self).nodes_processed + 1,
            old(self).nodes@.len() <= final(self).nodes@.len() <= old(self).nodes@.len() + 2,
            forall|k: int|
                0 <= k < old(self).nodes@.len() ==> final(self).nodes@[k] == old(self).nodes@[k],
            old(self).nodes_objective_evales <= final(self).nodes_objective_evales <= old(self).nodes_objective_evales + 4,
            outcome is Failed ==> final(self).subproblem_failures == old(self).subproblem_failures + 1 && final(self).nodes@ == old(self).nodes@,
            outcome is Solved ==> final(self).subproblem_failures == old(self).subproblem_failures,
            outcome matches QpOutcome::Solved { lower_bound, .. } ==> forall|k: int|
                old(self).nodes@.len() <= k < final(self).nodes@.len()
                    ==> (#[trigger] final(self).nodes@[k]).lower_bound == lower_bound,
            stack_measure(final(self).nodes@, old(self).qubo.n()) <= stack_measure(
                old(self).nodes@,
                old(self).qubo.n(),
            ) + node_measure(node, old(self).qubo.n()) - 1,
            forall|x: Seq<bool>|
                #[trigger] stack_covers(old(self).qubo.qm(), old(self).qubo.cv(), old(self).nodes@, x)
                    ==> stack_covers(old(self).qubo.qm(), old(self).qubo.cv(), final(self).nodes@, x),
            (outcome matches QpOutcome::Solved { lower_bound, .. } && bound_valid_for(
                old(self).qubo.qm(),
                old(self).qubo.cv(),
                lower_bound,
                node.fixed_variables@,
            )) ==> (stack_valid(old(self).qubo.qm(), old(self).qubo.cv(), old(self).nodes@)
                ==> stack_valid(old(self).qubo.qm(), old(self).qubo.cv(), final(self).nodes@))
                && (forall|x: Seq<bool>|
                #[trigger] node_covers(
                    old(self).qubo.qm(),
                    old(self).qubo.cv(),
                    node.fixed_variables@,
                    x,
                ) ==> (f_of(old(self).qubo.qm(), old(self).qubo.cv(), x) > final(self).best_solution_value || stack_covers(
                    old(self).qubo.qm(),
                    old(self).qubo.cv(),
                    final(self).nodes@,
                    x,
                ))),
    {
        let ghost qs = self.qubo.qm();
        let ghost cs = self.qubo.cv();
        let ghost nodes0 = self.nodes@;
        let ghost n = self.qubo.n();
        self.nodes_processed = self.nodes_processed + 1;
        proof {
            lemma_node_measure_pos(node, n);
        }
        match outcome {
            QpOutcome::Failed => {
                self.subproblem_failures = self.subproblem_failures + 1;
            },
            QpOutcome::Solved { lower_bound, solution } => {
                let fathom = match lower_bound {
                    Bound::NegInf => false,
                    Bound::Finite(l) => l > self.best_solution_value,
                };
                if fathom {
                    proof {
                        if bound_valid_for(qs, cs, lower_bound, node.fixed_variables@) {
                            assert forall|x: Seq<bool>|
                                #[trigger] node_covers(qs, cs, node.fixed_variables@, x) implies
                                f_of(qs, cs, x) > self.best_solution_value by {
                                let y = choose|y: Seq<bool>|
                                    #[trigger] consistent(y, node.fixed_variables@) && f_of(
                                        qs,
                                        cs,
                                        y,
                                    ) <= f_of(qs, cs, x);
                                assert(consistent(y, node.fixed_variables@));
                            }
                        }
                    }
                } else {
                    let branch_id = self.make_branch(&node);
                    let (zero_branch, one_branch) = self.branch(
                        node,
                        branch_id,
                        lower_bound,
                        solution,
                    );
                    let ghost zero_fx = zero_branch.fixed_variables@;
                    let ghost one_fx = one_branch.fixed_variables@;
                    let ghost znode = zero_branch;
                    let ghost onode = one_branch;
                    self.nodes.push(zero_branch);
                    self.nodes.push(one_branch);
                    proof {
                        let nd_fx = node.fixed_variables@;
                        let up0 = nd_fx.update(branch_id as int, Some(false));
                        let up1 = nd_fx.update(branch_id as int, Some(true));
                        // the two children together measure strictly less
                        // than the parent: each fixes one more variable
                        lemma_stack_measure_push(nodes0, znode, n);
                        lemma_stack_measure_push(nodes0.push(znode), onode, n);
                        let f = fix_count(nd_fx, n);
                        let free = n - f;
                        assert(extends(up0, nd_fx));
                        assert(extends(up1, nd_fx));
                        lemma_fix_count_strict(up0, nd_fx, branch_id as int, n);
                        lemma_fix_count_strict(up1, nd_fx, branch_id as int, n);
                        lemma_fix_count_mono(zero_fx, up0, n);
                        lemma_fix_count_mono(one_fx, up1, n);
                        lemma_fix_count_le(zero_fx, n);
                        lemma_fix_count_le(one_fx, n);
                        assert(two_pow(free as nat) == 2 * two_pow((free - 1) as nat));
                        lemma_child_measure(znode, free, n);
                        lemma_child_measure(onode, free, n);
                        // children keep the parent's bound soundly
                        if bound_valid_for(qs, cs, lower_bound, nd_fx) {
                            assert forall|y: Seq<bool>| #[trigger] consistent(y, zero_fx) implies
                                consistent(y, nd_fx) by {
                                lemma_consistent_extends(y, zero_fx, up0);
                                lemma_consistent_extends(y, up0, nd_fx);
                            }
                            assert forall|y: Seq<bool>| #[trigger] consistent(y, one_fx) implies
                                consistent(y, nd_fx) by {
                                lemma_consistent_extends(y, one_fx, up1);
                                lemma_consistent_extends(y, up1, nd_fx);
                            }
                            assert(bound_valid_for(qs, cs, lower_bound, zero_fx));
                            assert(bound_valid_for(qs, cs, lower_bound, one_fx));
                            // every point the node covered is covered by a child
                            assert forall|x: Seq<bool>|
                                #[trigger] node_covers(qs, cs, nd_fx, x) implies stack_covers(
                                qs,
                                cs,
                                self.nodes@,
                                x,
                            ) by {
                                let y = choose|y: Seq<bool>|
                                    #[trigger] consistent(y, nd_fx) && f_of(qs, cs, y) <= f_of(
                                        qs,
                                        cs,
                                        x,
                                    );
                                if y[branch_id as int] {
                                    assert(consistent(y, up1));
                                    lemma_persist_preserves_min(qs, cs, up1, n, y);
                                    let y2 = choose|y2: Seq<bool>|
                                        #[trigger] consistent(y2, spec_persist(qs, cs, up1, n))
                                            && f_of(qs, cs, y2) <= f_of(qs, cs, y);
                                    assert(consistent(y2, one_fx) && f_of(qs, cs, y2) <= f_of(
                                        qs,
                                        cs,
                                        x,
                                    ));
                                    assert(node_covers(qs, cs, one_fx, x));
                                    assert(self.nodes@[self.nodes@.len() - 1].fixed_variables@
                                        == one_fx);
                                } else {
                                    assert(consistent(y, up0));
                                    lemma_persist_preserves_min(qs, cs, up0, n, y);
                                    let y2 = choose|y2: Seq<bool>|
                                        #[trigger] consistent(y2, spec_persist(qs, cs, up0, n))
                                            && f_of(qs, cs, y2) <= f_of(qs, cs, y);
                                    assert(consistent(y2, zero_fx) && f_of(qs, cs, y2) <= f_of(
                                        qs,
                                        cs,
                                        x,
                                    ));
                                    assert(node_covers(qs, cs, zero_fx, x));
                                    assert(self.nodes@[self.nodes@.len() - 2].fixed_variables@
                                        == zero_fx);
                                }
                            }
                        }
                    }
                }
            },
        }
        proof {
            assert forall|x: Seq<bool>| #[trigger] stack_covers(qs, cs, nodes0, x) implies
                stack_covers(qs, cs, self.nodes@, x) by {
                let k = choose|k: int|
                    0 <= k < nodes0.len() && #[trigger] node_covers(
                        qs,
                        cs,
                        nodes0[k].fixed_variables@,
                        x,
                    );
                assert(self.nodes@[k] == nodes0[k]);
            }
        }
    }
}

impl BBSolver {
    /// Runs the depth-first search to completion or until the node budget
    /// of the options is spent.  Without a relaxation oracle every node
    /// carries no bound, so the search is pruned by persistence and leaf
    /// evaluation alone.  When the stack empties, the returned value is
    /// the exact minimum of the objective over all 0/1 points.
    pub fn solve(&mut self) -> (r: (Vec<bool>, i64))
        requires
            old(self).wf(),
            old(self).nodes@.len() == 0,
            old(self).nodes_processed == 0,
            old(self).nodes_visited == 0,
            old(self).nodes_objective_evales == 0,
            old(self).subproblem_failures == 0,
            old(self).options.max_nodes <= MAX_NODE_BUDGET,
        ensures
            final(self).wf(),
            final(self).qubo == old(self).qubo,
            final(self).subproblem_failures == old(self).subproblem_failures,
            r.0@ == final(self).best_solution@,
            r.1 == final(self).best_solution_value,
            r.1 == final(self).qubo.f(r.0@),
            r.1 <= old(self).best_solution_value,
            final(self).nodes_processed < old(self).options.max_nodes
                ==> final(self).nodes@.len() == 0,
            2 * two_pow(old(self).qubo.n() as nat) <= old(self).options.max_nodes
                ==> final(self).nodes@.len() == 0,
            final(self).nodes_visited >= final(self).nodes_processed,
            final(self).nodes@.len() == 0 ==> forall|x: Seq<bool>|
                x.len() == old(self).qubo.n() ==> r.1 <= #[trigger] f_of(
                    old(self).qubo.qm(),
                    old(self).qubo.cv(),
                    x,
                ),
    {
        let ghost qs = self.qubo.qm();
        let ghost cs = self.qubo.cv();
        let ghost best0 = self.best_solution_value;
        let n = self.qubo.num_x();
        // root: persistence computed from the empty fixing
        let mut empty_fx: Vec<Option<bool>> = Vec::new();
        let mut i: usize = 0;
        while i < n
            invariant
                0 <= i <= n,
                empty_fx@.len() == i,
                forall|j: int| 0 <= j < i ==> (#[trigger] empty_fx@[j]) is None,
            decreases n - i,
        {
            empty_fx.push(None);
            i = i + 1;
        }
        let root_fx = compute_iterative_persistence(&self.qubo, &empty_fx, n);
        let mut root_sol: Vec<i64> = Vec::new();
        let mut k: usize = 0;
        while k < n
            invariant
                0 <= k <= n,
                root_sol@.len() == k,
                forall|j: int| 0 <= j < k ==> #[trigger] root_sol@[j] == 0,
            decreases n - k,
        {
            root_sol.push(0);
            k = k + 1;
        }
        let root = QuboBBNode {
            lower_bound: Bound::NegInf,
            solution: root_sol,
            fixed_variables: root_fx,
        };
        let ghost root_fx_view = root.fixed_variables@;
        let ghost rootnode = root;
        self.nodes.push(root);
        proof {
            let nn = self.qubo.n();
            lemma_fix_count_le(rootnode.fixed_variables@, nn);
            lemma_two_pow_pos(nn as nat);
            let rfree = nn - fix_count(rootnode.fixed_variables@, nn);
            if rfree > 0 {
                lemma_two_pow_mono(rfree as nat, nn as nat);
            }
            assert(self.nodes@.drop_last() =~= Seq::<QuboBBNode>::empty());
            assert(stack_measure(Seq::<QuboBBNode>::empty(), nn) == 0);
            assert(stack_measure(self.nodes@, nn) == node_measure(rootnode, nn));
            assert forall|x: Seq<bool>| x.len() == self.qubo.n() implies (f_of(qs, cs, x)
                >= self.best_solution_value || stack_covers(qs, cs, self.nodes@, x)) by {
                assert(consistent(x, empty_fx@));
                lemma_persist_preserves_min(qs, cs, empty_fx@, self.qubo.n(), x);
                assert(node_covers(qs, cs, self.nodes@[0].fixed_variables@, x));
            }
        }
        let max_nodes = self.options.max_nodes;
        while !self.termination_condition(max_nodes)
            invariant
                self.wf(),
                qs == self.qubo.qm(),
                cs == self.qubo.cv(),
                self.qubo == old(self).qubo,
                self.options == old(self).options,
                self.subproblem_failures == old(self).subproblem_failures,
                self.subproblem_failures == 0,
                best0 == old(self).best_solution_value,
                max_nodes == self.options.max_nodes,
                max_nodes <= MAX_NODE_BUDGET,
                self.best_solution_value <= best0,
                self.nodes_processed <= max_nodes,
                self.nodes_visited >= self.nodes_processed,
                self.nodes_visited + self.nodes@.len() <= 1 + 2 * self.nodes_processed,
                self.nodes_processed + stack_measure(self.nodes@, self.qubo.n()) <= 2 * two_pow(
                    self.qubo.n() as nat,
                ),
                self.nodes_objective_evales <= 4 * self.nodes_processed + self.nodes_visited,
                forall|j: int|
                    0 <= j < self.nodes@.len() ==> (#[trigger] self.nodes@[j]).lower_bound
                        is NegInf,
                forall|x: Seq<bool>|
                    x.len() == self.qubo.n() ==> (f_of(qs, cs, x) >= self.best_solution_value
                        || stack_covers(qs, cs, self.nodes@, x)),
            decreases max_nodes - self.nodes_processed,
        {
            let ghost pre = *self;
            proof {
                assert(self.nodes_visited + self.nodes@.len() <= 1 + 2 * MAX_NODE_BUDGET);
            }
            let next = self.get_next_node();
            proof {
                assert(stack_valid(qs, cs, pre.nodes@));
                assert(forall|j: int|
                    0 <= j < self.nodes@.len() ==> (#[trigger] self.nodes@[j]).lower_bound
                        is NegInf) by {
                    assert(forall|j: int|
                        0 <= j < self.nodes@.len() ==> #[trigger] self.nodes@[j]
                            == pre.nodes@[j]);
                }
            }
            match next {
                None => {
                    let result = copy_bools(&self.best_solution);
                    proof {
                        assert forall|x: Seq<bool>| x.len() == self.qubo.n() implies
                            self.best_solution_value <= f_of(qs, cs, x) by {
                            if f_of(qs, cs, x) < self.best_solution_value {
                                assert(stack_covers(qs, cs, self.nodes@, x));
                                let kk = choose|kk: int|
                                    0 <= kk < self.nodes@.len() && #[trigger] node_covers(
                                        qs,
                                        cs,
                                        self.nodes@[kk].fixed_variables@,
                                        x,
                                    );
                            }
                        }
                    }
                    return (result, self.best_solution_value);
                },
                Some(node) => {
                    let ghost mid = *self;
                    let sol = copy_solution(&node.solution);
                    self.process_node(
                        node,
                        QpOutcome::Solved { lower_bound: Bound::NegInf, solution: sol },
                    );
                    proof {
                        // covering carried through the pop and the branch
                        assert forall|x: Seq<bool>| x.len() == self.qubo.n() implies (f_of(
                            qs,
                            cs,
                            x,
                        ) >= self.best_solution_value || stack_covers(qs, cs, self.nodes@, x)) by {
                            if f_of(qs, cs, x) >= pre.best_solution_value || stack_covers(
                                qs,
                                cs,
                                pre.nodes@,
                                x,
                            ) {
                                if f_of(qs, cs, x) >= mid.best_solution_value {
                                } else if stack_covers(qs, cs, mid.nodes@, x) {
                                } else {
                                    assert(node_covers(qs, cs, node.fixed_variables@, x));
                                }
                            }
                        }
                        // remaining and pushed nodes carry no bound
                        assert forall|j: int| 0 <= j < self.nodes@.len() implies (
                        #[trigger] self.nodes@[j]).lower_bound is NegInf by {
                            if j < mid.nodes@.len() {
                                assert(self.nodes@[j] == mid.nodes@[j]);
                            }
                        }
                    }
                },
            }
        }
        let result = copy_bools(&self.best_solution);
        proof {
            if 2 * two_pow(self.qubo.n() as nat) <= max_nodes {
                lemma_stack_measure_len(self.nodes@, self.qubo.n());
            }
            if self.nodes@.len() == 0 {
                assert forall|x: Seq<bool>| x.len() == self.qubo.n() implies
                    self.best_solution_value <= f_of(qs, cs, x) by {
                    if f_of(qs, cs, x) < self.best_solution_value {
                        assert(stack_covers(qs, cs, self.nodes@, x));
                        let kk = choose|kk: int|
                            0 <= kk < self.nodes@.len() && #[trigger] node_covers(
                                qs,
                                cs,
                                self.nodes@[kk].fixed_variables@,
                                x,
                            );
                    }
                }
            }
        }
        (result, self.best_solution_value)
    }
}

/// A value-preserving copy of a 0/1 point.
fn copy_bools(src: &Vec<bool>) -> (r: Vec<bool>)
    ensures
        r@ == src@,
{
    let mut r: Vec<bool> = Vec::new();
    let mut i: usize = 0;
    while i < src.len()
        invariant
            0 <= i <= src@.len(),
            r@.len() == i,
            forall|j: int| 0 <= j < i ==> #[trigger] r@[j] == src@[j],
        decreases src@.len() - i,
    {
        r.push(src[i]);
        i = i + 1;
    }
    proof {
        assert(r@ =~= src@);
    }
    r
}

/// A node with at most `free - 1` free variables measures at most half a
/// node with `free` free ones.
proof fn lemma_child_measure(nd: QuboBBNode, free: int, n: int)
    requires
        free >= 1,
        n - fix_count(nd.fixed_variables@, n) <= free - 1,
    ensures
        node_measure(nd, n) <= 2 * two_pow((free - 1) as nat) - 1,
{
    let fc = n - fix_count(nd.fixed_variables@, n);
    lemma_two_pow_pos((free - 1) as nat);
    if fc > 0 {
        lemma_two_pow_mono(fc as nat, (free - 1) as nat);
    }
}

/// Fathoming is sound on whole subtrees: if a node's valid lower bound
/// exceeds the incumbent value, then no completion of any deeper fixing,
/// which only shrinks the set of completions, can beat the incumbent.
pub proof fn lemma_fathomed_subtree(
    q: Seq<Seq<i64>>,
    c: Seq<i64>,
    parent_fx: Seq<Option<bool>>,
    child_fx: Seq<Option<bool>>,
    lb: int,
    incumbent: int,
)
    requires
        extends(child_fx, parent_fx),
        forall|y: Seq<bool>| #[trigger] consistent(y, parent_fx) ==> lb <= f_of(q, c, y),
        lb > incumbent,
    ensures
        forall|y: Seq<bool>| #[trigger] consistent(y, child_fx) ==> f_of(q, c, y) > incumbent,
{
    assert forall|y: Seq<bool>| #[trigger] consistent(y, child_fx) implies f_of(q, c, y)
        > incumbent by {
        lemma_consistent_extends(y, child_fx, parent_fx);
    }
}

/// A fixing-preserving copy.
fn copy_fixing(src: &Vec<Option<bool>>) -> (r: Vec<Option<bool>>)
    ensures
        r@ == src@,
{
    let mut r: Vec<Option<bool>> = Vec::new();
    let mut i: usize = 0;
    while i < src.len()
        invariant
            0 <= i <= src@.len(),
            r@.len() == i,
            forall|j: int| 0 <= j < i ==> #[trigger] r@[j] == src@[j],
        decreases src@.len() - i,
    {
        r.push(src[i]);
        i = i + 1;
    }
    proof {
        assert(r@ =~= src@);
    }
    r
}

/// A value-preserving copy of a relaxation point.
fn copy_solution(src: &Vec<i64>) -> (r: Vec<i64>)
    ensures
        r@ == src@,
{
    let mut r: Vec<i64> = Vec::new();
    let mut i: usize = 0;
    while i < src.len()
        invariant
            0 <= i <= src@.len(),
            r@.len() == i,
            forall|j: int| 0 <= j < i ==> #[trigger] r@[j] == src@[j],
        decreases src@.len() - i,
    {
        r.push(src[i]);
        i = i + 1;
    }
    proof {
        assert(r@ =~= src@);
    }
    r
}

/// Distance of a scaled relaxation value from one half, scaled by two.
pub open spec fn viol(s: int) -> int {
    if 2 * s >= SOL_SCALE {
        2 * s - SOL_SCALE
    } else {
        SOL_SCALE - 2 * s
    }
}

/// The completion of a fixing with every free variable at 1.
pub open spec fn ones_vec(fx: Seq<Option<bool>>) -> Seq<bool> {
    Seq::new(
        fx.len(),
        |i: int|
            if fx[i] is Some {
                fx[i]->0
            } else {
                true
            },
    )
}

/// The exact objective change of flipping entry `i` of the 0/1 point `x`.
pub open spec fn flip_change(q: Seq<Seq<i64>>, c: Seq<i64>, x: Seq<bool>, i: int) -> int {
    if x[i] {
        -flip_up_delta(q, c, x, i)
    } else {
        flip_up_delta(q, c, x, i)
    }
}

/// The worse of the two exact one-flip changes of variable `i` under the
/// all-zero and all-one completions of the node's fixing.
pub open spec fn wa_gain(q: Seq<Seq<i64>>, c: Seq<i64>, fx: Seq<Option<bool>>, i: int) -> int {
    let z = flip_change(q, c, leaf_vec(fx), i);
    let o = flip_change(q, c, ones_vec(fx), i);
    if z < o {
        z
    } else {
        o
    }
}

/// The index the wrap-around scan of the random strategy lands on.
pub open spec fn wrap_first_free(fx: Seq<Option<bool>>, start: int) -> int {
    if exists|j: int| start <= j < fx.len() && (#[trigger] fx[j]) is None {
        choose|j: int|
            start <= j < fx.len() && (#[trigger] fx[j]) is None && forall|j2: int|
                start <= j2 < j ==> (#[trigger] fx[j2]) is Some
    } else {
        choose|j: int|
            0 <= j < start && (#[trigger] fx[j]) is None && forall|j2: int|
                0 <= j2 < j ==> (#[trigger] fx[j2]) is Some
    }
}

/// If every entry is fixed, the count is full.
pub proof fn lemma_all_some_count_full(fx: Seq<Option<bool>>, k: int)
    requires
        0 <= k <= fx.len(),
        forall|i: int| 0 <= i < k ==> (#[trigger] fx[i]) is Some,
    ensures
        fix_count(fx, k) == k,
    decreases k,
{
    if k > 0 {
        lemma_all_some_count_full(fx, k - 1);
    }
}

proof fn lemma_first_free_found(fx: Seq<Option<bool>>, start: int, i: int)
    requires
        0 <= start <= i < fx.len(),
        fx[i] is None,
        forall|j: int| start <= j < i ==> (#[trigger] fx[j]) is Some,
    ensures
        wrap_first_free(fx, start) == i,
{
    assert(exists|j: int| start <= j < fx.len() && (#[trigger] fx[j]) is None);
    let w = choose|j: int|
        start <= j < fx.len() && (#[trigger] fx[j]) is None && forall|j2: int|
            start <= j2 < j ==> (#[trigger] fx[j2]) is Some;
    assert(start <= i < fx.len() && fx[i] is None && forall|j2: int|
        start <= j2 < i ==> (#[trigger] fx[j2]) is Some);
    if w < i {
        assert(fx[w] is Some);
    }
    if w > i {
        assert(fx[i] is Some);
    }
}

proof fn lemma_wrap_free_found(fx: Seq<Option<bool>>, start: int, k: int)
    requires
        0 <= k < start <= fx.len(),
        fx[k] is None,
        forall|j: int| start <= j < fx.len() ==> (#[trigger] fx[j]) is Some,
        forall|j: int| 0 <= j < k ==> (#[trigger] fx[j]) is Some,
    ensures
        wrap_first_free(fx, start) == k,
{
    assert(!(exists|j: int| start <= j < fx.len() && (#[trigger] fx[j]) is None));
    let w = choose|j: int|
        0 <= j < start && (#[trigger] fx[j]) is None && forall|j2: int|
            0 <= j2 < j ==> (#[trigger] fx[j2]) is Some;
    assert(0 <= k < start && fx[k] is None && forall|j2: int|
        0 <= j2 < k ==> (#[trigger] fx[j2]) is Some);
    if w < k {
        assert(fx[w] is Some);
    }
    if w > k {
        assert(fx[k] is Some);
    }
}

/// Term-range bound for the coupling sum, for absence of overflow.
proof fn lemma_d_sum_term_range(q: Seq<Seq<i64>>, x: Seq<bool>, i: int, k: int, n: int, b: int)
    requires
        mat_wf(q, n, b),
        0 <= k <= n,
        0 <= i < n,
        b >= 0,
    ensures
        -(k * (2 * b)) <= d_sum(q, x, i, k) <= k * (2 * b),
    decreases k,
{
    if k > 0 {
        lemma_d_sum_term_range(q, x, i, k - 1, n, b);
        if k - 1 != i {
            let t = q[i][k - 1] + q[k - 1][i];
            assert(-(2 * b) <= t * b2i(x[k - 1]) <= 2 * b) by (nonlinear_arith)
                requires
                    -(2 * b) <= t <= 2 * b,
                    b2i(x[k - 1]) == 0 || b2i(x[k - 1]) == 1,
            ;
        }
        assert((k - 1) * (2 * b) + 2 * b == k * (2 * b)) by (nonlinear_arith);
    }
}

} // verus!
