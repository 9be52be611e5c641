//! Whole-solve entry points over the flat triplet problem form.

use vstd::prelude::*;

use crate::branchbound::{two_pow, BBSolver, BranchStrategy, SolverOptions, MAX_NODE_BUDGET};
use crate::model::f_of;
use crate::persistence::{compute_iterative_persistence, extends, spec_persist};
use crate::problem::{
    construction_error, lemma_row_radius_update_diag, lemma_worst_row_le, triplets_ok, trip_val,
    Qubo, QuboError, INPUT_LIMIT,
};

verus! {

/// The coefficient matrix the triplet form denotes.
pub open spec fn mat_of(is: Seq<usize>, js: Seq<usize>, vs: Seq<i64>, n: int) -> Seq<Seq<i64>> {
    Seq::new(
        n as nat,
        |a: int| Seq::new(n as nat, |b: int| trip_val(is, js, vs, is.len() as int, a, b) as i64),
    )
}

/// The objective the triplet form denotes, on a 0/1 point.
pub open spec fn input_f(
    is: Seq<usize>,
    js: Seq<usize>,
    vs: Seq<i64>,
    c: Seq<i64>,
    n: int,
    x: Seq<bool>,
) -> int {
    f_of(mat_of(is, js, vs, n), c, x)
}

/// Every coupling of the denoted matrix is even, so the symmetric
/// half-sum matrix exists over the integers.
pub open spec fn couplings_even(is: Seq<usize>, js: Seq<usize>, vs: Seq<i64>, n: int) -> bool {
    forall|a: int, b: int|
        0 <= a < n && 0 <= b < n ==> ((#[trigger] mat_of(is, js, vs, n)[a][b]) + mat_of(
            is,
            js,
            vs,
            n,
        )[b][a]) % 2 == 0
}

/// The symmetric half-sum matrix of `q`.
pub open spec fn sym_of(q: Seq<Seq<i64>>, n: int) -> Seq<Seq<i64>> {
    Seq::new(n as nat, |a: int| Seq::new(n as nat, |b: int| ((q[a][b] + q[b][a]) / 2) as i64))
}

/// The fixing with every variable free.
pub open spec fn empty_fixing(n: int) -> Seq<Option<bool>> {
    Seq::new(n as nat, |i: int| None::<bool>)
}

/// The fixing the first `k` index-value pairs build, a later pair for the
/// same variable winning.
pub open spec fn pairs_fixing(pairs: Seq<(usize, bool)>, k: int, n: int) -> Seq<Option<bool>>
    decreases k,
{
    if k <= 0 {
        empty_fixing(n)
    } else {
        pairs_fixing(pairs, k - 1, n).update(pairs[k - 1].0 as int, Some(pairs[k - 1].1))
    }
}

/// Two exact minima of one objective agree; in particular a completed
/// search returns the same value whatever 0/1 point it was warm-started
/// from.
pub proof fn lemma_complete_runs_agree(
    q: Seq<Seq<i64>>,
    c: Seq<i64>,
    x1: Seq<bool>,
    x2: Seq<bool>,
)
    requires
        x1.len() == x2.len(),
        forall|y: Seq<bool>| y.len() == x1.len() ==> f_of(q, c, x1) <= #[trigger] f_of(q, c, y),
        forall|y: Seq<bool>| y.len() == x2.len() ==> f_of(q, c, x2) <= #[trigger] f_of(q, c, y),
    ensures
        f_of(q, c, x1) == f_of(q, c, x2),
{
}

/// Builds the problem a triplet form denotes and relates it to `mat_of`.
fn build_problem(
    i_idx: Vec<usize>,
    j_idx: Vec<usize>,
    vals: Vec<i64>,
    c: Vec<i64>,
    n: usize,
) -> (r: Result<Qubo, QuboError>)
    ensures
        r is Ok <==> triplets_ok(i_idx@, j_idx@, vals@, c@, n as int),
        !triplets_ok(i_idx@, j_idx@, vals@, c@, n as int) ==> r == Err::<Qubo, QuboError>(
            construction_error(i_idx@, j_idx@, vals@, c@, n as int),
        ),
        r is Ok ==> {
            let p = r->Ok_0;
            &&& p.wf()
            &&& p.bounded_by(INPUT_LIMIT as int)
            &&& p.n() == n
            &&& p.qm() == mat_of(i_idx@, j_idx@, vals@, n as int)
            &&& p.cv() == c@
            &&& forall|x: Seq<bool>|
                x.len() == n ==> #[trigger] p.f(x) == input_f(
                    i_idx@,
                    j_idx@,
                    vals@,
                    c@,
                    n as int,
                    x,
                )
        },
{
    let ghost iss = i_idx@;
    let ghost jss = j_idx@;
    let ghost vss = vals@;
    let ghost cs = c@;
    let r = Qubo::from_vec(i_idx, j_idx, vals, c, n);
    match r {
        Ok(p) => {
            proof {
                let m = mat_of(iss, jss, vss, n as int);
                assert forall|a: int| 0 <= a < n implies #[trigger] p.qm()[a] =~= m[a] by {
                    assert forall|b: int| 0 <= b < n implies #[trigger] p.qm()[a][b] == m[a][b] by {
                        assert(p.qm()[a][b] == trip_val(iss, jss, vss, iss.len() as int, a, b));
                    }
                }
                assert(p.qm() =~= m);
            }
            Ok(p)
        },
        Err(e) => Err(e),
    }
}

/// Solves the QUBO the triplet form denotes by branch and bound.
///
/// Returns the best 0/1 point found, its exact objective value, the visit
/// and process counters, and whether the search ran to completion; when it
/// did, the value is the exact minimum of the objective.  Completion is
/// guaranteed whenever fewer nodes were processed than the budget allows,
/// and unconditionally when the budget covers the whole tree (at least
/// `2 * 2^n` nodes).  A warm start becomes the initial incumbent, so the
/// result never exceeds its value; without one the zero vector, whose
/// objective is 0, starts as incumbent.  A missing seed means 12_345_679
/// and a missing strategy means `FirstNotFixed`.
pub fn solve_branch_bound(
    i_idx: Vec<usize>,
    j_idx: Vec<usize>,
    vals: Vec<i64>,
    c: Vec<i64>,
    n: usize,
    max_nodes: u64,
    warm_start: Option<Vec<bool>>,
    seed: Option<u64>,
    branch_strategy: Option<BranchStrategy>,
) -> (r: Result<(Vec<bool>, i64, u64, u64, bool), QuboError>)
    ensures
        r is Ok <==> triplets_ok(i_idx@, j_idx@, vals@, c@, n as int) && couplings_even(
            i_idx@,
            j_idx@,
            vals@,
            n as int,
        ) && (warm_start matches Some(w) ==> w@.len() == n),
        r is Ok ==> {
            let (x, obj, visited, processed, optimal) = r->Ok_0;
            &&& x@.len() == n
            &&& obj == input_f(i_idx@, j_idx@, vals@, c@, n as int, x@)
            &&& (optimal ==> forall|y: Seq<bool>|
                y.len() == n ==> obj <= #[trigger] input_f(i_idx@, j_idx@, vals@, c@, n as int, y))
            &&& (warm_start matches Some(w) ==> obj <= input_f(
                i_idx@,
                j_idx@,
                vals@,
                c@,
                n as int,
                w@,
            ))
            &&& (warm_start is None ==> obj <= 0)
            &&& visited >= processed
            &&& (processed < (if max_nodes > MAX_NODE_BUDGET {
                MAX_NODE_BUDGET
            } else {
                max_nodes
            }) ==> optimal)
            &&& (2 * two_pow(n as nat) <= (if max_nodes > MAX_NODE_BUDGET {
                MAX_NODE_BUDGET
            } else {
                max_nodes
            }) ==> optimal)
        },
{
    let ghost iss = i_idx@;
    let ghost jss = j_idx@;
    let ghost vss = vals@;
    let ghost cs = c@;
    let p = match build_problem(i_idx, j_idx, vals, c, n) {
        Ok(p) => p,
        Err(e) => {
            return Err(e);
        },
    };
    let s = match p.make_symmetric() {
        Ok(s) => s,
        Err(e) => {
            proof {
                assert(!couplings_even(iss, jss, vss, n as int));
            }
            return Err(e);
        },
    };
    proof {
        assert(couplings_even(iss, jss, vss, n as int));
    }
    let shift = s.convexifying_shift();
    proof {
        assert(s.bounded_by(INPUT_LIMIT as int));
        assert(shift <= 1 + INPUT_LIMIT + s.n() * INPUT_LIMIT);
        assert(s.n() * (INPUT_LIMIT as int) <= 4096 * (INPUT_LIMIT as int)) by (nonlinear_arith)
            requires
                0 <= s.n() <= 4096,
        ;
    }
    let p2 = if shift > 0 {
        s.make_diag_transform(shift)
    } else {
        s
    };
    let budget = if max_nodes > MAX_NODE_BUDGET {
        MAX_NODE_BUDGET
    } else {
        max_nodes
    };
    let options = SolverOptions {
        branch_strategy: match branch_strategy {
            Some(bs) => bs,
            None => BranchStrategy::FirstNotFixed,
        },
        max_nodes: budget,
        seed: match seed {
            Some(sd) => sd,
            None => 12_345_679,
        },
    };
    let mut solver = BBSolver::new(p2, options);
    match warm_start {
        Some(w) => {
            if w.len() != n {
                return Err(QuboError::LengthMismatch);
            }
            solver.warm_start(w);
        },
        None => {},
    }
    let (x, obj) = solver.solve();
    let optimal = solver.nodes.len() == 0;
    proof {
        assert(obj == p2.f(x@));
        assert(p2.f(x@) == s.f(x@));
        assert(s.f(x@) == p.f(x@));
        if optimal {
            assert forall|y: Seq<bool>| y.len() == n implies obj <= #[trigger] input_f(
                iss,
                jss,
                vss,
                cs,
                n as int,
                y,
            ) by {
                assert(obj <= f_of(p2.qm(), p2.cv(), y));
                assert(p2.f(y) == s.f(y));
                assert(s.f(y) == p.f(y));
            }
        }
    }
    Ok((x, obj, solver.nodes_visited, solver.nodes_processed, optimal))
}

/// Symmetrizes the problem and extends a fixing by iterated persistence.
/// The pairs name variables and values; a later pair for the same variable
/// wins, as in building a dictionary.
pub fn get_persistence(
    i_idx: Vec<usize>,
    j_idx: Vec<usize>,
    vals: Vec<i64>,
    c: Vec<i64>,
    n: usize,
    fixed: Vec<(usize, bool)>,
) -> (r: Result<Vec<Option<bool>>, QuboError>)
    ensures
        r is Ok <==> triplets_ok(i_idx@, j_idx@, vals@, c@, n as int) && couplings_even(
            i_idx@,
            j_idx@,
            vals@,
            n as int,
        ) && (forall|k: int| 0 <= k < fixed@.len() ==> (#[trigger] fixed@[k]).0 < n),
        r is Ok ==> {
            let fx = r->Ok_0;
            let start = pairs_fixing(fixed@, fixed@.len() as int, n as int);
            &&& fx@.len() == n
            &&& fx@ == spec_persist(
                sym_of(mat_of(i_idx@, j_idx@, vals@, n as int), n as int),
                c@,
                start,
                n as int,
            )
            &&& extends(fx@, start)
        },
{
    let ghost iss = i_idx@;
    let ghost jss = j_idx@;
    let ghost vss = vals@;
    let ghost cs = c@;
    let p = match build_problem(i_idx, j_idx, vals, c, n) {
        Ok(p) => p,
        Err(e) => {
            return Err(e);
        },
    };
    let s = match p.make_symmetric() {
        Ok(s) => s,
        Err(e) => {
            proof {
                assert(!couplings_even(iss, jss, vss, n as int));
            }
            return Err(e);
        },
    };
    proof {
        assert(couplings_even(iss, jss, vss, n as int));
        let m = sym_of(mat_of(iss, jss, vss, n as int), n as int);
        assert forall|a: int| 0 <= a < n implies #[trigger] s.qm()[a] =~= m[a] by {
            assert forall|b: int| 0 <= b < n implies #[trigger] s.qm()[a][b] == m[a][b] by {
                assert(2 * s.qm()[a][b] == p.qm()[a][b] + p.qm()[b][a]);
                assert(p.qm()[a][b] == mat_of(iss, jss, vss, n as int)[a][b]);
                assert(p.qm()[b][a] == mat_of(iss, jss, vss, n as int)[b][a]);
            }
        }
        assert(s.qm() =~= m);
        assert(s.cv() == cs);
    }
    let mut fx: Vec<Option<bool>> = Vec::new();
    let mut i: usize = 0;
    while i < n
        invariant
            0 <= i <= n,
            fx@.len() == i,
            forall|j: int| 0 <= j < i ==> (#[trigger] fx@[j]) is None,
        decreases n - i,
    {
        fx.push(None);
        i = i + 1;
    }
    proof {
        assert(fx@ =~= empty_fixing(n as int));
    }
    let mut k: usize = 0;
    while k < fixed.len()
        invariant
            0 <= k <= fixed@.len(),
            fx@.len() == n,
            fx@ == pairs_fixing(fixed@, k as int, n as int),
            forall|k2: int| 0 <= k2 < k ==> (#[trigger] fixed@[k2]).0 < n,
        decreases fixed@.len() - k,
    {
        let (idx, v) = fixed[k];
        if idx >= n {
            return Err(QuboError::IndexOutOfRange);
        }
        fx[idx] = Some(v);
        k = k + 1;
    }
    let result = compute_iterative_persistence(&s, &fx, n);
    Ok(result)
}

/// The equivalent symmetric, diagonally dominant form of the problem the
/// triplet form denotes: same objective on every 0/1 point, and every
/// diagonal entry exceeds its row's Gershgorin radius, so the Hessian is
/// positive definite and a convex relaxation oracle may rely on it.
pub fn convex_symmetric_form(
    i_idx: Vec<usize>,
    j_idx: Vec<usize>,
    vals: Vec<i64>,
    c: Vec<i64>,
    n: usize,
) -> (r: Result<Qubo, QuboError>)
    ensures
        r is Ok <==> triplets_ok(i_idx@, j_idx@, vals@, c@, n as int) && couplings_even(
            i_idx@,
            j_idx@,
            vals@,
            n as int,
        ),
        r is Ok ==> {
            let pc = r->Ok_0;
            &&& pc.wf()
            &&& pc.n() == n
            &&& pc.is_symmetric()
            &&& forall|i: int|
                0 <= i < n ==> #[trigger] pc.qm()[i][i] - Qubo::row_radius(
                    pc.qm()[i],
                    i,
                    n as int,
                ) >= 1
            &&& forall|x: Seq<bool>|
                x.len() == n ==> #[trigger] pc.f(x) == input_f(
                    i_idx@,
                    j_idx@,
                    vals@,
                    c@,
                    n as int,
                    x,
                )
        },
{
    let ghost iss = i_idx@;
    let ghost jss = j_idx@;
    let ghost vss = vals@;
    let p = match build_problem(i_idx, j_idx, vals, c, n) {
        Ok(p) => p,
        Err(e) => {
            return Err(e);
        },
    };
    let s = match p.make_symmetric() {
        Ok(s) => s,
        Err(e) => {
            proof {
                assert(!couplings_even(iss, jss, vss, n as int));
            }
            return Err(e);
        },
    };
    proof {
        assert(couplings_even(iss, jss, vss, n as int));
    }
    let shift = s.convexifying_shift();
    proof {
        assert(s.bounded_by(INPUT_LIMIT as int));
        assert(s.n() * (INPUT_LIMIT as int) <= 4096 * (INPUT_LIMIT as int)) by (nonlinear_arith)
            requires
                0 <= s.n() <= 4096,
        ;
    }
    if shift > 0 {
        let pc = s.make_diag_transform(shift);
        proof {
            // each row's Gershgorin value rose by the shift, which was
            // chosen to lift the worst row to exactly 1
            assert forall|i: int| 0 <= i < n implies #[trigger] pc.qm()[i][i] - Qubo::row_radius(
                pc.qm()[i],
                i,
                n as int,
            ) >= 1 by {
                lemma_worst_row_le(&s, i, n as int);
                lemma_row_radius_update_diag(
                    s.qm()[i],
                    i,
                    (s.qm()[i][i] + shift) as i64,
                    n as int,
                );
                assert(pc.qm()[i] == s.qm()[i].update(i, (s.qm()[i][i] + shift) as i64));
            }
        }
        Ok(pc)
    } else {
        proof {
            assert forall|i: int| 0 <= i < n implies #[trigger] s.qm()[i][i] - Qubo::row_radius(
                s.qm()[i],
                i,
                n as int,
            ) >= 1 by {
                lemma_worst_row_le(&s, i, n as int);
            }
        }
        Ok(s)
    }
}

} // verus!
