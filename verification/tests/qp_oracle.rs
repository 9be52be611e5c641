//! Drives the solver's step interface with a real convex-QP relaxation
//! oracle, the way an embedding program would, and checks the oracle's
//! leaf behaviour.

use clarabel::algebra::CscMatrix;
use clarabel::solver::{
    DefaultSettings, DefaultSolver, IPSolver, NonnegativeConeT, SupportedConeT, ZeroConeT,
};
use qubo_bb::api::convex_symmetric_form;
use qubo_bb::branchbound::{
    BBSolver, Bound, BranchStrategy, QpOutcome, QuboBBNode, SolverOptions, SOL_SCALE,
};
use qubo_bb::problem::Qubo;

/// Solves the box relaxation of `p` under `fixing`: minimize
/// `x^T q x + c^T x` over `[0,1]^n` with the fixed coordinates pinned.
fn qp_solve(p: &Qubo, fixing: &Vec<Option<bool>>) -> Option<(f64, Vec<f64>)> {
    let n = p.c.len();
    let fixed: Vec<(usize, f64)> = fixing
        .iter()
        .enumerate()
        .filter_map(|(i, s)| s.map(|v| (i, if v { 1.0 } else { 0.0 })))
        .collect();
    let n_fixed = fixed.len();
    // quadratic cost: clarabel minimizes (1/2) x^T P x + q^T x, so P = 2q
    let mut colptr = vec![0usize];
    let mut rowval = Vec::new();
    let mut nzval = Vec::new();
    for j in 0..n {
        for i in 0..n {
            rowval.push(i);
            nzval.push(2.0 * p.q[i][j] as f64);
        }
        colptr.push(rowval.len());
    }
    let pm = CscMatrix::new(n, n, colptr, rowval, nzval);
    let qv: Vec<f64> = p.c.iter().map(|v| *v as f64).collect();
    // constraint rows: one equality per fixed variable, then the box
    let m = n_fixed + 2 * n;
    let mut a_colptr = vec![0usize];
    let mut a_rowval = Vec::new();
    let mut a_nzval = Vec::new();
    for j in 0..n {
        for (k, (idx, _)) in fixed.iter().enumerate() {
            if *idx == j {
                a_rowval.push(k);
                a_nzval.push(1.0);
            }
        }
        a_rowval.push(n_fixed + 2 * j);
        a_nzval.push(1.0);
        a_rowval.push(n_fixed + 2 * j + 1);
        a_nzval.push(-1.0);
        a_colptr.push(a_rowval.len());
    }
    let am = CscMatrix::new(m, n, a_colptr, a_rowval, a_nzval);
    let mut b = vec![0.0f64; m];
    for (k, (_, v)) in fixed.iter().enumerate() {
        b[k] = *v;
    }
    for j in 0..n {
        b[n_fixed + 2 * j] = 1.0;
        b[n_fixed + 2 * j + 1] = 0.0;
    }
    let cones: [SupportedConeT<f64>; 2] = [ZeroConeT(n_fixed), NonnegativeConeT(2 * n)];
    let mut settings = DefaultSettings::default();
    settings.verbose = false;
    let mut solver = DefaultSolver::new(&pm, &qv, &am, &b, &cones, settings).ok()?;
    solver.solve();
    Some((solver.solution.obj_val, solver.solution.x.clone()))
}

fn scaled_outcome(lb: f64, x: Vec<f64>) -> QpOutcome {
    let bound = Bound::Finite((lb - 1e-6).floor() as i64);
    let solution = x
        .iter()
        .map(|v| (v.clamp(0.0, 1.0) * SOL_SCALE as f64).round() as i64)
        .collect();
    QpOutcome::Solved {
        lower_bound: bound,
        solution,
    }
}

#[test]
fn qp_driven_search_finds_the_minimum() {
    // couple two variables, each rewarded alone: minimum -1
    let pc = convex_symmetric_form(vec![0], vec![1], vec![2], vec![-1, -1], 2).unwrap();
    let n = pc.num_x();
    let mut solver = BBSolver::new(
        pc,
        SolverOptions {
            branch_strategy: BranchStrategy::MostViolated,
            max_nodes: 1000,
            seed: 9,
        },
    );
    solver.nodes.push(QuboBBNode {
        lower_bound: Bound::NegInf,
        solution: vec![0; n],
        fixed_variables: vec![None; n],
    });
    let mut rounds = 0;
    while let Some(node) = solver.get_next_node() {
        let outcome = match qp_solve(&solver.qubo, &node.fixed_variables) {
            Some((lb, x)) => scaled_outcome(lb, x),
            None => QpOutcome::Failed,
        };
        solver.process_node(node, outcome);
        rounds += 1;
        assert!(rounds < 100, "the search must terminate");
    }
    assert_eq!(solver.best_solution_value, -1);
    assert_eq!(solver.subproblem_failures, 0);
    assert!(solver.nodes_visited > 0);
    assert!(solver.nodes_processed > 0);
}

#[test]
fn leaf_relaxations_reproduce_the_exact_objective() {
    // on a leaf every variable is pinned, so the relaxation's objective
    // equals the exact evaluation up to solver tolerance
    let pc = convex_symmetric_form(vec![0], vec![1], vec![2], vec![-1, -1], 2).unwrap();
    for (fixing, point) in [
        (vec![Some(true), Some(false)], vec![true, false]),
        (vec![Some(false), Some(true)], vec![false, true]),
        (vec![Some(true), Some(true)], vec![true, true]),
        (vec![Some(false), Some(false)], vec![false, false]),
    ] {
        let (obj, _) = qp_solve(&pc, &fixing).expect("leaf relaxation solves");
        let exact = pc.eval(&point) as f64;
        assert!(
            (obj - exact).abs() < 1e-4,
            "leaf objective {obj} differs from exact {exact}"
        );
    }
}
