//! Construction errors, preprocessing equivalences, the convexifying
//! shift, and the branching strategies on concrete values.

use qubo_bb::api::{convex_symmetric_form, solve_branch_bound};
use qubo_bb::branchbound::{
    BBSolver, Bound, BranchStrategy, QuboBBNode, SolverOptions, SOL_SCALE,
};
use qubo_bb::problem::{Qubo, QuboError, INPUT_LIMIT, MAX_VARS};

fn dense_f(q: &Vec<Vec<i64>>, c: &Vec<i64>, x: &Vec<bool>) -> i64 {
    let n = c.len();
    let mut total = 0i64;
    for i in 0..n {
        if x[i] {
            for j in 0..n {
                if x[j] {
                    total += q[i][j];
                }
            }
            total += c[i];
        }
    }
    total
}

#[test]
fn empty_problem_is_rejected() {
    let r = Qubo::from_vec(vec![], vec![], vec![], vec![], 0);
    assert_eq!(r.unwrap_err(), QuboError::EmptyProblem);
}

#[test]
fn oversized_problem_is_rejected() {
    let n = MAX_VARS + 1;
    let r = Qubo::from_vec(vec![], vec![], vec![], vec![0; n], n);
    assert_eq!(r.unwrap_err(), QuboError::TooManyVariables);
}

#[test]
fn mismatched_lengths_are_rejected() {
    let r = Qubo::from_vec(vec![0], vec![0, 1], vec![1], vec![0, 0], 2);
    assert_eq!(r.unwrap_err(), QuboError::LengthMismatch);
}

#[test]
fn out_of_range_index_is_rejected() {
    let r = Qubo::from_vec(vec![0], vec![2], vec![1], vec![0, 0], 2);
    assert_eq!(r.unwrap_err(), QuboError::IndexOutOfRange);
}

#[test]
fn oversized_coefficient_is_rejected() {
    let r = Qubo::from_vec(vec![0], vec![0], vec![INPUT_LIMIT + 1], vec![0, 0], 2);
    assert_eq!(r.unwrap_err(), QuboError::CoefficientTooLarge);
    let r2 = Qubo::from_vec(vec![], vec![], vec![], vec![0, -INPUT_LIMIT - 1], 2);
    assert_eq!(r2.unwrap_err(), QuboError::CoefficientTooLarge);
}

#[test]
fn duplicate_entry_is_rejected() {
    let r = Qubo::from_vec(vec![0, 0], vec![1, 1], vec![1, 2], vec![0, 0], 2);
    assert_eq!(r.unwrap_err(), QuboError::DuplicateEntry);
}

#[test]
fn odd_coupling_is_rejected_by_symmetrization() {
    // q01 + q10 = 1 is odd, so the half-sum matrix is not integral
    let p = Qubo::from_vec(vec![0], vec![1], vec![1], vec![0, 0], 2).unwrap();
    assert_eq!(p.make_symmetric().unwrap_err(), QuboError::OddCoupling);
    let r = solve_branch_bound(
        vec![0],
        vec![1],
        vec![1],
        vec![0, 0],
        2,
        100,
        None,
        None,
        None,
    );
    assert_eq!(r.unwrap_err(), QuboError::OddCoupling);
}

#[test]
fn warm_start_of_wrong_length_is_rejected() {
    let r = solve_branch_bound(
        vec![],
        vec![],
        vec![],
        vec![-1, -1],
        2,
        100,
        Some(vec![true]),
        None,
        None,
    );
    assert_eq!(r.unwrap_err(), QuboError::LengthMismatch);
}

#[test]
fn eval_matches_the_quadratic_form() {
    let p = Qubo {
        q: vec![vec![1, 2], vec![3, -4]],
        c: vec![5, -6],
    };
    assert_eq!(p.eval(&vec![false, false]), 0);
    assert_eq!(p.eval(&vec![true, false]), 6);
    assert_eq!(p.eval(&vec![false, true]), -10);
    // 1 + 2 + 3 - 4 + 5 - 6
    assert_eq!(p.eval(&vec![true, true]), 1);
}

#[test]
fn symmetrization_preserves_objective_on_all_points() {
    let p = Qubo::from_vec(vec![0], vec![1], vec![2], vec![-1, -1], 2).unwrap();
    let s = p.make_symmetric().unwrap();
    assert_eq!(s.q, vec![vec![0, 1], vec![1, 0]]);
    for mask in 0..4u32 {
        let x = vec![mask & 1 != 0, mask & 2 != 0];
        assert_eq!(p.eval(&x), s.eval(&x));
    }
}

#[test]
fn diagonal_shift_preserves_objective_on_all_points() {
    let p = Qubo::from_vec(vec![0, 1], vec![1, 0], vec![-3, -3], vec![2, -5], 2).unwrap();
    for h in [0i64, 1, 4, 17] {
        let t = p.make_diag_transform(h);
        for mask in 0..4u32 {
            let x = vec![mask & 1 != 0, mask & 2 != 0];
            assert_eq!(p.eval(&x), t.eval(&x), "shift {h}");
        }
    }
}

#[test]
fn convexifying_shift_follows_gershgorin() {
    // row values q_ii - sum |off-diagonal|: 0 - 3 = -3 twice, so the
    // shift is 1 - (-3) = 4
    let p = Qubo {
        q: vec![vec![0, -3], vec![-3, 0]],
        c: vec![0, 0],
    };
    assert_eq!(p.convexifying_shift(), 4);
    // already dominant: no shift
    let d = Qubo {
        q: vec![vec![5, 1], vec![1, 5]],
        c: vec![0, 0],
    };
    assert_eq!(d.convexifying_shift(), 0);
}

#[test]
fn convex_symmetric_form_preserves_objective() {
    let pc = convex_symmetric_form(vec![0], vec![1], vec![-4], vec![1, -2], 2).unwrap();
    let original = Qubo {
        q: vec![vec![0, -4], vec![0, 0]],
        c: vec![1, -2],
    };
    for mask in 0..4u32 {
        let x = vec![mask & 1 != 0, mask & 2 != 0];
        assert_eq!(original.eval(&x), pc.eval(&x));
    }
    // symmetric and diagonally dominant
    assert_eq!(pc.q[0][1], pc.q[1][0]);
    assert!(pc.q[0][0] >= pc.q[0][1].abs() + 1);
}

#[test]
fn to_vec_round_trips_through_from_vec() {
    let p = Qubo::from_vec(
        vec![0, 1, 2],
        vec![1, 2, 2],
        vec![4, -6, 2],
        vec![1, 2, 3],
        3,
    )
    .unwrap();
    let (is, js, vs, c, n) = p.to_vec();
    let p2 = Qubo::from_vec(is, js, vs, c, n).unwrap();
    assert_eq!(p.q, p2.q);
    assert_eq!(p.c, p2.c);
}

fn test_solver(q: Vec<Vec<i64>>, c: Vec<i64>, strategy: BranchStrategy) -> BBSolver {
    let qubo = Qubo { q, c };
    BBSolver::new(
        qubo,
        SolverOptions {
            branch_strategy: strategy,
            max_nodes: 1000,
            seed: 3,
        },
    )
}

#[test]
fn first_not_fixed_takes_the_smallest_free_index() {
    let s = test_solver(
        vec![vec![0; 3]; 3],
        vec![0, 0, 0],
        BranchStrategy::FirstNotFixed,
    );
    let node = QuboBBNode {
        lower_bound: Bound::NegInf,
        solution: vec![0, 0, 0],
        fixed_variables: vec![Some(true), None, None],
    };
    assert_eq!(s.first_not_fixed(&node), 1);
}

#[test]
fn most_violated_takes_the_value_closest_to_half_largest_index_on_ties() {
    let s = test_solver(
        vec![vec![0; 4]; 4],
        vec![0, 0, 0, 0],
        BranchStrategy::MostViolated,
    );
    let node = QuboBBNode {
        lower_bound: Bound::NegInf,
        solution: vec![SOL_SCALE / 2, SOL_SCALE / 4, SOL_SCALE / 2, SOL_SCALE],
        fixed_variables: vec![None, None, None, None],
    };
    // indices 0 and 2 are both exactly one half; the later one wins
    assert_eq!(s.most_violated(&node), 2);
}

#[test]
fn random_strategy_matches_the_generator_draw() {
    let s = test_solver(
        vec![vec![0; 5]; 5],
        vec![0, 0, 0, 0, 0],
        BranchStrategy::Random,
    );
    let node = QuboBBNode {
        lower_bound: Bound::NegInf,
        solution: vec![0; 5],
        fixed_variables: vec![None, Some(true), None, None, None],
    };
    // recompute the draw with the generator crate itself
    let mut prng = smolprng::PRNG {
        generator: smolprng::JsfLarge::from(s.options.seed ^ s.nodes_visited),
    };
    let start = (prng.gen_u64() % 5) as usize;
    let expected = (start..5)
        .chain(0..start)
        .find(|i| node.fixed_variables[*i].is_none())
        .unwrap();
    assert_eq!(s.random(&node), expected);
    // a second call draws the same seed and lands on the same index
    assert_eq!(s.random(&node), expected);
}

#[test]
fn worst_approximation_picks_the_variable_with_the_worst_better_child() {
    // f = -5 x0 + x1: flipping x0 changes f by -5 or 5, flipping x1 by 1
    // or -1; the worse change of x0 (-5) is below the worse change of x1
    // (-1), so x1 maximizes the minimum gain
    let mut s = test_solver(
        vec![vec![0, 0], vec![0, 0]],
        vec![-5, 1],
        BranchStrategy::WorstApproximation,
    );
    let node = QuboBBNode {
        lower_bound: Bound::NegInf,
        solution: vec![0, 0],
        fixed_variables: vec![None, None],
    };
    assert_eq!(s.worst_approximation(&node), 1);
    assert_eq!(s.nodes_objective_evales, 4);
}

#[test]
fn leaf_processing_updates_the_incumbent_once() {
    let q = vec![vec![0, 1], vec![1, 0]];
    let c = vec![-1, -1];
    let mut s = test_solver(q.clone(), c.clone(), BranchStrategy::FirstNotFixed);
    let leaf = QuboBBNode {
        lower_bound: Bound::NegInf,
        solution: vec![0, 0],
        fixed_variables: vec![Some(true), Some(false)],
    };
    assert!(s.can_prune(&leaf));
    assert_eq!(s.best_solution_value, dense_f(&q, &c, &vec![true, false]));
    assert_eq!(s.best_solution, vec![true, false]);
    assert_eq!(s.nodes_objective_evales, 1);
    // a leaf that does not improve still costs one evaluation and leaves
    // the incumbent alone
    let worse = QuboBBNode {
        lower_bound: Bound::NegInf,
        solution: vec![0, 0],
        fixed_variables: vec![Some(true), Some(true)],
    };
    assert!(s.can_prune(&worse));
    assert_eq!(s.best_solution, vec![true, false]);
    assert_eq!(s.nodes_objective_evales, 2);
    // a bound-fathomed node is pruned without touching any state
    let fathomed = QuboBBNode {
        lower_bound: Bound::Finite(100),
        solution: vec![0, 0],
        fixed_variables: vec![Some(true), None],
    };
    assert!(s.can_prune(&fathomed));
    assert_eq!(s.best_solution, vec![true, false]);
    assert_eq!(s.nodes_objective_evales, 2);
    // an unprunable node: neither leaf nor above the incumbent
    let open_node = QuboBBNode {
        lower_bound: Bound::Finite(-100),
        solution: vec![0, 0],
        fixed_variables: vec![Some(true), None],
    };
    assert!(!s.can_prune(&open_node));
}
