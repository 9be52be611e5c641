//! End-to-end solves of small instances with known exact answers.

use qubo_bb::api::solve_branch_bound;
use qubo_bb::branchbound::BranchStrategy;

fn solve(
    i: Vec<usize>,
    j: Vec<usize>,
    q: Vec<i64>,
    c: Vec<i64>,
    n: usize,
    warm: Option<Vec<bool>>,
) -> (Vec<bool>, i64, bool) {
    let r = solve_branch_bound(
        i,
        j,
        q,
        c,
        n,
        1_000_000,
        warm,
        None,
        Some(BranchStrategy::FirstNotFixed),
    )
    .expect("well-formed instance");
    (r.0, r.1, r.4)
}

#[test]
fn single_variable_pulls_to_one() {
    let (x, obj, optimal) = solve(vec![0], vec![0], vec![1], vec![-2], 1, None);
    assert!(optimal);
    assert_eq!(x, vec![true]);
    assert_eq!(obj, -1);
}

#[test]
fn separable_linear_pulls_all_to_one() {
    let (x, obj, optimal) = solve(vec![], vec![], vec![], vec![-1, -1], 2, None);
    assert!(optimal);
    assert_eq!(x, vec![true, true]);
    assert_eq!(obj, -2);
}

#[test]
fn coupled_pair_picks_exactly_one() {
    let (x, obj, optimal) = solve(vec![0], vec![1], vec![2], vec![-1, -1], 2, None);
    assert!(optimal);
    assert_eq!(obj, -1);
    assert!(x == vec![true, false] || x == vec![false, true]);
}

#[test]
fn positive_linear_pulls_all_to_zero() {
    let (x, obj, optimal) = solve(vec![], vec![], vec![], vec![1, 1, 1], 3, None);
    assert!(optimal);
    assert_eq!(x, vec![false, false, false]);
    assert_eq!(obj, 0);
}

#[test]
fn negative_couplings_pull_all_to_one() {
    let mut is = Vec::new();
    let mut js = Vec::new();
    let mut qs = Vec::new();
    for a in 0..4usize {
        for b in 0..4usize {
            if a != b {
                is.push(a);
                js.push(b);
                qs.push(-1i64);
            }
        }
    }
    let (x, obj, optimal) = solve(is, js, qs, vec![0, 0, 0, 0], 4, None);
    assert!(optimal);
    assert_eq!(obj, -12);
    assert_eq!(x, vec![true, true, true, true]);
}

#[test]
fn warm_started_coupled_pair() {
    let (x, obj, optimal) = solve(
        vec![0],
        vec![1],
        vec![2],
        vec![-1, -1],
        2,
        Some(vec![true, true]),
    );
    assert!(optimal);
    assert!(obj <= 1);
    assert_eq!(obj, -1);
    assert!(x == vec![true, false] || x == vec![false, true]);
}

#[test]
fn every_strategy_finds_the_same_minimum() {
    for strategy in [
        BranchStrategy::FirstNotFixed,
        BranchStrategy::MostViolated,
        BranchStrategy::Random,
        BranchStrategy::WorstApproximation,
    ] {
        let r = solve_branch_bound(
            vec![0, 1],
            vec![1, 2],
            vec![2, -4],
            vec![-1, -1, 1],
            3,
            1_000_000,
            None,
            Some(7),
            Some(strategy),
        )
        .expect("well-formed instance");
        assert!(r.4);
        assert_eq!(r.1, -4);
    }
}
