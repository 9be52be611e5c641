//! Randomized cross-checks against brute-force enumeration, persistence
//! idempotence, and fathoming.

use qubo_bb::api::{get_persistence, solve_branch_bound};
use qubo_bb::branchbound::{
    BBSolver, Bound, BranchStrategy, QpOutcome, QuboBBNode, SolverOptions,
};
use qubo_bb::problem::Qubo;

/// A small deterministic generator for reproducible instances.
struct Lcg(u64);

impl Lcg {
    fn next(&mut self) -> u64 {
        self.0 = self
            .0
            .wrapping_mul(6364136223846793005)
            .wrapping_add(1442695040888963407);
        self.0 >> 33
    }

    fn pick(&mut self, lo: i64, hi: i64) -> i64 {
        lo + (self.next() % ((hi - lo + 1) as u64)) as i64
    }
}

fn dense_f(q: &Vec<Vec<i64>>, c: &Vec<i64>, x: &Vec<bool>) -> i64 {
    let n = c.len();
    let mut total = 0i64;
    for i in 0..n {
        if x[i] {
            for j in 0..n {
                if x[j] {
                    total += q[i][j];
                }
            }
            total += c[i];
        }
    }
    total
}

fn brute_force_min(q: &Vec<Vec<i64>>, c: &Vec<i64>) -> i64 {
    let n = c.len();
    let mut best = i64::MAX;
    for mask in 0..(1u32 << n) {
        let x: Vec<bool> = (0..n).map(|i| mask & (1 << i) != 0).collect();
        let v = dense_f(q, c, &x);
        if v < best {
            best = v;
        }
    }
    best
}

#[test]
fn random_instances_match_brute_force() {
    let mut rng = Lcg(42);
    for trial in 0..12u64 {
        let n = 2 + (rng.next() % 7) as usize;
        let mut q = vec![vec![0i64; n]; n];
        let mut is = Vec::new();
        let mut js = Vec::new();
        let mut vs = Vec::new();
        for a in 0..n {
            for b in a..n {
                let v = rng.pick(-6, 6);
                if v != 0 {
                    q[a][b] += v;
                    q[b][a] += v;
                    if a == b {
                        is.push(a);
                        js.push(b);
                        vs.push(2 * v);
                    } else {
                        is.push(a);
                        js.push(b);
                        vs.push(v);
                        is.push(b);
                        js.push(a);
                        vs.push(v);
                    }
                }
            }
        }
        let c: Vec<i64> = (0..n).map(|_| rng.pick(-6, 6)).collect();
        let expected = brute_force_min(&q, &c);
        let strategy = match trial % 4 {
            0 => BranchStrategy::FirstNotFixed,
            1 => BranchStrategy::MostViolated,
            2 => BranchStrategy::Random,
            _ => BranchStrategy::WorstApproximation,
        };
        let r = solve_branch_bound(
            is,
            js,
            vs,
            c.clone(),
            n,
            1_000_000,
            None,
            Some(trial),
            Some(strategy),
        )
        .expect("well-formed instance");
        assert!(r.4, "search must complete");
        assert!(r.2 >= r.3, "every processed node was first visited");
        assert_eq!(r.1, expected, "trial {trial}");
        assert_eq!(r.1, dense_f(&q, &c, &r.0));
    }
}

#[test]
fn persistence_is_idempotent_on_random_fixings() {
    let mut rng = Lcg(7);
    for _trial in 0..10u64 {
        let n = 3 + (rng.next() % 6) as usize;
        let mut is = Vec::new();
        let mut js = Vec::new();
        let mut vs = Vec::new();
        for a in 0..n {
            for b in 0..n {
                let v = rng.pick(-4, 4);
                if v != 0 && a <= b {
                    is.push(a);
                    js.push(b);
                    vs.push(2 * v);
                }
            }
        }
        let c: Vec<i64> = (0..n).map(|_| rng.pick(-4, 4)).collect();
        // a partial fixing that leaves at least one variable free
        let mut pairs = Vec::new();
        for i in 0..n - 1 {
            if rng.next() % 2 == 0 {
                pairs.push((i, rng.next() % 2 == 0));
            }
        }
        let once = get_persistence(
            is.clone(),
            js.clone(),
            vs.clone(),
            c.clone(),
            n,
            pairs.clone(),
        )
        .expect("well-formed instance");
        // feed the fixed variables back in as pairs: a second run must
        // change nothing
        let mut pairs2 = Vec::new();
        for (i, slot) in once.iter().enumerate() {
            if let Some(v) = slot {
                pairs2.push((i, *v));
            }
        }
        let twice = get_persistence(is, js, vs, c, n, pairs2).expect("well-formed instance");
        assert_eq!(once, twice);
        // and the original fixing is kept
        for (i, v) in pairs {
            assert_eq!(once[i], Some(v));
        }
    }
}

#[test]
fn bound_fathomed_subtrees_cannot_beat_the_incumbent() {
    let q = vec![vec![0i64, 1], vec![1, 0]];
    let c = vec![0i64, -1];
    let qubo = Qubo { q: q.clone(), c: c.clone() };
    let options = SolverOptions {
        branch_strategy: BranchStrategy::FirstNotFixed,
        max_nodes: 1000,
        seed: 1,
    };
    let mut solver = BBSolver::new(qubo, options);
    // incumbent [0,1] with value -1
    solver.warm_start(vec![false, true]);
    assert_eq!(solver.best_solution_value, -1);
    // the subtree with x0 fixed to 1 has completions of value 0 and 1, so
    // 0 is a valid lower bound for it, and it exceeds the incumbent
    for x1 in [false, true] {
        assert!(dense_f(&q, &c, &vec![true, x1]) >= 0);
    }
    let node = QuboBBNode {
        lower_bound: Bound::NegInf,
        solution: vec![0, 0],
        fixed_variables: vec![Some(true), None],
    };
    solver.process_node(
        node,
        QpOutcome::Solved { lower_bound: Bound::Finite(0), solution: vec![0, 0] },
    );
    // the node was fathomed: no children were pushed, the incumbent stands
    assert_eq!(solver.nodes.len(), 0);
    assert_eq!(solver.nodes_processed, 1);
    assert_eq!(solver.best_solution_value, -1);
}
