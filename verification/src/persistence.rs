//! Variable persistence: extending a partial fixing by variables whose
//! optimal value is forced.
//!
//! For a free variable `i`, the exact change of the objective when `i` is
//! raised from 0 to 1 is `flip_up_delta`.  Over all completions of the
//! current fixing that change lies between `d_min` and `d_max`.  When
//! `d_max < 0` the raise can only help, so `i` is fixed to 1; when
//! `d_min > 0` it can only hurt, so `i` is fixed to 0; a bound that can be
//! exactly 0 leaves the variable free.  A pass applies this rule to each
//! variable in index order, and the engine iterates passes to a fixed
//! point.

use vstd::prelude::*;

use crate::model::{b2i, d_sum, f_of, flip_up_delta, lemma_flip_up, mat_wf};
use crate::problem::{Qubo, COEFF_LIMIT};

verus! {

/// A complete 0/1 point `x` agrees with every assignment of the fixing.
pub open spec fn consistent(x: Seq<bool>, fx: Seq<Option<bool>>) -> bool {
    &&& x.len() == fx.len()
    &&& forall|i: int|
        0 <= i < fx.len() && (#[trigger] fx[i]) is Some ==> x[i] == fx[i]->0
}

/// `f2` keeps every assignment of `f1` (and may add more).
pub open spec fn extends(f2: Seq<Option<bool>>, f1: Seq<Option<bool>>) -> bool {
    &&& f2.len() == f1.len()
    &&& forall|i: int|
        0 <= i < f1.len() && (#[trigger] f1[i]) is Some ==> f2[i] == f1[i]
}

/// Number of fixed variables among the first `k`.
pub open spec fn fix_count(fx: Seq<Option<bool>>, k: int) -> int
    decreases k,
{
    if k <= 0 {
        0
    } else {
        fix_count(fx, k - 1) + if fx[k - 1] is Some {
            1int
        } else {
            0int
        }
    }
}

pub proof fn lemma_fix_count_le(fx: Seq<Option<bool>>, k: int)
    ensures
        0 <= fix_count(fx, k) <= if k <= 0 {
            0
        } else {
            k
        },
    decreases k,
{
    if k > 0 {
        lemma_fix_count_le(fx, k - 1);
    }
}

pub proof fn lemma_extends_trans(f3: Seq<Option<bool>>, f2: Seq<Option<bool>>, f1: Seq<Option<bool>>)
    requires
        extends(f3, f2),
        extends(f2, f1),
    ensures
        extends(f3, f1),
{
}

/// A point consistent with an extension is consistent with the base fixing.
pub proof fn lemma_consistent_extends(x: Seq<bool>, f2: Seq<Option<bool>>, f1: Seq<Option<bool>>)
    requires
        consistent(x, f2),
        extends(f2, f1),
    ensures
        consistent(x, f1),
{
}

pub proof fn lemma_fix_count_mono(f2: Seq<Option<bool>>, f1: Seq<Option<bool>>, k: int)
    requires
        extends(f2, f1),
        k <= f1.len(),
    ensures
        fix_count(f2, k) >= fix_count(f1, k),
    decreases k,
{
    if k > 0 {
        lemma_fix_count_mono(f2, f1, k - 1);
    }
}

pub proof fn lemma_fix_count_strict(f2: Seq<Option<bool>>, f1: Seq<Option<bool>>, i: int, k: int)
    requires
        extends(f2, f1),
        0 <= i < k <= f1.len(),
        f1[i] is None,
        f2[i] is Some,
    ensures
        fix_count(f2, k) >= fix_count(f1, k) + 1,
    decreases k,
{
    if i == k - 1 {
        lemma_fix_count_mono(f2, f1, k - 1);
    } else {
        lemma_fix_count_strict(f2, f1, i, k - 1);
    }
}

pub proof fn lemma_count_full_all_fixed(fx: Seq<Option<bool>>, k: int)
    requires
        fix_count(fx, k) == k,
        0 <= k,
    ensures
        forall|i: int| 0 <= i < k ==> (#[trigger] fx[i]) is Some,
    decreases k,
{
    if k > 0 {
        lemma_fix_count_le(fx, k - 1);
        lemma_count_full_all_fixed(fx, k - 1);
    }
}

/// Number of variables the fixing assigns.
pub fn count_fixed(fx: &Vec<Option<bool>>) -> (r: usize)
    ensures
        r == fix_count(fx@, fx@.len() as int),
{
    let mut r: usize = 0;
    let mut i: usize = 0;
    while i < fx.len()
        invariant
            0 <= i <= fx@.len(),
            r == fix_count(fx@, i as int),
            r <= i,
        decreases fx@.len() - i,
    {
        if fx[i].is_some() {
            r = r + 1;
        }
        i = i + 1;
    }
    r
}

/// The coupling coefficient between variables `i` and `j`.
pub open spec fn coupling(q: Seq<Seq<i64>>, i: int, j: int) -> int {
    q[i][j] + q[j][i]
}

/// Lower bound of the coupling part of `flip_up_delta` over all completions
/// of `fx`: fixed variables contribute exactly, free ones their worst case.
pub open spec fn d_sum_lo(q: Seq<Seq<i64>>, fx: Seq<Option<bool>>, i: int, k: int) -> int
    decreases k,
{
    if k <= 0 {
        0
    } else {
        let prev = d_sum_lo(q, fx, i, k - 1);
        if k - 1 == i {
            prev
        } else if fx[k - 1] is Some {
            prev + coupling(q, i, k - 1) * b2i(fx[k - 1]->0)
        } else if coupling(q, i, k - 1) < 0 {
            prev + coupling(q, i, k - 1)
        } else {
            prev
        }
    }
}

/// Upper bound of the coupling part of `flip_up_delta` over all completions.
pub open spec fn d_sum_hi(q: Seq<Seq<i64>>, fx: Seq<Option<bool>>, i: int, k: int) -> int
    decreases k,
{
    if k <= 0 {
        0
    } else {
        let prev = d_sum_hi(q, fx, i, k - 1);
        if k - 1 == i {
            prev
        } else if fx[k - 1] is Some {
            prev + coupling(q, i, k - 1) * b2i(fx[k - 1]->0)
        } else if coupling(q, i, k - 1) > 0 {
            prev + coupling(q, i, k - 1)
        } else {
            prev
        }
    }
}

/// Least possible value of `flip_up_delta` for variable `i` over all
/// completions of `fx`.
pub open spec fn d_min(q: Seq<Seq<i64>>, c: Seq<i64>, fx: Seq<Option<bool>>, i: int) -> int {
    q[i][i] + c[i] + d_sum_lo(q, fx, i, q.len() as int)
}

/// Greatest possible value of `flip_up_delta` for variable `i`.
pub open spec fn d_max(q: Seq<Seq<i64>>, c: Seq<i64>, fx: Seq<Option<bool>>, i: int) -> int {
    q[i][i] + c[i] + d_sum_hi(q, fx, i, q.len() as int)
}

/// On every completion of `fx` the coupling sum lies between its bounds.
pub proof fn lemma_d_sum_bounds(
    q: Seq<Seq<i64>>,
    x: Seq<bool>,
    fx: Seq<Option<bool>>,
    i: int,
    k: int,
)
    requires
        consistent(x, fx),
        k <= fx.len(),
    ensures
        d_sum_lo(q, fx, i, k) <= d_sum(q, x, i, k) <= d_sum_hi(q, fx, i, k),
    decreases k,
{
    if k > 0 {
        lemma_d_sum_bounds(q, x, fx, i, k - 1);
        if k - 1 != i {
            let t = coupling(q, i, k - 1);
            if fx[k - 1] is Some {
                assert(x[k - 1] == fx[k - 1]->0);
            } else {
                if x[k - 1] {
                    assert(t * b2i(x[k - 1]) == t) by (nonlinear_arith)
                        requires
                            b2i(x[k - 1]) == 1,
                            t == coupling(q, i, k - 1),
                    ;
                } else {
                    assert(t * b2i(x[k - 1]) == 0) by (nonlinear_arith)
                        requires
                            b2i(x[k - 1]) == 0,
                            t == coupling(q, i, k - 1),
                    ;
                }
            }
        }
    }
}

/// Range of the bound sums, for absence of overflow in the executable code.
pub proof fn lemma_d_sum_range(q: Seq<Seq<i64>>, fx: Seq<Option<bool>>, i: int, k: int, n: int, b: int)
    requires
        mat_wf(q, n, b),
        0 <= k <= n,
        0 <= i < n,
        b >= 0,
    ensures
        -(k * (2 * b)) <= d_sum_lo(q, fx, i, k) <= k * (2 * b),
        -(k * (2 * b)) <= d_sum_hi(q, fx, i, k) <= k * (2 * b),
    decreases k,
{
    if k > 0 {
        lemma_d_sum_range(q, fx, i, k - 1, n, b);
        let t = coupling(q, i, k - 1);
        assert(-(2 * b) <= t <= 2 * b);
        if k - 1 != i && fx[k - 1] is Some {
            assert(-(2 * b) <= t * b2i(fx[k - 1]->0) <= 2 * b) by (nonlinear_arith)
                requires
                    -(2 * b) <= t <= 2 * b,
                    b2i(fx[k - 1]->0) == 0 || b2i(fx[k - 1]->0) == 1,
            ;
        }
        assert((k - 1) * (2 * b) + 2 * b == k * (2 * b)) by (nonlinear_arith);
    }
}

/// Exact range of `flip_up_delta` for variable `i` over the completions of
/// the current fixing.
fn flip_bounds(p: &Qubo, fx: &Vec<Option<bool>>, i: usize) -> (r: (i64, i64))
    requires
        p.wf(),
        fx@.len() == p.n(),
        i < p.n(),
    ensures
        r.0 == d_min(p.qm(), p.cv(), fx@, i as int),
        r.1 == d_max(p.qm(), p.cv(), fx@, i as int),
{
    let n = p.c.len();
    let ghost qs = p.qm();
    let ghost cs = p.cv();
    let ghost fxs = fx@;
    let mut lo: i64 = 0;
    let mut hi: i64 = 0;
    let mut j: usize = 0;
    while j < n
        invariant
            p.wf(),
            qs == p.qm(),
            cs == p.cv(),
            fxs == fx@,
            fx@.len() == n,
            n == p.n(),
            i < n,
            0 <= j <= n,
            lo == d_sum_lo(qs, fxs, i as int, j as int),
            hi == d_sum_hi(qs, fxs, i as int, j as int),
            -(j as int * (2 * COEFF_LIMIT)) <= lo <= j as int * (2 * COEFF_LIMIT),
            -(j as int * (2 * COEFF_LIMIT)) <= hi <= j as int * (2 * COEFF_LIMIT),
        decreases n - j,
    {
        proof {
            assert(p.q@.len() == n);
            assert(qs[i as int] == p.q@[i as int]@);
            assert(qs[j as int] == p.q@[j as int]@);
            lemma_d_sum_range(qs, fxs, i as int, j as int + 1, n as int, COEFF_LIMIT as int);
            assert((j as int + 1) * (2 * COEFF_LIMIT) <= 4096 * (2 * COEFF_LIMIT))
                by (nonlinear_arith)
                requires
                    0 <= j as int + 1 <= 4096,
            ;
        }
        if j != i {
            let t: i64 = p.q[i][j] + p.q[j][i];
            match fx[j] {
                Some(v) => {
                    if v {
                        proof {
                            assert(coupling(qs, i as int, j as int) * b2i(fxs[j as int]->0)
                                == t) by (nonlinear_arith)
                                requires
                                    b2i(fxs[j as int]->0) == 1,
                                    coupling(qs, i as int, j as int) == t as int,
                            ;
                        }
                        lo = lo + t;
                        hi = hi + t;
                    } else {
                        proof {
                            assert(coupling(qs, i as int, j as int) * b2i(fxs[j as int]->0)
                                == 0) by (nonlinear_arith)
                                requires
                                    b2i(fxs[j as int]->0) == 0,
                            ;
                        }
                    }
                },
                None => {
                    if t < 0 {
                        lo = lo + t;
                    } else if t > 0 {
                        hi = hi + t;
                    }
                },
            }
        }
        j = j + 1;
    }
    proof {
        assert(p.q@.len() == n);
        assert(qs[i as int] == p.q@[i as int]@);
        assert(n as int * (2 * COEFF_LIMIT) <= 4096 * (2 * COEFF_LIMIT)) by (nonlinear_arith)
            requires
                0 <= n as int <= 4096,
        ;
    }
    let base: i64 = p.q[i][i] + p.c[i];
    (base + lo, base + hi)
}

/// One rule application at variable `i`: fix to 1 when the flip change is
/// negative on every completion, to 0 when it is positive on every
/// completion, otherwise leave the fixing unchanged.
pub open spec fn pass_step(
    q: Seq<Seq<i64>>,
    c: Seq<i64>,
    fx: Seq<Option<bool>>,
    i: int,
) -> Seq<Option<bool>> {
    if fx[i] is Some {
        fx
    } else if d_max(q, c, fx, i) < 0 {
        fx.update(i, Some(true))
    } else if d_min(q, c, fx, i) > 0 {
        fx.update(i, Some(false))
    } else {
        fx
    }
}

/// One pass: the rule applied at variables `0, 1, ..., k-1` in order, each
/// seeing the fixings made earlier in the same pass.
pub open spec fn pass_upto(
    q: Seq<Seq<i64>>,
    c: Seq<i64>,
    fx: Seq<Option<bool>>,
    k: int,
) -> Seq<Option<bool>>
    decreases k,
{
    if k <= 0 {
        fx
    } else {
        pass_step(q, c, pass_upto(q, c, fx, k - 1), k - 1)
    }
}

pub proof fn lemma_pass_upto_extends(q: Seq<Seq<i64>>, c: Seq<i64>, fx: Seq<Option<bool>>, k: int)
    requires
        0 <= k <= fx.len(),
    ensures
        extends(pass_upto(q, c, fx, k), fx),
        pass_upto(q, c, fx, k).len() == fx.len(),
    decreases k,
{
    if k > 0 {
        lemma_pass_upto_extends(q, c, fx, k - 1);
    }
}

/// A fully fixed assignment is a fixed point of the pass.
pub proof fn lemma_pass_upto_all_fixed(q: Seq<Seq<i64>>, c: Seq<i64>, fx: Seq<Option<bool>>, k: int)
    requires
        0 <= k <= fx.len(),
        forall|i: int| 0 <= i < fx.len() ==> (#[trigger] fx[i]) is Some,
    ensures
        pass_upto(q, c, fx, k) == fx,
    decreases k,
{
    if k > 0 {
        lemma_pass_upto_all_fixed(q, c, fx, k - 1);
    }
}

/// Runs one persistence pass in place; reports whether anything was fixed.
pub fn persistence_pass(p: &Qubo, fx: &mut Vec<Option<bool>>) -> (changed: bool)
    requires
        p.wf(),
        old(fx)@.len() == p.n(),
    ensures
        final(fx)@ == pass_upto(p.qm(), p.cv(), old(fx)@, p.n()),
        changed <==> final(fx)@ != old(fx)@,
        final(fx)@.len() == old(fx)@.len(),
{
    let n = p.c.len();
    let ghost qs = p.qm();
    let ghost cs = p.cv();
    let ghost fx0 = old(fx)@;
    let mut changed = false;
    let mut i: usize = 0;
    while i < n
        invariant
            p.wf(),
            qs == p.qm(),
            cs == p.cv(),
            n == p.n(),
            fx0.len() == n,
            0 <= i <= n,
            fx@ == pass_upto(qs, cs, fx0, i as int),
            changed <==> fx@ != fx0,
        decreases n - i,
    {
        proof {
            lemma_pass_upto_extends(qs, cs, fx0, i as int);
        }
        if fx[i].is_none() {
            let (lo, hi) = flip_bounds(p, fx, i);
            if hi < 0 {
                fx[i] = Some(true);
                proof {
                    assert(fx0[i as int] is None);
                    assert(fx@[i as int] != fx0[i as int]);
                    assert(fx@ != fx0);
                }
                changed = true;
            } else if lo > 0 {
                fx[i] = Some(false);
                proof {
                    assert(fx0[i as int] is None);
                    assert(fx@[i as int] != fx0[i as int]);
                    assert(fx@ != fx0);
                }
                changed = true;
            }
        }
        assert(fx@ == pass_upto(qs, cs, fx0, i as int + 1));
        i = i + 1;
    }
    proof {
        lemma_pass_upto_extends(qs, cs, fx0, n as int);
    }
    changed
}

/// Passes iterated until nothing changes, or until the pass budget runs
/// out; with a budget of at least `n` the result is always a fixed point.
pub open spec fn spec_persist(
    q: Seq<Seq<i64>>,
    c: Seq<i64>,
    fx: Seq<Option<bool>>,
    passes: int,
) -> Seq<Option<bool>>
    decreases passes,
{
    if passes <= 0 {
        fx
    } else {
        let f1 = pass_upto(q, c, fx, fx.len() as int);
        if f1 == fx {
            fx
        } else {
            spec_persist(q, c, f1, passes - 1)
        }
    }
}

pub proof fn lemma_spec_persist_extends(q: Seq<Seq<i64>>, c: Seq<i64>, fx: Seq<Option<bool>>, passes: int)
    ensures
        extends(spec_persist(q, c, fx, passes), fx),
        spec_persist(q, c, fx, passes).len() == fx.len(),
    decreases passes,
{
    if passes > 0 {
        let f1 = pass_upto(q, c, fx, fx.len() as int);
        lemma_pass_upto_extends(q, c, fx, fx.len() as int);
        if f1 != fx {
            lemma_spec_persist_extends(q, c, f1, passes - 1);
            lemma_extends_trans(spec_persist(q, c, f1, passes - 1), f1, fx);
        }
    }
}

/// A pass fixed point stays put under further persistence.
pub proof fn lemma_spec_persist_of_fixpoint(q: Seq<Seq<i64>>, c: Seq<i64>, fx: Seq<Option<bool>>, passes: int)
    requires
        pass_upto(q, c, fx, fx.len() as int) == fx,
    ensures
        spec_persist(q, c, fx, passes) == fx,
{
}

/// A changed pass fixes at least one more variable.
proof fn lemma_pass_changed_count(q: Seq<Seq<i64>>, c: Seq<i64>, fx: Seq<Option<bool>>)
    requires
        pass_upto(q, c, fx, fx.len() as int) != fx,
    ensures
        fix_count(pass_upto(q, c, fx, fx.len() as int), fx.len() as int) >= fix_count(
            fx,
            fx.len() as int,
        ) + 1,
{
    let n = fx.len() as int;
    let f1 = pass_upto(q, c, fx, n);
    lemma_pass_upto_extends(q, c, fx, n);
    assert(exists|i: int| 0 <= i < n && #[trigger] f1[i] != fx[i]) by {
        if forall|i: int| 0 <= i < n ==> #[trigger] f1[i] == fx[i] {
            assert(f1 =~= fx);
        }
    }
    let i = choose|i: int| 0 <= i < n && #[trigger] f1[i] != fx[i];
    assert(fx[i] is None);
    assert(f1[i] is Some);
    lemma_fix_count_strict(f1, fx, i, n);
}

/// With a pass budget of at least `n - |fixed|`, iterated persistence
/// reaches a pass fixed point.
pub proof fn lemma_persist_reaches_fixpoint(
    q: Seq<Seq<i64>>,
    c: Seq<i64>,
    fx: Seq<Option<bool>>,
    passes: int,
)
    requires
        passes >= fx.len() - fix_count(fx, fx.len() as int),
    ensures
        pass_upto(
            q,
            c,
            spec_persist(q, c, fx, passes),
            spec_persist(q, c, fx, passes).len() as int,
        ) == spec_persist(q, c, fx, passes),
    decreases passes,
{
    let n = fx.len() as int;
    lemma_fix_count_le(fx, n);
    if fix_count(fx, n) == n {
        lemma_count_full_all_fixed(fx, n);
        lemma_pass_upto_all_fixed(q, c, fx, n);
        lemma_spec_persist_of_fixpoint(q, c, fx, passes);
    } else {
        let f1 = pass_upto(q, c, fx, n);
        lemma_pass_upto_extends(q, c, fx, n);
        if f1 == fx {
            lemma_spec_persist_of_fixpoint(q, c, fx, passes);
        } else {
            lemma_pass_changed_count(q, c, fx);
            lemma_persist_reaches_fixpoint(q, c, f1, passes - 1);
        }
    }
}

/// Persistence is idempotent: a second run, with any budget, returns its
/// input unchanged whenever the first budget was at least `n`.
pub proof fn lemma_persistence_idempotent(
    q: Seq<Seq<i64>>,
    c: Seq<i64>,
    fx: Seq<Option<bool>>,
    first_budget: int,
    second_budget: int,
)
    requires
        first_budget >= fx.len(),
    ensures
        spec_persist(q, c, spec_persist(q, c, fx, first_budget), second_budget) == spec_persist(
            q,
            c,
            fx,
            first_budget,
        ),
{
    lemma_fix_count_le(fx, fx.len() as int);
    lemma_persist_reaches_fixpoint(q, c, fx, first_budget);
    lemma_spec_persist_of_fixpoint(q, c, spec_persist(q, c, fx, first_budget), second_budget);
}

/// Extends the fixing by iterated persistence.  The result is exactly
/// `spec_persist` of the input, so two equal calls agree, and with
/// `max_passes >= n` the result is a pass fixed point.
pub fn compute_iterative_persistence(
    p: &Qubo,
    fixing: &Vec<Option<bool>>,
    max_passes: usize,
) -> (r: Vec<Option<bool>>)
    requires
        p.wf(),
        fixing@.len() == p.n(),
    ensures
        r@ == spec_persist(p.qm(), p.cv(), fixing@, max_passes as int),
        extends(r@, fixing@),
        r@.len() == fixing@.len(),
{
    let ghost qs = p.qm();
    let ghost cs = p.cv();
    let ghost fx0 = fixing@;
    let n = p.c.len();
    let mut cur: Vec<Option<bool>> = Vec::new();
    let mut i: usize = 0;
    while i < n
        invariant
            fixing@.len() == n,
            0 <= i <= n,
            cur@.len() == i,
            forall|j: int| 0 <= j < i ==> #[trigger] cur@[j] == fixing@[j],
        decreases n - i,
    {
        cur.push(fixing[i]);
        i = i + 1;
    }
    proof {
        assert(cur@ =~= fx0);
    }
    let mut done: usize = 0;
    let mut stop = false;
    while done < max_passes && !stop
        invariant
            p.wf(),
            qs == p.qm(),
            cs == p.cv(),
            n == p.n(),
            fx0.len() == n,
            cur@.len() == n,
            0 <= done <= max_passes,
            extends(cur@, fx0),
            spec_persist(qs, cs, fx0, max_passes as int) == spec_persist(
                qs,
                cs,
                cur@,
                max_passes - done,
            ),
            stop ==> pass_upto(qs, cs, cur@, n as int) == cur@,
        decreases max_passes - done,
    {
        let ghost before = cur@;
        let changed = persistence_pass(p, &mut cur);
        proof {
            lemma_pass_upto_extends(qs, cs, before, n as int);
            lemma_extends_trans(cur@, before, fx0);
        }
        done = done + 1;
        if !changed {
            stop = true;
            proof {
                lemma_spec_persist_of_fixpoint(qs, cs, cur@, max_passes - done);
            }
        }
    }
    proof {
        if stop {
            lemma_spec_persist_of_fixpoint(qs, cs, cur@, max_passes - done);
        }
    }
    cur
}

/// One rule application preserves the reachable minimum: every completion
/// of the old fixing is matched by a completion of the new fixing whose
/// objective is no worse.
proof fn lemma_pass_step_preserves_min(
    q: Seq<Seq<i64>>,
    c: Seq<i64>,
    fx: Seq<Option<bool>>,
    i: int,
    x: Seq<bool>,
)
    requires
        consistent(x, fx),
        q.len() == fx.len(),
        0 <= i < fx.len(),
    ensures
        exists|y: Seq<bool>|
            #[trigger] consistent(y, pass_step(q, c, fx, i)) && f_of(q, c, y) <= f_of(q, c, x),
{
    let fx2 = pass_step(q, c, fx, i);
    if fx[i] is Some {
        assert(consistent(x, fx2) && f_of(q, c, x) <= f_of(q, c, x));
    } else if d_max(q, c, fx, i) < 0 {
        if x[i] {
            assert(consistent(x, fx2) && f_of(q, c, x) <= f_of(q, c, x));
        } else {
            let y = x.update(i, true);
            lemma_flip_up(q, c, x, i);
            lemma_d_sum_bounds(q, x, fx, i, q.len() as int);
            assert(x.update(i, false) =~= x);
            assert(flip_up_delta(q, c, x, i) <= d_max(q, c, fx, i));
            assert(f_of(q, c, y) <= f_of(q, c, x));
            assert(consistent(y, fx2));
        }
    } else if d_min(q, c, fx, i) > 0 {
        if !x[i] {
            assert(consistent(x, fx2) && f_of(q, c, x) <= f_of(q, c, x));
        } else {
            let y = x.update(i, false);
            lemma_flip_up(q, c, x, i);
            lemma_d_sum_bounds(q, x, fx, i, q.len() as int);
            assert(x.update(i, true) =~= x);
            assert(flip_up_delta(q, c, x, i) >= d_min(q, c, fx, i));
            assert(f_of(q, c, y) <= f_of(q, c, x));
            assert(consistent(y, fx2));
        }
    } else {
        assert(consistent(x, fx2) && f_of(q, c, x) <= f_of(q, c, x));
    }
}

proof fn lemma_pass_upto_preserves_min(
    q: Seq<Seq<i64>>,
    c: Seq<i64>,
    fx: Seq<Option<bool>>,
    k: int,
    x: Seq<bool>,
)
    requires
        consistent(x, fx),
        q.len() == fx.len(),
        0 <= k <= fx.len(),
    ensures
        exists|y: Seq<bool>|
            #[trigger] consistent(y, pass_upto(q, c, fx, k)) && f_of(q, c, y) <= f_of(q, c, x),
    decreases k,
{
    if k == 0 {
        assert(consistent(x, pass_upto(q, c, fx, 0)) && f_of(q, c, x) <= f_of(q, c, x));
    } else {
        lemma_pass_upto_preserves_min(q, c, fx, k - 1, x);
        let prev = pass_upto(q, c, fx, k - 1);
        let y1 = choose|y: Seq<bool>|
            #[trigger] consistent(y, prev) && f_of(q, c, y) <= f_of(q, c, x);
        lemma_pass_upto_extends(q, c, fx, k - 1);
        lemma_pass_step_preserves_min(q, c, prev, k - 1, y1);
        let y2 = choose|y: Seq<bool>|
            #[trigger] consistent(y, pass_step(q, c, prev, k - 1)) && f_of(q, c, y) <= f_of(
                q,
                c,
                y1,
            );
        assert(consistent(y2, pass_upto(q, c, fx, k)) && f_of(q, c, y2) <= f_of(q, c, x));
    }
}

/// Iterated persistence preserves the reachable minimum: for every
/// completion of the input fixing there is a completion of the output
/// fixing whose objective is no worse.
pub proof fn lemma_persist_preserves_min(
    q: Seq<Seq<i64>>,
    c: Seq<i64>,
    fx: Seq<Option<bool>>,
    passes: int,
    x: Seq<bool>,
)
    requires
        consistent(x, fx),
        q.len() == fx.len(),
    ensures
        exists|y: Seq<bool>|
            #[trigger] consistent(y, spec_persist(q, c, fx, passes)) && f_of(q, c, y) <= f_of(
                q,
                c,
                x,
            ),
    decreases passes,
{
    if passes <= 0 {
        assert(consistent(x, spec_persist(q, c, fx, passes)) && f_of(q, c, x) <= f_of(q, c, x));
    } else {
        let f1 = pass_upto(q, c, fx, fx.len() as int);
        if f1 == fx {
            assert(consistent(x, spec_persist(q, c, fx, passes)) && f_of(q, c, x) <= f_of(
                q,
                c,
                x,
            ));
        } else {
            lemma_pass_upto_preserves_min(q, c, fx, fx.len() as int, x);
            let y1 = choose|y: Seq<bool>|
                #[trigger] consistent(y, f1) && f_of(q, c, y) <= f_of(q, c, x);
            lemma_pass_upto_extends(q, c, fx, fx.len() as int);
            lemma_persist_preserves_min(q, c, f1, passes - 1, y1);
            let y2 = choose|y: Seq<bool>|
                #[trigger] consistent(y, spec_persist(q, c, f1, passes - 1)) && f_of(q, c, y)
                    <= f_of(q, c, y1);
            assert(consistent(y2, spec_persist(q, c, fx, passes)) && f_of(q, c, y2) <= f_of(
                q,
                c,
                x,
            ));
        }
    }
}

} // verus!
