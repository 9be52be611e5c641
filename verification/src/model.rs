//! Mathematical model of the QUBO objective.
//!
//! A problem over `n` binary variables is given by an `n x n` integer
//! coefficient matrix `q` and a dense linear term `c`; the objective on a
//! 0/1 point `x` is `f(x) = x^T q x + c^T x`.  All definitions here are
//! ghost: they are the vocabulary that the executable code's contracts are
//! stated in.

use vstd::prelude::*;

verus! {

/// A 0/1 variable as an integer.
pub open spec fn b2i(b: bool) -> int {
    if b {
        1
    } else {
        0
    }
}

/// Dot product of the first `k` entries of a coefficient row with `x`.
pub open spec fn row_dot(r: Seq<i64>, x: Seq<bool>, k: int) -> int
    decreases k,
{
    if k <= 0 {
        0
    } else {
        row_dot(r, x, k - 1) + r[k - 1] * b2i(x[k - 1])
    }
}

/// Quadratic form over the first `a` rows: sum of `x_i * (q_i . x)`,
/// each row taken over the full width `w`.
pub open spec fn quad_upto(q: Seq<Seq<i64>>, x: Seq<bool>, a: int, w: int) -> int
    decreases a,
{
    if a <= 0 {
        0
    } else {
        quad_upto(q, x, a - 1, w) + b2i(x[a - 1]) * row_dot(q[a - 1], x, w)
    }
}

/// The objective `x^T q x + c^T x` on a 0/1 point.
pub open spec fn f_of(q: Seq<Seq<i64>>, c: Seq<i64>, x: Seq<bool>) -> int {
    quad_upto(q, x, x.len() as int, x.len() as int) + row_dot(c, x, x.len() as int)
}

/// Dot product of column `i` of `q` with `x`, over the first `rows` rows.
pub open spec fn col_dot(q: Seq<Seq<i64>>, x: Seq<bool>, i: int, rows: int) -> int
    decreases rows,
{
    if rows <= 0 {
        0
    } else {
        col_dot(q, x, i, rows - 1) + q[rows - 1][i] * b2i(x[rows - 1])
    }
}

/// Sum of `x_i * (column i . x)` over the first `a` columns, rows over `rows`.
pub open spec fn colsum_upto(q: Seq<Seq<i64>>, x: Seq<bool>, a: int, rows: int) -> int
    decreases a,
{
    if a <= 0 {
        0
    } else {
        colsum_upto(q, x, a - 1, rows) + b2i(x[a - 1]) * col_dot(q, x, a - 1, rows)
    }
}

/// The coupling term of variable `i` against the first `k` other variables:
/// sum over `j < k, j != i` of `(q[i][j] + q[j][i]) * x_j`.
pub open spec fn d_sum(q: Seq<Seq<i64>>, x: Seq<bool>, i: int, k: int) -> int
    decreases k,
{
    if k <= 0 {
        0
    } else if k - 1 == i {
        d_sum(q, x, i, k - 1)
    } else {
        d_sum(q, x, i, k - 1) + (q[i][k - 1] + q[k - 1][i]) * b2i(x[k - 1])
    }
}

/// The exact change of `f` when variable `i` is raised from 0 to 1 while the
/// rest of `x` is held: `f(x[i:=1]) - f(x[i:=0])`.
pub open spec fn flip_up_delta(q: Seq<Seq<i64>>, c: Seq<i64>, x: Seq<bool>, i: int) -> int {
    q[i][i] + c[i] + d_sum(q, x, i, q.len() as int)
}

/// Well-formed square coefficient matrix with entries bounded by `bound`.
pub open spec fn mat_wf(q: Seq<Seq<i64>>, n: int, bound: int) -> bool {
    &&& q.len() == n
    &&& forall|i: int| 0 <= i < n ==> (#[trigger] q[i]).len() == n
    &&& forall|i: int, j: int|
        0 <= i < n && 0 <= j < n ==> -bound <= #[trigger] q[i][j] <= bound
}

/// Well-formed coefficient vector with entries bounded by `bound`.
pub open spec fn vec_wf(c: Seq<i64>, n: int, bound: int) -> bool {
    &&& c.len() == n
    &&& forall|i: int| 0 <= i < n ==> -bound <= #[trigger] c[i] <= bound
}

pub proof fn lemma_row_dot_bound(r: Seq<i64>, x: Seq<bool>, k: int, b: int)
    requires
        0 <= k <= r.len(),
        k <= x.len(),
        forall|j: int| 0 <= j < k ==> -b <= #[trigger] r[j] <= b,
        b >= 0,
    ensures
        -(k * b) <= row_dot(r, x, k) <= k * b,
    decreases k,
{
    if k > 0 {
        lemma_row_dot_bound(r, x, k - 1, b);
        assert((k - 1) * b + b == k * b) by (nonlinear_arith);
        assert(r[k - 1] * b2i(x[k - 1]) <= b) by (nonlinear_arith)
            requires
                -b <= r[k - 1] <= b,
                b2i(x[k - 1]) == 0 || b2i(x[k - 1]) == 1,
        ;
        assert(-b <= r[k - 1] * b2i(x[k - 1])) by (nonlinear_arith)
            requires
                -b <= r[k - 1] <= b,
                b2i(x[k - 1]) == 0 || b2i(x[k - 1]) == 1,
        ;
    }
}

pub proof fn lemma_quad_bound(q: Seq<Seq<i64>>, x: Seq<bool>, a: int, n: int, b: int)
    requires
        mat_wf(q, n, b),
        x.len() == n,
        0 <= a <= n,
        b >= 0,
    ensures
        -(a * (n * b)) <= quad_upto(q, x, a, n) <= a * (n * b),
    decreases a,
{
    if a > 0 {
        lemma_quad_bound(q, x, a - 1, n, b);
        lemma_row_dot_bound(q[a - 1], x, n, b);
        assert((a - 1) * (n * b) + n * b == a * (n * b)) by (nonlinear_arith);
        let t = b2i(x[a - 1]) * row_dot(q[a - 1], x, n);
        assert(-(n * b) <= t <= n * b) by (nonlinear_arith)
            requires
                -(n * b) <= row_dot(q[a - 1], x, n) <= n * b,
                b2i(x[a - 1]) == 0 || b2i(x[a - 1]) == 1,
                t == b2i(x[a - 1]) * row_dot(q[a - 1], x, n),
        ;
    }
}

/// On the all-false point every sum is zero.
pub proof fn lemma_row_dot_zero(r: Seq<i64>, x: Seq<bool>, k: int)
    requires
        forall|j: int| 0 <= j < k ==> !(#[trigger] x[j]),
    ensures
        row_dot(r, x, k) == 0,
    decreases k,
{
    if k > 0 {
        lemma_row_dot_zero(r, x, k - 1);
    }
}

pub proof fn lemma_quad_zero(q: Seq<Seq<i64>>, x: Seq<bool>, a: int, w: int)
    requires
        forall|j: int| 0 <= j < a ==> !(#[trigger] x[j]),
    ensures
        quad_upto(q, x, a, w) == 0,
    decreases a,
{
    if a > 0 {
        lemma_quad_zero(q, x, a - 1, w);
    }
}

/// `f` of the all-false point is zero.
pub proof fn lemma_f_zero(q: Seq<Seq<i64>>, c: Seq<i64>, x: Seq<bool>)
    requires
        forall|j: int| 0 <= j < x.len() ==> !(#[trigger] x[j]),
    ensures
        f_of(q, c, x) == 0,
{
    lemma_quad_zero(q, x, x.len() as int, x.len() as int);
    lemma_row_dot_zero(c, x, x.len() as int);
}

/// Row dot product with index `i` left out.
pub open spec fn row_dot_skip(r: Seq<i64>, x: Seq<bool>, i: int, k: int) -> int
    decreases k,
{
    if k <= 0 {
        0
    } else if k - 1 == i {
        row_dot_skip(r, x, i, k - 1)
    } else {
        row_dot_skip(r, x, i, k - 1) + r[k - 1] * b2i(x[k - 1])
    }
}

/// Column dot product with row `i` left out.
pub open spec fn col_dot_skip(q: Seq<Seq<i64>>, x: Seq<bool>, i: int, k: int) -> int
    decreases k,
{
    if k <= 0 {
        0
    } else if k - 1 == i {
        col_dot_skip(q, x, i, k - 1)
    } else {
        col_dot_skip(q, x, i, k - 1) + q[k - 1][i] * b2i(x[k - 1])
    }
}

/// Changing `x` at one index shifts a row dot product by that entry's term.
pub proof fn lemma_row_dot_update_x(r: Seq<i64>, x: Seq<bool>, i: int, b: bool, k: int)
    requires
        0 <= i < x.len(),
        k <= x.len(),
    ensures
        row_dot(r, x.update(i, b), k) == row_dot(r, x, k) + if 0 <= i < k {
            r[i] * (b2i(b) - b2i(x[i]))
        } else {
            0
        },
    decreases k,
{
    if k > 0 {
        lemma_row_dot_update_x(r, x, i, b, k - 1);
        if k - 1 == i {
            assert(r[i] * b2i(b) - r[i] * b2i(x[i]) == r[i] * (b2i(b) - b2i(x[i])))
                by (nonlinear_arith);
        }
    }
}

/// A skipped sum does not see an update at the skipped index.
pub proof fn lemma_row_dot_skip_update(r: Seq<i64>, x: Seq<bool>, i: int, b: bool, k: int)
    requires
        0 <= i < x.len(),
        k <= x.len(),
    ensures
        row_dot_skip(r, x.update(i, b), i, k) == row_dot_skip(r, x, i, k),
    decreases k,
{
    if k > 0 {
        lemma_row_dot_skip_update(r, x, i, b, k - 1);
    }
}

pub proof fn lemma_col_dot_skip_update(q: Seq<Seq<i64>>, x: Seq<bool>, i: int, b: bool, k: int)
    requires
        0 <= i < x.len(),
        k <= x.len(),
    ensures
        col_dot_skip(q, x.update(i, b), i, k) == col_dot_skip(q, x, i, k),
    decreases k,
{
    if k > 0 {
        lemma_col_dot_skip_update(q, x, i, b, k - 1);
    }
}

pub proof fn lemma_d_sum_update(q: Seq<Seq<i64>>, x: Seq<bool>, i: int, b: bool, k: int)
    requires
        0 <= i < x.len(),
        k <= x.len(),
    ensures
        d_sum(q, x.update(i, b), i, k) == d_sum(q, x, i, k),
    decreases k,
{
    if k > 0 {
        lemma_d_sum_update(q, x, i, b, k - 1);
    }
}

/// When `x[i]` is false, skipping index `i` changes nothing.
pub proof fn lemma_row_dot_skip_eq(r: Seq<i64>, x: Seq<bool>, i: int, k: int)
    requires
        0 <= i < x.len(),
        !x[i],
    ensures
        row_dot(r, x, k) == row_dot_skip(r, x, i, k),
    decreases k,
{
    if k > 0 {
        lemma_row_dot_skip_eq(r, x, i, k - 1);
    }
}

/// The coupling sum splits into a row part and a column part.
pub proof fn lemma_d_sum_split(q: Seq<Seq<i64>>, x: Seq<bool>, i: int, k: int)
    ensures
        d_sum(q, x, i, k) == row_dot_skip(q[i], x, i, k) + col_dot_skip(q, x, i, k),
    decreases k,
{
    if k > 0 {
        lemma_d_sum_split(q, x, i, k - 1);
        if k - 1 != i {
            assert((q[i][k - 1] + q[k - 1][i]) * b2i(x[k - 1]) == q[i][k - 1] * b2i(x[k - 1])
                + q[k - 1][i] * b2i(x[k - 1])) by (nonlinear_arith);
        }
    }
}

/// The quadratic form's change under raising `x[i]` from 0 to 1.
proof fn lemma_quad_flip(q: Seq<Seq<i64>>, x0: Seq<bool>, x1: Seq<bool>, i: int, a: int, n: int)
    requires
        0 <= i < n,
        x0.len() == n,
        x1 == x0.update(i, true),
        !x0[i],
        0 <= a <= n,
    ensures
        quad_upto(q, x1, a, n) == quad_upto(q, x0, a, n) + col_dot_skip(q, x0, i, a) + if i < a {
            row_dot(q[i], x1, n)
        } else {
            0
        },
    decreases a,
{
    if a > 0 {
        lemma_quad_flip(q, x0, x1, i, a - 1, n);
        if a - 1 == i {
            assert(b2i(x1[a - 1]) == 1);
        } else {
            lemma_row_dot_update_x(q[a - 1], x0, i, true, n);
            assert(q[a - 1][i] * (b2i(true) - b2i(x0[i])) == q[a - 1][i]) by (nonlinear_arith)
                requires
                    b2i(true) - b2i(x0[i]) == 1,
            ;
            assert(row_dot(q[a - 1], x1, n) == row_dot(q[a - 1], x0, n) + q[a - 1][i]);
            assert(x1[a - 1] == x0[a - 1]);
            let s = b2i(x0[a - 1]);
            assert(s * (row_dot(q[a - 1], x0, n) + q[a - 1][i]) == s * row_dot(q[a - 1], x0, n)
                + s * q[a - 1][i]) by (nonlinear_arith);
            assert(s * q[a - 1][i] == q[a - 1][i] * s) by (nonlinear_arith);
        }
    }
}

/// The exact flip identity: raising variable `i` from 0 to 1 changes `f` by
/// `q[i][i] + c[i]` plus the coupling of `i` with the set variables.
pub proof fn lemma_flip_up(q: Seq<Seq<i64>>, c: Seq<i64>, x: Seq<bool>, i: int)
    requires
        q.len() == x.len(),
        0 <= i < x.len(),
    ensures
        f_of(q, c, x.update(i, true)) == f_of(q, c, x.update(i, false)) + flip_up_delta(
            q,
            c,
            x,
            i,
        ),
{
    let n = x.len() as int;
    let x0 = x.update(i, false);
    let x1 = x.update(i, true);
    assert(x1 =~= x0.update(i, true));
    lemma_quad_flip(q, x0, x1, i, n, n);
    lemma_row_dot_update_x(c, x0, i, true, n);
    assert(b2i(true) - b2i(x0[i]) == 1);
    assert(c[i] * (b2i(true) - b2i(x0[i])) == c[i]) by (nonlinear_arith)
        requires
            b2i(true) - b2i(x0[i]) == 1,
    ;
    assert(row_dot(c, x1, n) == row_dot(c, x0, n) + c[i]);
    lemma_row_dot_update_x(q[i], x0, i, true, n);
    assert(q[i][i] * (b2i(true) - b2i(x0[i])) == q[i][i]) by (nonlinear_arith)
        requires
            b2i(true) - b2i(x0[i]) == 1,
    ;
    assert(row_dot(q[i], x1, n) == row_dot(q[i], x0, n) + q[i][i]);
    lemma_row_dot_skip_eq(q[i], x0, i, n);
    lemma_d_sum_split(q, x0, i, n);
    lemma_d_sum_update(q, x, i, false, n);
    lemma_col_dot_skip_update(q, x, i, false, n);
    lemma_row_dot_skip_update(q[i], x, i, false, n);
    lemma_d_sum_split(q, x, i, n);
}

/// One more row of `q` enters every column sum at once.
proof fn lemma_colsum_peel(q: Seq<Seq<i64>>, x: Seq<bool>, a: int, r: int)
    requires
        0 <= r,
    ensures
        colsum_upto(q, x, a, r + 1) == colsum_upto(q, x, a, r) + b2i(x[r]) * row_dot(q[r], x, a),
    decreases a,
{
    if a > 0 {
        lemma_colsum_peel(q, x, a - 1, r);
        let xa = b2i(x[a - 1]);
        let xr = b2i(x[r]);
        assert(xa * (col_dot(q, x, a - 1, r) + q[r][a - 1] * xr) == xa * col_dot(q, x, a - 1, r)
            + xr * (q[r][a - 1] * xa)) by (nonlinear_arith);
    }
}

proof fn lemma_colsum_zero(q: Seq<Seq<i64>>, x: Seq<bool>, a: int)
    ensures
        colsum_upto(q, x, a, 0) == 0,
    decreases a,
{
    if a > 0 {
        lemma_colsum_zero(q, x, a - 1);
        assert(b2i(x[a - 1]) * col_dot(q, x, a - 1, 0) == 0) by (nonlinear_arith);
    }
}

/// Exchanging the order of summation: summing columns against `x` equals
/// summing rows against `x`.
pub proof fn lemma_exchange(q: Seq<Seq<i64>>, x: Seq<bool>, a: int, r: int)
    requires
        0 <= r,
    ensures
        colsum_upto(q, x, a, r) == quad_upto(q, x, r, a),
    decreases r,
{
    if r == 0 {
        lemma_colsum_zero(q, x, a);
    } else {
        lemma_exchange(q, x, a, r - 1);
        lemma_colsum_peel(q, x, a, r - 1);
    }
}

/// Number of set variables among the first `k`.
pub open spec fn cnt(x: Seq<bool>, k: int) -> int
    decreases k,
{
    if k <= 0 {
        0
    } else {
        cnt(x, k - 1) + b2i(x[k - 1])
    }
}

/// A row whose entries are each the half of `q`'s row-column sums produces
/// half of the row-plus-column dot product.
proof fn lemma_half_sum_row(q: Seq<Seq<i64>>, r: Seq<i64>, x: Seq<bool>, i: int, k: int)
    requires
        forall|j: int| 0 <= j < k ==> 2 * #[trigger] r[j] == q[i][j] + q[j][i],
        0 <= k,
    ensures
        2 * row_dot(r, x, k) == row_dot(q[i], x, k) + col_dot(q, x, i, k),
    decreases k,
{
    if k > 0 {
        lemma_half_sum_row(q, r, x, i, k - 1);
        let xk = b2i(x[k - 1]);
        assert(2 * (r[k - 1] * xk) == (2 * r[k - 1]) * xk) by (nonlinear_arith);
        assert((q[i][k - 1] + q[k - 1][i]) * xk == q[i][k - 1] * xk + q[k - 1][i] * xk)
            by (nonlinear_arith);
    }
}

proof fn lemma_half_sum_quad(q: Seq<Seq<i64>>, s: Seq<Seq<i64>>, x: Seq<bool>, a: int, n: int)
    requires
        0 <= a <= n,
        s.len() >= a,
        forall|i: int, j: int|
            0 <= i < n && 0 <= j < n ==> 2 * #[trigger] s[i][j] == q[i][j] + q[j][i],
    ensures
        2 * quad_upto(s, x, a, n) == quad_upto(q, x, a, n) + colsum_upto(q, x, a, n),
    decreases a,
{
    if a > 0 {
        lemma_half_sum_quad(q, s, x, a - 1, n);
        lemma_half_sum_row(q, s[a - 1], x, a - 1, n);
        let xa = b2i(x[a - 1]);
        assert(2 * (xa * row_dot(s[a - 1], x, n)) == xa * (2 * row_dot(s[a - 1], x, n)))
            by (nonlinear_arith);
        assert(xa * (row_dot(q[a - 1], x, n) + col_dot(q, x, a - 1, n)) == xa * row_dot(
            q[a - 1],
            x,
            n,
        ) + xa * col_dot(q, x, a - 1, n)) by (nonlinear_arith);
    }
}

/// Symmetrization preserves the objective: if `2*s[i][j] == q[i][j] + q[j][i]`
/// for all entries, then `f` under `s` agrees with `f` under `q` everywhere.
pub proof fn lemma_symmetrize_preserves_f(
    q: Seq<Seq<i64>>,
    s: Seq<Seq<i64>>,
    c: Seq<i64>,
    x: Seq<bool>,
)
    requires
        s.len() >= x.len(),
        forall|i: int, j: int|
            0 <= i < x.len() && 0 <= j < x.len() ==> 2 * #[trigger] s[i][j] == q[i][j] + q[j][i],
    ensures
        f_of(s, c, x) == f_of(q, c, x),
{
    let n = x.len() as int;
    lemma_half_sum_quad(q, s, x, n, n);
    lemma_exchange(q, x, n, n);
}

/// Shifting every entry of the linear term down by `h` lowers its dot
/// product by `h` per set variable.
proof fn lemma_row_dot_shift_all(c: Seq<i64>, c2: Seq<i64>, x: Seq<bool>, h: int, k: int)
    requires
        forall|j: int| 0 <= j < k ==> #[trigger] c2[j] == c[j] - h,
        0 <= k,
    ensures
        row_dot(c2, x, k) == row_dot(c, x, k) - h * cnt(x, k),
    decreases k,
{
    if k > 0 {
        lemma_row_dot_shift_all(c, c2, x, h, k - 1);
        let xk = b2i(x[k - 1]);
        assert((c[k - 1] - h) * xk == c[k - 1] * xk - h * xk) by (nonlinear_arith);
        assert(h * (cnt(x, k - 1) + xk) == h * cnt(x, k - 1) + h * xk) by (nonlinear_arith);
    }
}

/// Changing one entry of a row shifts its dot product by the delta times
/// that variable.
proof fn lemma_row_dot_update_entry(r: Seq<i64>, x: Seq<bool>, i: int, v: i64, k: int)
    requires
        0 <= i < r.len(),
        k <= r.len(),
    ensures
        row_dot(r.update(i, v), x, k) == row_dot(r, x, k) + if 0 <= i < k {
            (v - r[i]) * b2i(x[i])
        } else {
            0
        },
    decreases k,
{
    if k > 0 {
        lemma_row_dot_update_entry(r, x, i, v, k - 1);
        if k - 1 == i {
            assert(v * b2i(x[i]) - r[i] * b2i(x[i]) == (v - r[i]) * b2i(x[i]))
                by (nonlinear_arith);
        }
    }
}

proof fn lemma_quad_diag_shift(q: Seq<Seq<i64>>, q2: Seq<Seq<i64>>, x: Seq<bool>, h: int, a: int, n: int)
    requires
        0 <= a <= n,
        n == x.len(),
        forall|i: int| 0 <= i < n ==> (#[trigger] q[i]).len() == n,
        forall|i: int|
            0 <= i < n ==> #[trigger] q2[i] == q[i].update(i, (q[i][i] + h) as i64),
        forall|i: int| 0 <= i < n ==> q[i][i] + h == (q[i][i] + h) as i64,
    ensures
        quad_upto(q2, x, a, n) == quad_upto(q, x, a, n) + h * cnt(x, a),
    decreases a,
{
    if a > 0 {
        lemma_quad_diag_shift(q, q2, x, h, a - 1, n);
        lemma_row_dot_update_entry(q[a - 1], x, a - 1, (q[a - 1][a - 1] + h) as i64, n);
        let xa = b2i(x[a - 1]);
        assert(row_dot(q2[a - 1], x, n) == row_dot(q[a - 1], x, n) + h * xa);
        assert(xa * (row_dot(q[a - 1], x, n) + h * xa) == xa * row_dot(q[a - 1], x, n) + h * (xa
            * xa)) by (nonlinear_arith);
        assert(xa * xa == xa) by (nonlinear_arith)
            requires
                xa == 0 || xa == 1,
        ;
        assert(h * (cnt(x, a - 1) + xa) == h * cnt(x, a - 1) + h * xa) by (nonlinear_arith);
    }
}

/// The diagonal-shift transform preserves the objective on 0/1 points:
/// adding `h` to each diagonal entry and subtracting `h` from each linear
/// coefficient leaves `f` unchanged, because `x_i * x_i == x_i`.
pub proof fn lemma_diag_shift_preserves_f(
    q: Seq<Seq<i64>>,
    q2: Seq<Seq<i64>>,
    c: Seq<i64>,
    c2: Seq<i64>,
    x: Seq<bool>,
    h: int,
)
    requires
        forall|i: int| 0 <= i < x.len() ==> (#[trigger] q[i]).len() == x.len(),
        forall|i: int|
            0 <= i < x.len() ==> #[trigger] q2[i] == q[i].update(i, (q[i][i] + h) as i64),
        forall|i: int| 0 <= i < x.len() ==> q[i][i] + h == (q[i][i] + h) as i64,
        forall|j: int| 0 <= j < x.len() ==> #[trigger] c2[j] == c[j] - h,
    ensures
        f_of(q2, c2, x) == f_of(q, c, x),
{
    let n = x.len() as int;
    lemma_quad_diag_shift(q, q2, x, h, n, n);
    lemma_row_dot_shift_all(c, c2, x, h, n);
}

} // verus!
