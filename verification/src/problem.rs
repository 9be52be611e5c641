//! The QUBO problem type: a dense square integer coefficient matrix, a
//! dense linear term, exact evaluation, symmetrization and diagonal
//! convexification.

use vstd::prelude::*;

use crate::model::{b2i, f_of, mat_wf, vec_wf, quad_upto, row_dot, lemma_quad_bound,
    lemma_row_dot_bound, lemma_symmetrize_preserves_f, lemma_diag_shift_preserves_f};

verus! {

/// Largest magnitude a coefficient may have after preprocessing.
pub const COEFF_LIMIT: i64 = 1_000_000_000;

/// Largest magnitude a coefficient may have at construction; the headroom
/// up to `COEFF_LIMIT` absorbs the diagonal convexification shift.
pub const INPUT_LIMIT: i64 = 100_000;

/// Largest accepted number of variables.
pub const MAX_VARS: usize = 4096;

/// Why a problem was rejected at construction or preprocessing.
#[derive(Clone, Copy, Debug, PartialEq, Eq, Structural)]
pub enum QuboError {
    /// The problem has no variables.
    EmptyProblem,
    /// More variables than `MAX_VARS`.
    TooManyVariables,
    /// The three triplet vectors do not have one length, or `c` is not `n` long.
    LengthMismatch,
    /// A triplet names a row or column at or beyond `n`.
    IndexOutOfRange,
    /// A coefficient magnitude exceeds `INPUT_LIMIT`.
    CoefficientTooLarge,
    /// Two triplets name the same entry.
    DuplicateEntry,
    /// Some `q[i][j] + q[j][i]` is odd, so the symmetric half-sum matrix
    /// cannot be represented in integers.
    OddCoupling,
}

/// A QUBO instance: minimize `x^T q x + c^T x` over 0/1 vectors `x`.
#[derive(Debug)]
pub struct Qubo {
    pub q: Vec<Vec<i64>>,
    pub c: Vec<i64>,
}

/// Sum of the values of the first `m` triplets that name entry `(a, b)`.
pub open spec fn trip_val(
    is: Seq<usize>,
    js: Seq<usize>,
    vs: Seq<i64>,
    m: int,
    a: int,
    b: int,
) -> int
    decreases m,
{
    if m <= 0 {
        0
    } else if is[m - 1] == a && js[m - 1] == b {
        trip_val(is, js, vs, m - 1, a, b) + vs[m - 1]
    } else {
        trip_val(is, js, vs, m - 1, a, b)
    }
}

/// The triplet form is acceptable: consistent lengths, a positive and
/// bounded variable count, indices in range, bounded coefficients, and no
/// entry named twice.
pub open spec fn triplets_ok(
    is: Seq<usize>,
    js: Seq<usize>,
    vs: Seq<i64>,
    c: Seq<i64>,
    n: int,
) -> bool {
    &&& is.len() == js.len() && js.len() == vs.len()
    &&& c.len() == n
    &&& 1 <= n <= MAX_VARS as int
    &&& forall|k: int| 0 <= k < is.len() ==> (#[trigger] is[k]) < n
    &&& forall|k: int| 0 <= k < js.len() ==> (#[trigger] js[k]) < n
    &&& forall|k: int|
        0 <= k < vs.len() ==> -(INPUT_LIMIT as int) <= #[trigger] vs[k] <= INPUT_LIMIT as int
    &&& forall|i: int|
        0 <= i < c.len() ==> -(INPUT_LIMIT as int) <= #[trigger] c[i] <= INPUT_LIMIT as int
    &&& forall|k1: int, k2: int|
        0 <= k1 < k2 < is.len() ==> !((#[trigger] is[k1]) == (#[trigger] is[k2]) && js[k1]
            == js[k2])
}

/// The rejection a malformed triplet form earns, checks in this order.
pub open spec fn construction_error(
    is: Seq<usize>,
    js: Seq<usize>,
    vs: Seq<i64>,
    c: Seq<i64>,
    n: int,
) -> QuboError {
    if !(is.len() == js.len() && js.len() == vs.len() && c.len() == n) {
        QuboError::LengthMismatch
    } else if n == 0 {
        QuboError::EmptyProblem
    } else if n > MAX_VARS as int {
        QuboError::TooManyVariables
    } else if (exists|k: int| 0 <= k < is.len() && (#[trigger] is[k]) >= n) || (exists|k: int|
        0 <= k < js.len() && (#[trigger] js[k]) >= n) {
        QuboError::IndexOutOfRange
    } else if (exists|k: int|
        0 <= k < vs.len() && !(-(INPUT_LIMIT as int) <= #[trigger] vs[k] <= INPUT_LIMIT as int))
        || (exists|i: int|
        0 <= i < c.len() && !(-(INPUT_LIMIT as int) <= #[trigger] c[i] <= INPUT_LIMIT as int)) {
        QuboError::CoefficientTooLarge
    } else {
        QuboError::DuplicateEntry
    }
}

/// A Gershgorin radius is nonnegative and at most `k` entries' worth.
proof fn lemma_row_radius_bound(r: Seq<i64>, i: int, k: int, b: int)
    requires
        forall|j: int| 0 <= j < k ==> -b <= #[trigger] r[j] <= b,
        b >= 0,
        0 <= k,
    ensures
        0 <= Qubo::row_radius(r, i, k) <= k * b,
    decreases k,
{
    if k > 0 {
        lemma_row_radius_bound(r, i, k - 1, b);
        assert((k - 1) * b + b == k * b) by (nonlinear_arith);
    }
}

/// The worst Gershgorin row value is a lower bound for every row's value.
pub proof fn lemma_worst_row_le(p: &Qubo, i: int, k: int)
    requires
        p.wf(),
        0 <= i < k <= p.n(),
    ensures
        p.worst_row(k) <= p.qm()[i][i] - Qubo::row_radius(p.qm()[i], i, p.n()),
    decreases k,
{
    if i < k - 1 {
        lemma_worst_row_le(p, i, k - 1);
    }
}

/// Changing a row's entry at the skipped index leaves its radius alone.
pub proof fn lemma_row_radius_update_diag(r: Seq<i64>, i: int, v: i64, k: int)
    requires
        0 <= i < r.len(),
        k <= r.len(),
    ensures
        Qubo::row_radius(r.update(i, v), i, k) == Qubo::row_radius(r, i, k),
    decreases k,
{
    if k > 0 {
        lemma_row_radius_update_diag(r, i, v, k - 1);
    }
}

/// The worst Gershgorin row value is bounded below by the coefficient range.
proof fn lemma_worst_row_lower(p: &Qubo, k: int, b: int)
    requires
        p.wf(),
        mat_wf(p.qm(), p.n(), b),
        b >= 0,
        1 <= k <= p.n(),
    ensures
        p.worst_row(k) >= -b - p.n() * b,
    decreases k,
{
    let n = p.n();
    lemma_row_radius_bound(p.qm()[k - 1], k - 1, n, b);
    if k > 1 {
        lemma_worst_row_lower(p, k - 1, b);
    }
}

/// Appending one triplet raises the summed value at exactly its entry.
proof fn lemma_trip_val_prefix(
    is: Seq<usize>,
    js: Seq<usize>,
    vs: Seq<i64>,
    is2: Seq<usize>,
    js2: Seq<usize>,
    vs2: Seq<i64>,
    m: int,
    a: int,
    b: int,
)
    requires
        m <= is.len(),
        is.len() <= is2.len() && is.len() <= js2.len() && is.len() <= vs2.len(),
        forall|k: int| 0 <= k < is.len() ==> #[trigger] is2[k] == is[k],
        forall|k: int| 0 <= k < is.len() ==> #[trigger] js2[k] == js[k],
        forall|k: int| 0 <= k < is.len() ==> #[trigger] vs2[k] == vs[k],
    ensures
        trip_val(is2, js2, vs2, m, a, b) == trip_val(is, js, vs, m, a, b),
    decreases m,
{
    if m > 0 {
        lemma_trip_val_prefix(is, js, vs, is2, js2, vs2, m - 1, a, b);
    }
}

proof fn lemma_trip_val_push(is: Seq<usize>, js: Seq<usize>, vs: Seq<i64>, ai: usize, bi: usize, v: i64)
    requires
        is.len() == js.len() && js.len() == vs.len(),
    ensures
        forall|a2: int, b2: int|
            trip_val(
                is.push(ai),
                js.push(bi),
                vs.push(v),
                is.len() as int + 1,
                a2,
                b2,
            ) == trip_val(is, js, vs, is.len() as int, a2, b2) + if a2 == ai as int && b2
                == bi as int {
                v as int
            } else {
                0
            },
{
    let is2 = is.push(ai);
    let js2 = js.push(bi);
    let vs2 = vs.push(v);
    assert forall|a2: int, b2: int|
        trip_val(is2, js2, vs2, is.len() as int + 1, a2, b2) == trip_val(is, js, vs, is.len() as int, a2, b2)
            + if a2 == ai as int && b2 == bi as int {
            v as int
        } else {
            0
        } by {
        assert(is2[is.len() as int] == ai);
        assert(js2[is.len() as int] == bi);
        assert(vs2[is.len() as int] == v);
        lemma_trip_val_prefix(is, js, vs, is2, js2, vs2, is.len() as int, a2, b2);
    }
}

/// With pairwise-distinct entries, a summed value is a single triplet's.
proof fn lemma_trip_val_bounded(
    is: Seq<usize>,
    js: Seq<usize>,
    vs: Seq<i64>,
    m: int,
    a: int,
    b: int,
    l: int,
)
    requires
        m <= is.len(),
        is.len() == js.len() && js.len() == vs.len(),
        forall|k: int| 0 <= k < vs.len() ==> -l <= #[trigger] vs[k] <= l,
        forall|k1: int, k2: int|
            0 <= k1 < k2 < is.len() ==> !((#[trigger] is[k1]) == (#[trigger] is[k2]) && js[k1]
                == js[k2]),
        l >= 0,
    ensures
        -l <= trip_val(is, js, vs, m, a, b) <= l,
    decreases m,
{
    if m > 0 {
        if is[m - 1] == a && js[m - 1] == b {
            assert forall|k: int| 0 <= k < m - 1 implies !((#[trigger] is[k]) == a && js[k]
                == b) by {
                assert(!(is[k] == is[m - 1] && js[k] == js[m - 1]));
            }
            lemma_trip_val_unmatched(is, js, vs, m - 1, a, b);
        } else {
            lemma_trip_val_bounded(is, js, vs, m - 1, a, b, l);
        }
    }
}

/// No earlier triplet names `(a, b)`, so the partial sum there is zero.
proof fn lemma_trip_val_unmatched(is: Seq<usize>, js: Seq<usize>, vs: Seq<i64>, m: int, a: int, b: int)
    requires
        forall|k: int| 0 <= k < m ==> !((#[trigger] is[k]) == a && js[k] == b),
    ensures
        trip_val(is, js, vs, m, a, b) == 0,
    decreases m,
{
    if m > 0 {
        lemma_trip_val_unmatched(is, js, vs, m - 1, a, b);
    }
}

impl Qubo {
    /// The coefficient matrix as a sequence of rows.
    pub open spec fn qm(&self) -> Seq<Seq<i64>> {
        Seq::new(self.q@.len(), |i: int| self.q@[i]@)
    }

    /// The linear term.
    pub open spec fn cv(&self) -> Seq<i64> {
        self.c@
    }

    /// Number of variables.
    pub open spec fn n(&self) -> int {
        self.c@.len() as int
    }

    /// The objective on a 0/1 point.
    pub open spec fn f(&self, x: Seq<bool>) -> int {
        f_of(self.qm(), self.cv(), x)
    }

    /// Entries bounded by `b` in magnitude.
    pub open spec fn bounded_by(&self, b: int) -> bool {
        mat_wf(self.qm(), self.n(), b) && vec_wf(self.cv(), self.n(), b)
    }

    /// Shape and coefficient-range invariant.
    pub open spec fn wf(&self) -> bool {
        &&& 1 <= self.n() <= MAX_VARS as int
        &&& self.bounded_by(COEFF_LIMIT as int)
    }

    /// The matrix equals its transpose.
    pub open spec fn is_symmetric(&self) -> bool {
        forall|i: int, j: int|
            0 <= i < self.n() && 0 <= j < self.n() ==> #[trigger] self.qm()[i][j]
                == self.qm()[j][i]
    }

    /// Number of variables.
    pub fn num_x(&self) -> (r: usize)
        ensures
            r == self.n(),
    {
        self.c.len()
    }

    /// Exact objective value of a complete 0/1 assignment.
    pub fn eval(&self, x: &Vec<bool>) -> (r: i64)
        requires
            self.wf(),
            x@.len() == self.n(),
        ensures
            r == self.f(x@),
    {
        let n = self.c.len();
        let ghost qs = self.qm();
        let ghost cs = self.cv();
        let ghost xs = x@;
        proof {
            lemma_quad_bound(qs, xs, n as int, n as int, COEFF_LIMIT as int);
        }
        let mut total: i64 = 0;
        let mut i: usize = 0;
        while i < n
            invariant
                self.wf(),
                xs == x@,
                qs == self.qm(),
                cs == self.cv(),
                n == self.n(),
                x@.len() == n,
                0 <= i <= n,
                total == quad_upto(qs, xs, i as int, n as int),
                -((n * n) as int * COEFF_LIMIT) <= total <= (n * n) as int * COEFF_LIMIT,
            decreases n - i,
        {
            proof {
                lemma_quad_bound(qs, xs, i as int, n as int, COEFF_LIMIT as int);
                lemma_quad_bound(qs, xs, i as int + 1, n as int, COEFF_LIMIT as int);
                assert((i as int + 1) * (n as int * COEFF_LIMIT) <= (n * n) as int * COEFF_LIMIT)
                    by (nonlinear_arith)
                    requires
                        0 <= i as int + 1 <= n as int,
                        n as int <= MAX_VARS as int,
                ;
                assert((n * n) as int * COEFF_LIMIT < i64::MAX) by (nonlinear_arith)
                    requires
                        0 <= n as int <= 4096,
                ;
            }
            if x[i] {
                let row = &self.q[i];
                let mut rowacc: i64 = 0;
                let mut j: usize = 0;
                while j < n
                    invariant
                        qs == self.qm(),
                        xs == x@,
                        x@.len() == n,
                        n == self.n(),
                        self.wf(),
                        0 <= i < n,
                        row@ == qs[i as int],
                        0 <= j <= n,
                        rowacc == row_dot(qs[i as int], xs, j as int),
                        -(j as int * COEFF_LIMIT) <= rowacc <= j as int * COEFF_LIMIT,
                    decreases n - j,
                {
                    if x[j] {
                        rowacc = rowacc + row[j];
                    }
                    assert(rowacc == row_dot(qs[i as int], xs, j as int + 1));
                    proof {
                        lemma_row_dot_bound(qs[i as int], xs, j as int + 1, COEFF_LIMIT as int);
                    }
                    j = j + 1;
                }
                proof {
                    assert(b2i(xs[i as int]) * rowacc == rowacc) by (nonlinear_arith)
                        requires
                            b2i(xs[i as int]) == 1,
                    ;
                    assert(n as int * COEFF_LIMIT <= n as int * (n as int * COEFF_LIMIT))
                        by (nonlinear_arith)
                        requires
                            1 <= n as int,
                            COEFF_LIMIT > 0,
                    ;
                    assert((n * n) as int * COEFF_LIMIT == n as int * (n as int * COEFF_LIMIT))
                        by (nonlinear_arith);
                }
                total = total + rowacc;
            } else {
                proof {
                    assert(b2i(xs[i as int]) * row_dot(qs[i as int], xs, n as int) == 0)
                        by (nonlinear_arith)
                        requires
                            b2i(xs[i as int]) == 0,
                    ;
                }
            }
            i = i + 1;
        }
        // linear term
        let mut k: usize = 0;
        let mut lin: i64 = 0;
        while k < n
            invariant
                cs == self.cv(),
                xs == x@,
                x@.len() == n,
                n == self.n(),
                self.wf(),
                0 <= k <= n,
                lin == row_dot(cs, xs, k as int),
                -(k as int * COEFF_LIMIT) <= lin <= k as int * COEFF_LIMIT,
            decreases n - k,
        {
            if x[k] {
                lin = lin + self.c[k];
            }
            assert(lin == row_dot(cs, xs, k as int + 1));
            proof {
                lemma_row_dot_bound(cs, xs, k as int + 1, COEFF_LIMIT as int);
            }
            k = k + 1;
        }
        proof {
            assert((n * n) as int * COEFF_LIMIT == n as int * (n as int * COEFF_LIMIT))
                by (nonlinear_arith);
            assert(n as int * (n as int * COEFF_LIMIT) + n as int * COEFF_LIMIT < i64::MAX)
                by (nonlinear_arith)
                requires
                    1 <= n as int <= MAX_VARS as int,
            ;
        }
        total + lin
    }

    /// Builds a problem from the flat triplet form `(i, j, value)` plus a
    /// dense linear term; rejects malformed input with the exact reason.
    pub fn from_vec(
        i_idx: Vec<usize>,
        j_idx: Vec<usize>,
        vals: Vec<i64>,
        c: Vec<i64>,
        n: usize,
    ) -> (r: Result<Qubo, QuboError>)
        ensures
            r is Ok <==> triplets_ok(i_idx@, j_idx@, vals@, c@, n as int),
            !triplets_ok(i_idx@, j_idx@, vals@, c@, n as int) ==> r == Err::<Qubo, QuboError>(
                construction_error(i_idx@, j_idx@, vals@, c@, n as int),
            ),
            r is Ok ==> {
                let p = r->Ok_0;
                &&& p.wf()
                &&& p.bounded_by(INPUT_LIMIT as int)
                &&& p.n() == n
                &&& p.cv() == c@
                &&& forall|a: int, b: int|
                    0 <= a < n && 0 <= b < n ==> #[trigger] p.qm()[a][b] == trip_val(
                        i_idx@,
                        j_idx@,
                        vals@,
                        i_idx@.len() as int,
                        a,
                        b,
                    )
            },
    {
        let m = i_idx.len();
        if j_idx.len() != m || vals.len() != m || c.len() != n {
            return Err(QuboError::LengthMismatch);
        }
        if n == 0 {
            return Err(QuboError::EmptyProblem);
        }
        if n > MAX_VARS {
            return Err(QuboError::TooManyVariables);
        }
        // indices in range
        let mut k: usize = 0;
        while k < m
            invariant
                i_idx@.len() == m,
                j_idx@.len() == m,
                vals@.len() == m,
                c@.len() == n,
                1 <= n <= MAX_VARS,
                0 <= k <= m,
                forall|k2: int| 0 <= k2 < k ==> (#[trigger] i_idx@[k2]) < n,
                forall|k2: int| 0 <= k2 < k ==> (#[trigger] j_idx@[k2]) < n,
            decreases m - k,
        {
            if i_idx[k] >= n || j_idx[k] >= n {
                proof {
                    if i_idx@[k as int] >= n {
                        assert(exists|k5: int|
                            0 <= k5 < i_idx@.len() && (#[trigger] i_idx@[k5]) >= n);
                    } else {
                        assert(exists|k5: int|
                            0 <= k5 < j_idx@.len() && (#[trigger] j_idx@[k5]) >= n);
                    }
                }
                return Err(QuboError::IndexOutOfRange);
            }
            k = k + 1;
        }
        // coefficients in range
        let mut k2: usize = 0;
        while k2 < m
            invariant
                i_idx@.len() == m,
                j_idx@.len() == m,
                vals@.len() == m,
                c@.len() == n,
                1 <= n <= MAX_VARS,
                0 <= k2 <= m,
                forall|k3: int| 0 <= k3 < m ==> (#[trigger] i_idx@[k3]) < n,
                forall|k3: int| 0 <= k3 < m ==> (#[trigger] j_idx@[k3]) < n,
                forall|k3: int|
                    0 <= k3 < k2 ==> -(INPUT_LIMIT as int) <= #[trigger] vals@[k3]
                        <= INPUT_LIMIT as int,
            decreases m - k2,
        {
            if vals[k2] > INPUT_LIMIT || vals[k2] < -INPUT_LIMIT {
                return Err(QuboError::CoefficientTooLarge);
            }
            k2 = k2 + 1;
        }
        let mut k3: usize = 0;
        while k3 < n
            invariant
                i_idx@.len() == m,
                j_idx@.len() == m,
                vals@.len() == m,
                c@.len() == n,
                1 <= n <= MAX_VARS,
                0 <= k3 <= n,
                forall|k4: int| 0 <= k4 < m ==> (#[trigger] i_idx@[k4]) < n,
                forall|k4: int| 0 <= k4 < m ==> (#[trigger] j_idx@[k4]) < n,
                forall|k4: int|
                    0 <= k4 < m ==> -(INPUT_LIMIT as int) <= #[trigger] vals@[k4]
                        <= INPUT_LIMIT as int,
                forall|k4: int|
                    0 <= k4 < k3 ==> -(INPUT_LIMIT as int) <= #[trigger] c@[k4]
                        <= INPUT_LIMIT as int,
            decreases n - k3,
        {
            if c[k3] > INPUT_LIMIT || c[k3] < -INPUT_LIMIT {
                return Err(QuboError::CoefficientTooLarge);
            }
            k3 = k3 + 1;
        }
        // no entry named twice
        let mut a: usize = 0;
        while a < m
            invariant
                i_idx@.len() == m,
                j_idx@.len() == m,
                vals@.len() == m,
                c@.len() == n,
                1 <= n <= MAX_VARS,
                0 <= a <= m,
                forall|k4: int| 0 <= k4 < m ==> (#[trigger] i_idx@[k4]) < n,
                forall|k4: int| 0 <= k4 < m ==> (#[trigger] j_idx@[k4]) < n,
                forall|k4: int|
                    0 <= k4 < m ==> -(INPUT_LIMIT as int) <= #[trigger] vals@[k4]
                        <= INPUT_LIMIT as int,
                forall|k4: int|
                    0 <= k4 < n ==> -(INPUT_LIMIT as int) <= #[trigger] c@[k4]
                        <= INPUT_LIMIT as int,
                forall|x1: int, x2: int|
                    0 <= x1 < x2 < a ==> !((#[trigger] i_idx@[x1]) == (#[trigger] i_idx@[x2])
                        && j_idx@[x1] == j_idx@[x2]),
            decreases m - a,
        {
            let mut b: usize = 0;
            while b < a
                invariant
                    i_idx@.len() == m,
                    j_idx@.len() == m,
                    vals@.len() == m,
                    c@.len() == n,
                    1 <= n <= MAX_VARS,
                    0 <= b <= a < m,
                    forall|k4: int| 0 <= k4 < m ==> (#[trigger] i_idx@[k4]) < n,
                    forall|k4: int| 0 <= k4 < m ==> (#[trigger] j_idx@[k4]) < n,
                    forall|k4: int|
                        0 <= k4 < m ==> -(INPUT_LIMIT as int) <= #[trigger] vals@[k4]
                            <= INPUT_LIMIT as int,
                    forall|k4: int|
                        0 <= k4 < n ==> -(INPUT_LIMIT as int) <= #[trigger] c@[k4]
                            <= INPUT_LIMIT as int,
                    forall|x1: int, x2: int|
                        0 <= x1 < x2 < a ==> !((#[trigger] i_idx@[x1]) == (#[trigger] i_idx@[x2])
                            && j_idx@[x1] == j_idx@[x2]),
                    forall|x1: int|
                        0 <= x1 < b ==> !((#[trigger] i_idx@[x1]) == i_idx@[a as int] && j_idx@[x1]
                            == j_idx@[a as int]),
                decreases a - b,
            {
                if i_idx[b] == i_idx[a] && j_idx[b] == j_idx[a] {
                    return Err(QuboError::DuplicateEntry);
                }
                b = b + 1;
            }
            a = a + 1;
        }
        // build the dense matrix row by row
        let ghost iss = i_idx@;
        let ghost jss = j_idx@;
        let ghost vss = vals@;
        let mut rows: Vec<Vec<i64>> = Vec::new();
        let mut ri: usize = 0;
        while ri < n
            invariant
                triplets_ok(iss, jss, vss, c@, n as int),
                iss == i_idx@,
                jss == j_idx@,
                vss == vals@,
                i_idx@.len() == m,
                j_idx@.len() == m,
                vals@.len() == m,
                0 <= ri <= n,
                rows@.len() == ri,
                forall|a2: int| 0 <= a2 < ri ==> (#[trigger] rows@[a2])@.len() == n,
                forall|a2: int, b2: int|
                    0 <= a2 < ri && 0 <= b2 < n ==> #[trigger] rows@[a2]@[b2] == trip_val(
                        iss,
                        jss,
                        vss,
                        m as int,
                        a2,
                        b2,
                    ),
            decreases n - ri,
        {
            let mut row: Vec<i64> = Vec::new();
            let mut z: usize = 0;
            while z < n
                invariant
                    0 <= z <= n,
                    row@.len() == z,
                    forall|b2: int| 0 <= b2 < z ==> #[trigger] row@[b2] == 0,
                decreases n - z,
            {
                row.push(0);
                z = z + 1;
            }
            proof {
                assert forall|b2: int| 0 <= b2 < n implies #[trigger] row@[b2] == trip_val(
                    iss,
                    jss,
                    vss,
                    0,
                    ri as int,
                    b2,
                ) by {}
            }
            let mut t: usize = 0;
            while t < m
                invariant
                    triplets_ok(iss, jss, vss, c@, n as int),
                    iss == i_idx@,
                    jss == j_idx@,
                    vss == vals@,
                    i_idx@.len() == m,
                    j_idx@.len() == m,
                    vals@.len() == m,
                    0 <= ri < n,
                    0 <= t <= m,
                    row@.len() == n,
                    forall|b2: int|
                        0 <= b2 < n ==> #[trigger] row@[b2] == trip_val(
                            iss,
                            jss,
                            vss,
                            t as int,
                            ri as int,
                            b2,
                        ),
                    forall|b2: int|
                        0 <= b2 < n ==> -(INPUT_LIMIT as int) <= #[trigger] row@[b2]
                            <= INPUT_LIMIT as int,
                decreases m - t,
            {
                if i_idx[t] == ri {
                    let bcol = j_idx[t];
                    proof {
                        assert forall|k5: int|
                            0 <= k5 < t implies !((#[trigger] iss[k5]) == ri as int && jss[k5]
                            == bcol as int) by {
                            if iss[k5] == ri as int && jss[k5] == bcol as int {
                                assert(!(iss[k5] == iss[t as int] && jss[k5] == jss[t as int]));
                            }
                        }
                        lemma_trip_val_unmatched(iss, jss, vss, t as int, ri as int, bcol as int);
                    }
                    row[bcol] = row[bcol] + vals[t];
                }
                t = t + 1;
            }
            rows.push(row);
            ri = ri + 1;
        }
        let result = Qubo { q: rows, c };
        proof {
            assert(result.n() == n);
            assert forall|a2: int, b2: int|
                0 <= a2 < n && 0 <= b2 < n implies -(INPUT_LIMIT as int)
                <= #[trigger] result.qm()[a2][b2] <= INPUT_LIMIT as int by {
                assert(result.qm()[a2][b2] == rows@[a2]@[b2]);
                lemma_trip_val_bounded(
                    iss,
                    jss,
                    vss,
                    m as int,
                    a2,
                    b2,
                    INPUT_LIMIT as int,
                );
            }
        }
        Ok(result)
    }

    /// Sum of the absolute off-diagonal entries of row `i`, over `k`
    /// columns: the Gershgorin radius.
    pub open spec fn row_radius(r: Seq<i64>, i: int, k: int) -> int
        decreases k,
    {
        if k <= 0 {
            0
        } else if k - 1 == i {
            Self::row_radius(r, i, k - 1)
        } else if r[k - 1] < 0 {
            Self::row_radius(r, i, k - 1) - r[k - 1]
        } else {
            Self::row_radius(r, i, k - 1) + r[k - 1]
        }
    }

    /// A diagonal half-shift that makes the matrix strictly diagonally
    /// dominant with positive diagonal, computed from the Gershgorin
    /// bound: at least `1 - min_i (q[i][i] - radius_i)`, and 0 when the
    /// matrix already is dominant.  Adding the result to the diagonal
    /// keeps every eigenvalue of the Hessian at or above 2.
    pub open spec fn spec_shift(&self) -> int {
        let worst = self.worst_row(self.n());
        if worst >= 1 {
            0
        } else {
            1 - worst
        }
    }

    /// Minimum over the first `k` rows of `q[i][i] - radius_i`.
    pub open spec fn worst_row(&self, k: int) -> int
        decreases k,
    {
        if k <= 1 {
            self.qm()[0][0] - Self::row_radius(self.qm()[0], 0, self.n())
        } else {
            let prev = self.worst_row(k - 1);
            let cur = self.qm()[k - 1][k - 1] - Self::row_radius(self.qm()[k - 1], k - 1, self.n());
            if cur < prev {
                cur
            } else {
                prev
            }
        }
    }

    /// Computes `spec_shift`: the least half-shift that makes every row
    /// strictly diagonally dominant with diagonal at least 1.
    pub fn convexifying_shift(&self) -> (r: i64)
        requires
            self.wf(),
        ensures
            r == self.spec_shift(),
            r >= 0,
            forall|b: int|
                0 <= b && #[trigger] self.bounded_by(b) ==> r <= 1 + b + self.n() * b,
    {
        let n = self.c.len();
        let ghost qs = self.qm();
        let mut worst: i64 = 0;
        let mut i: usize = 0;
        while i < n
            invariant
                self.wf(),
                qs == self.qm(),
                n == self.n(),
                0 <= i <= n,
                i > 0 ==> worst == self.worst_row(i as int),
                i > 0 ==> -(COEFF_LIMIT as int) - n as int * COEFF_LIMIT <= worst <= COEFF_LIMIT,
            decreases n - i,
        {
            proof {
                assert(self.q@.len() == n);
                assert(qs[i as int] == self.q@[i as int]@);
            }
            let row = &self.q[i];
            let mut radius: i64 = 0;
            let mut j: usize = 0;
            while j < n
                invariant
                    self.wf(),
                    qs == self.qm(),
                    n == self.n(),
                    0 <= i < n,
                    row@ == qs[i as int],
                    0 <= j <= n,
                    radius == Self::row_radius(qs[i as int], i as int, j as int),
                    0 <= radius <= j as int * COEFF_LIMIT,
                decreases n - j,
            {
                proof {
                    lemma_row_radius_bound(qs[i as int], i as int, j as int + 1, COEFF_LIMIT as int);
                    assert((j as int + 1) * COEFF_LIMIT <= 4096 * COEFF_LIMIT) by (nonlinear_arith)
                        requires
                            0 <= j as int + 1 <= 4096,
                    ;
                }
                if j != i {
                    let v = row[j];
                    if v < 0 {
                        radius = radius - v;
                    } else {
                        radius = radius + v;
                    }
                }
                j = j + 1;
            }
            proof {
                assert(n as int * COEFF_LIMIT <= 4096 * COEFF_LIMIT) by (nonlinear_arith)
                    requires
                        0 <= n as int <= 4096,
                ;
            }
            let g = row[i] - radius;
            if i == 0 {
                worst = g;
            } else if g < worst {
                worst = g;
            }
            i = i + 1;
        }
        if worst >= 1 {
            proof {
                lemma_worst_row_lower(self, n as int, COEFF_LIMIT as int);
            }
            0
        } else {
            proof {
                lemma_worst_row_lower(self, n as int, COEFF_LIMIT as int);
                assert forall|b: int| 0 <= b && #[trigger] self.bounded_by(b) implies 1 - worst
                    <= 1 + b + self.n() * b by {
                    lemma_worst_row_lower(self, n as int, b);
                }
            }
            1 - worst
        }
    }

    /// The sparse triplet form of the matrix, with the linear term and the
    /// variable count: one triplet for each nonzero entry, pairwise
    /// distinct, summing back to exactly this matrix.
    pub fn to_vec(&self) -> (r: (Vec<usize>, Vec<usize>, Vec<i64>, Vec<i64>, usize))
        requires
            self.wf(),
        ensures
            r.4 == self.n(),
            r.3@ == self.cv(),
            r.0@.len() == r.1@.len() && r.1@.len() == r.2@.len(),
            forall|k: int| 0 <= k < r.0@.len() ==> (#[trigger] r.0@[k]) < self.n(),
            forall|k: int| 0 <= k < r.1@.len() ==> (#[trigger] r.1@[k]) < self.n(),
            forall|k: int| 0 <= k < r.2@.len() ==> (#[trigger] r.2@[k]) != 0,
            forall|k1: int, k2: int|
                0 <= k1 < k2 < r.0@.len() ==> !((#[trigger] r.0@[k1]) == (#[trigger] r.0@[k2])
                    && r.1@[k1] == r.1@[k2]),
            forall|a: int, b: int|
                0 <= a < self.n() && 0 <= b < self.n() ==> trip_val(
                    r.0@,
                    r.1@,
                    r.2@,
                    r.0@.len() as int,
                    a,
                    b,
                ) == #[trigger] self.qm()[a][b],
    {
        let n = self.c.len();
        let ghost qs = self.qm();
        let mut is: Vec<usize> = Vec::new();
        let mut js: Vec<usize> = Vec::new();
        let mut vs: Vec<i64> = Vec::new();
        let mut a: usize = 0;
        while a < n
            invariant
                self.wf(),
                qs == self.qm(),
                n == self.n(),
                0 <= a <= n,
                is@.len() == js@.len() && js@.len() == vs@.len(),
                forall|k: int| 0 <= k < is@.len() ==> (#[trigger] is@[k]) < n,
                forall|k: int| 0 <= k < js@.len() ==> (#[trigger] js@[k]) < n,
                forall|k: int| 0 <= k < vs@.len() ==> (#[trigger] vs@[k]) != 0,
                forall|k: int| 0 <= k < is@.len() ==> (#[trigger] is@[k]) < a,
                forall|k1: int, k2: int|
                    0 <= k1 < k2 < is@.len() ==> !((#[trigger] is@[k1]) == (#[trigger] is@[k2])
                        && js@[k1] == js@[k2]),
                forall|a2: int, b2: int|
                    0 <= a2 < n && 0 <= b2 < n ==> trip_val(is@, js@, vs@, is@.len() as int, a2, b2)
                        == if a2 < a {
                        qs[a2][b2]
                    } else {
                        0
                    },
            decreases n - a,
        {
            let mut b: usize = 0;
            while b < n
                invariant
                    self.wf(),
                    qs == self.qm(),
                    n == self.n(),
                    0 <= a < n,
                    0 <= b <= n,
                    is@.len() == js@.len() && js@.len() == vs@.len(),
                    forall|k: int| 0 <= k < is@.len() ==> (#[trigger] is@[k]) < n,
                    forall|k: int| 0 <= k < js@.len() ==> (#[trigger] js@[k]) < n,
                    forall|k: int| 0 <= k < vs@.len() ==> (#[trigger] vs@[k]) != 0,
                    forall|k: int|
                        0 <= k < is@.len() ==> (#[trigger] is@[k]) < a || (is@[k] == a && js@[k]
                            < b),
                    forall|k1: int, k2: int|
                        0 <= k1 < k2 < is@.len() ==> !((#[trigger] is@[k1]) == (#[trigger] is@[k2])
                            && js@[k1] == js@[k2]),
                    forall|a2: int, b2: int|
                        0 <= a2 < n && 0 <= b2 < n ==> trip_val(
                            is@,
                            js@,
                            vs@,
                            is@.len() as int,
                            a2,
                            b2,
                        ) == if a2 < a || (a2 == a && b2 < b) {
                            qs[a2][b2]
                        } else {
                            0
                        },
                decreases n - b,
            {
                proof {
                    assert(self.q@.len() == n);
                    assert(qs[a as int] == self.q@[a as int]@);
                }
                let v = self.q[a][b];
                let ghost pre_is = is@;
                let ghost pre_js = js@;
                let ghost pre_vs = vs@;
                if v != 0 {
                    let ghost old_is = is@;
                    let ghost old_js = js@;
                    let ghost old_vs = vs@;
                    is.push(a);
                    js.push(b);
                    vs.push(v);
                    proof {
                        lemma_trip_val_push(old_is, old_js, old_vs, a, b, v);
                        assert forall|k1: int, k2: int|
                            0 <= k1 < k2 < is@.len() implies !((#[trigger] is@[k1]) == (
                        #[trigger] is@[k2]) && js@[k1] == js@[k2]) by {
                            if k2 == is@.len() - 1 {
                                assert(is@[k1] == old_is[k1]);
                                assert(js@[k1] == old_js[k1]);
                                assert(old_is[k1] < a || (old_is[k1] == a && old_js[k1] < b));
                            } else {
                                assert(is@[k1] == old_is[k1] && is@[k2] == old_is[k2]);
                                assert(js@[k1] == old_js[k1] && js@[k2] == old_js[k2]);
                            }
                        }
                    }
                }
                proof {
                    assert forall|a2: int, b2: int| 0 <= a2 < n && 0 <= b2 < n implies trip_val(
                        is@,
                        js@,
                        vs@,
                        is@.len() as int,
                        a2,
                        b2,
                    ) == (if a2 < a as int || (a2 == a as int && b2 < b as int + 1) {
                        qs[a2][b2]
                    } else {
                        0
                    }) by {
                        if v != 0 {
                            assert(is@ == pre_is.push(a));
                            assert(trip_val(is@, js@, vs@, is@.len() as int, a2, b2) == trip_val(
                                pre_is,
                                pre_js,
                                pre_vs,
                                pre_is.len() as int,
                                a2,
                                b2,
                            ) + if a2 == a as int && b2 == b as int {
                                v as int
                            } else {
                                0
                            });
                        } else {
                            assert(is@ == pre_is && js@ == pre_js && vs@ == pre_vs);
                        }
                        if a2 == a as int && b2 == b as int {
                            assert(trip_val(pre_is, pre_js, pre_vs, pre_is.len() as int, a2, b2)
                                == 0);
                        }
                    }
                }
                b = b + 1;
            }
            a = a + 1;
        }
        let mut c_out: Vec<i64> = Vec::new();
        let mut k: usize = 0;
        while k < n
            invariant
                self.wf(),
                n == self.n(),
                0 <= k <= n,
                c_out@.len() == k,
                forall|j2: int| 0 <= j2 < k ==> #[trigger] c_out@[j2] == self.cv()[j2],
            decreases n - k,
        {
            c_out.push(self.c[k]);
            k = k + 1;
        }
        proof {
            assert(c_out@ =~= self.cv());
        }
        (is, js, vs, c_out, n)
    }

    /// Every pairwise coupling `q[i][j] + q[j][i]` is even, so the symmetric
    /// half-sum matrix exists over the integers.
    pub open spec fn even_couplings(&self) -> bool {
        forall|i: int, j: int|
            0 <= i < self.n() && 0 <= j < self.n() ==> (#[trigger] self.qm()[i][j]
                + self.qm()[j][i]) % 2 == 0
    }

    /// The equivalent symmetric problem with `q' = (q + q^T) / 2`; the
    /// objective is unchanged on every 0/1 point.
    pub fn make_symmetric(&self) -> (r: Result<Qubo, QuboError>)
        requires
            self.wf(),
        ensures
            r is Ok <==> self.even_couplings(),
            r is Err ==> r == Err::<Qubo, QuboError>(QuboError::OddCoupling),
            r is Ok ==> {
                let s = r->Ok_0;
                &&& s.wf()
                &&& s.n() == self.n()
                &&& s.cv() == self.cv()
                &&& s.is_symmetric()
                &&& forall|i: int, j: int|
                    0 <= i < self.n() && 0 <= j < self.n() ==> 2 * #[trigger] s.qm()[i][j]
                        == self.qm()[i][j] + self.qm()[j][i]
                &&& forall|x: Seq<bool>| x.len() == self.n() ==> #[trigger] s.f(x) == self.f(x)
                &&& forall|b: int|
                    0 <= b && #[trigger] self.bounded_by(b) ==> s.bounded_by(b)
            },
    {
        let n = self.c.len();
        let ghost qs = self.qm();
        // reject any odd coupling first
        let mut i: usize = 0;
        while i < n
            invariant
                self.wf(),
                qs == self.qm(),
                n == self.n(),
                0 <= i <= n,
                forall|a: int, b: int|
                    0 <= a < i && 0 <= b < n ==> (#[trigger] qs[a][b] + qs[b][a]) % 2 == 0,
            decreases n - i,
        {
            let mut j: usize = 0;
            while j < n
                invariant
                    self.wf(),
                    qs == self.qm(),
                    n == self.n(),
                    0 <= i < n,
                    0 <= j <= n,
                    forall|b: int| 0 <= b < j ==> (#[trigger] qs[i as int][b] + qs[b][i as int]) % 2 == 0,
                decreases n - j,
            {
                proof {
                    assert(self.q@.len() == n);
                    assert(qs[i as int] == self.q@[i as int]@);
                    assert(qs[j as int] == self.q@[j as int]@);
                }
                let s: i64 = self.q[i][j] + self.q[j][i];
                if s % 2 != 0 {
                    return Err(QuboError::OddCoupling);
                }
                j = j + 1;
            }
            i = i + 1;
        }
        // build the half-sum matrix
        let mut rows: Vec<Vec<i64>> = Vec::new();
        let mut a: usize = 0;
        while a < n
            invariant
                self.wf(),
                self.even_couplings(),
                qs == self.qm(),
                n == self.n(),
                0 <= a <= n,
                rows@.len() == a,
                forall|i2: int| 0 <= i2 < a ==> (#[trigger] rows@[i2])@.len() == n,
                forall|i2: int, j2: int|
                    0 <= i2 < a && 0 <= j2 < n ==> 2 * #[trigger] rows@[i2]@[j2] == qs[i2][j2]
                        + qs[j2][i2],
            decreases n - a,
        {
            let mut row: Vec<i64> = Vec::new();
            let mut b: usize = 0;
            while b < n
                invariant
                    self.wf(),
                    self.even_couplings(),
                    qs == self.qm(),
                    n == self.n(),
                    0 <= a < n,
                    0 <= b <= n,
                    row@.len() == b,
                    forall|j2: int|
                        0 <= j2 < b ==> 2 * #[trigger] row@[j2] == qs[a as int][j2] + qs[j2][a as int],
                decreases n - b,
            {
                proof {
                    assert(self.q@.len() == n);
                    assert(qs[a as int] == self.q@[a as int]@);
                    assert(qs[b as int] == self.q@[b as int]@);
                }
                let s: i64 = self.q[a][b] + self.q[b][a];
                let half: i64 = s / 2;
                proof {
                    assert((qs[a as int][b as int] + qs[b as int][a as int]) % 2 == 0);
                    assert(2 * (half as int) == s as int) by (nonlinear_arith)
                        requires
                            half == s / 2,
                            (s as int) % 2 == 0,
                    ;
                }
                row.push(half);
                b = b + 1;
            }
            rows.push(row);
            a = a + 1;
        }
        let mut c2: Vec<i64> = Vec::new();
        let mut k: usize = 0;
        while k < n
            invariant
                self.wf(),
                n == self.n(),
                0 <= k <= n,
                c2@.len() == k,
                forall|j2: int| 0 <= j2 < k ==> #[trigger] c2@[j2] == self.cv()[j2],
            decreases n - k,
        {
            c2.push(self.c[k]);
            k = k + 1;
        }
        let result = Qubo { q: rows, c: c2 };
        proof {
            assert(result.cv() =~= self.cv());
            assert forall|i2: int, j2: int|
                0 <= i2 < self.n() && 0 <= j2 < self.n() implies 2 * #[trigger] result.qm()[i2][j2]
                == qs[i2][j2] + qs[j2][i2] by {}
            assert forall|x: Seq<bool>| x.len() == self.n() implies #[trigger] result.f(x)
                == self.f(x) by {
                lemma_symmetrize_preserves_f(qs, result.qm(), self.cv(), x);
            }
            assert forall|b: int| 0 <= b && #[trigger] self.bounded_by(b)
                implies result.bounded_by(b) by {
                assert forall|i2: int, j2: int|
                    0 <= i2 < result.n() && 0 <= j2 < result.n() implies -b
                    <= #[trigger] result.qm()[i2][j2] <= b by {
                    assert(2 * result.qm()[i2][j2] == qs[i2][j2] + qs[j2][i2]);
                }
            }
        }
        Ok(result)
    }

    /// Adds `h` to every diagonal entry and subtracts `h` from every linear
    /// coefficient; on 0/1 points (where `x_i^2 == x_i`) the objective is
    /// unchanged.  With `h` at least the convexifying shift the transformed
    /// Hessian is positive definite, which a continuous relaxation oracle
    /// may rely on.
    pub fn make_diag_transform(&self, h: i64) -> (r: Qubo)
        requires
            self.wf(),
            0 <= h,
            forall|i: int|
                0 <= i < self.n() ==> -(COEFF_LIMIT as int) <= #[trigger] self.qm()[i][i] + h
                    <= COEFF_LIMIT as int,
            forall|i: int|
                0 <= i < self.n() ==> -(COEFF_LIMIT as int) <= #[trigger] self.cv()[i] - h
                    <= COEFF_LIMIT as int,
        ensures
            r.wf(),
            r.n() == self.n(),
            forall|i: int|
                0 <= i < self.n() ==> #[trigger] r.qm()[i] == self.qm()[i].update(
                    i,
                    (self.qm()[i][i] + h) as i64,
                ),
            forall|i: int| 0 <= i < self.n() ==> #[trigger] r.cv()[i] == self.cv()[i] - h,
            self.is_symmetric() ==> r.is_symmetric(),
            forall|x: Seq<bool>| x.len() == self.n() ==> #[trigger] r.f(x) == self.f(x),
    {
        let n = self.c.len();
        let ghost qs = self.qm();
        let mut rows: Vec<Vec<i64>> = Vec::new();
        let mut a: usize = 0;
        while a < n
            invariant
                self.wf(),
                qs == self.qm(),
                n == self.n(),
                0 <= h,
                forall|i: int|
                    0 <= i < n ==> -(COEFF_LIMIT as int) <= #[trigger] qs[i][i] + h
                        <= COEFF_LIMIT as int,
                0 <= a <= n,
                rows@.len() == a,
                forall|i2: int|
                    0 <= i2 < a ==> #[trigger] rows@[i2]@ == qs[i2].update(
                        i2,
                        (qs[i2][i2] + h) as i64,
                    ),
            decreases n - a,
        {
            let mut row: Vec<i64> = Vec::new();
            let mut b: usize = 0;
            while b < n
                invariant
                    self.wf(),
                    qs == self.qm(),
                    n == self.n(),
                    0 <= h,
                    forall|i: int|
                        0 <= i < n ==> -(COEFF_LIMIT as int) <= #[trigger] qs[i][i] + h
                            <= COEFF_LIMIT as int,
                    0 <= a < n,
                    0 <= b <= n,
                    row@.len() == b,
                    forall|j2: int|
                        0 <= j2 < b ==> #[trigger] row@[j2] == if j2 == a {
                            (qs[a as int][a as int] + h) as i64
                        } else {
                            qs[a as int][j2]
                        },
                decreases n - b,
            {
                proof {
                    assert(self.q@.len() == n);
                    assert(qs[a as int] == self.q@[a as int]@);
                }
                if b == a {
                    row.push(self.q[a][a] + h);
                } else {
                    row.push(self.q[a][b]);
                }
                b = b + 1;
            }
            proof {
                assert(row@ =~= qs[a as int].update(a as int, (qs[a as int][a as int] + h) as i64));
            }
            rows.push(row);
            a = a + 1;
        }
        let mut c2: Vec<i64> = Vec::new();
        let mut k: usize = 0;
        while k < n
            invariant
                self.wf(),
                n == self.n(),
                0 <= h,
                forall|i: int|
                    0 <= i < n ==> -(COEFF_LIMIT as int) <= #[trigger] self.cv()[i] - h
                        <= COEFF_LIMIT as int,
                0 <= k <= n,
                c2@.len() == k,
                forall|j2: int| 0 <= j2 < k ==> #[trigger] c2@[j2] == self.cv()[j2] - h,
            decreases n - k,
        {
            c2.push(self.c[k] - h);
            k = k + 1;
        }
        let result = Qubo { q: rows, c: c2 };
        proof {
            assert forall|x: Seq<bool>| x.len() == self.n() implies #[trigger] result.f(x)
                == self.f(x) by {
                lemma_diag_shift_preserves_f(qs, result.qm(), self.cv(), result.cv(), x, h as int);
            }
            assert forall|i2: int, j2: int|
                0 <= i2 < result.n() && 0 <= j2 < result.n() implies -(COEFF_LIMIT as int)
                <= #[trigger] result.qm()[i2][j2] <= COEFF_LIMIT as int by {
                assert(result.qm()[i2] == qs[i2].update(i2, (qs[i2][i2] + h) as i64));
            }
            if self.is_symmetric() {
                assert forall|i2: int, j2: int|
                    0 <= i2 < result.n() && 0 <= j2 < result.n() implies #[trigger] result.qm()[i2][j2]
                    == result.qm()[j2][i2] by {
                    assert(result.qm()[i2] == qs[i2].update(i2, (qs[i2][i2] + h) as i64));
                    assert(result.qm()[j2] == qs[j2].update(j2, (qs[j2][j2] + h) as i64));
                }
            }
        }
        result
    }
}

} // verus!
