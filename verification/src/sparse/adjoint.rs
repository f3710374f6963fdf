//! The transpose product is the adjoint of the product: for integer
//! matrices, `<y, A x> == <A^T y, x>` whenever every step is defined.
use vstd::prelude::*;
use vstd::std_specs::ops::{AddSpec, MulSpec};
use crate::sparse::SparseMatrix;

verus! {

/// `sum_{j < n} a[j] * b[j]` over the integers.
pub open spec fn int_dot(a: Seq<i64>, b: Seq<i64>, n: int) -> int
    decreases n,
{
    if n <= 0 {
        0
    } else {
        int_dot(a, b, n - 1) + a[n - 1] * b[n - 1]
    }
}

/// The first `k` products `value * x[col]` of row `i`, summed over the
/// integers.
pub open spec fn row_sum(m: SparseMatrix<i64>, i: int, x: Seq<i64>, k: int) -> int
    decreases k,
{
    if k <= 0 {
        0
    } else {
        let e = m.row_view(i)[k - 1];
        row_sum(m, i, x, k - 1) + e.value * x[e.col as int]
    }
}

/// `sum_{i < n} y[i] * (row i times x)` over the integers.
pub open spec fn weighted_rows(m: SparseMatrix<i64>, x: Seq<i64>, y: Seq<i64>, n: int) -> int
    decreases n,
{
    if n <= 0 {
        0
    } else {
        weighted_rows(m, x, y, n - 1) + y[n - 1] * row_sum(m, n - 1, x, m.row_view(n - 1).len() as int)
    }
}

/// Where every step of it is defined, the machine row product from zero is
/// the integer row sum.
proof fn lemma_row_product_is_sum(m: SparseMatrix<i64>, i: int, x: Seq<i64>, k: int)
    requires
        m.row_product_defined(i, x, 0i64, k),
    ensures
        m.row_product(i, x, 0i64, k) == row_sum(m, i, x, k),
    decreases k,
{
    if k > 0 {
        lemma_row_product_is_sum(m, i, x, k - 1);
    }
}

/// Changing one component of `b` changes the dot product by `a[c]` times the
/// difference.
proof fn lemma_int_dot_update(a: Seq<i64>, b: Seq<i64>, c: int, w: i64, n: int)
    requires
        0 <= n <= b.len(),
        0 <= c < b.len(),
    ensures
        int_dot(a, b.update(c, w), n) == int_dot(a, b, n) + (if c < n { a[c] * w - a[c] * b[c] } else { 0 }),
    decreases n,
{
    if n > 0 {
        lemma_int_dot_update(a, b, c, w, n - 1);
    }
}

/// The dot product with a zero vector is zero.
proof fn lemma_int_dot_zero(a: Seq<i64>, z: Seq<i64>, n: int)
    requires
        0 <= n <= z.len(),
        forall|j: int| 0 <= j < z.len() ==> #[trigger] z[j] == 0,
    ensures
        int_dot(a, z, n) == 0,
    decreases n,
{
    if n > 0 {
        lemma_int_dot_zero(a, z, n - 1);
    }
}

/// Scattering the first `k` entries of row `i` adds `y[i]` times their row
/// sum to the dot product with `x`.
proof fn lemma_scatter_row_dot(m: SparseMatrix<i64>, i: int, x: Seq<i64>, y: Seq<i64>, o: Seq<i64>, k: int)
    requires
        m.scatter_row_defined(i, y, o, k),
        x.len() == o.len(),
        0 <= i < y.len(),
        0 <= k <= m.row_view(i).len(),
    ensures
        m.scatter_row(i, y, o, k).len() == o.len(),
        int_dot(x, m.scatter_row(i, y, o, k), x.len() as int) == int_dot(x, o, x.len() as int) + y[i] * row_sum(m, i, x, k),
    decreases k,
{
    if k > 0 {
        lemma_scatter_row_dot(m, i, x, y, o, k - 1);
        let p = m.scatter_row(i, y, o, k - 1);
        let e = m.row_view(i)[k - 1];
        let c = e.col as int;
        let w = p[c].add_spec(e.value.mul_spec(y[i]));
        assert(w == p[c] + e.value * y[i]);
        lemma_int_dot_update(x, p, c, w, x.len() as int);
        let s = row_sum(m, i, x, k - 1);
        assert(x[c] * w - x[c] * p[c] == y[i] * (s + e.value * x[c]) - y[i] * s) by (nonlinear_arith)
            requires
                w == p[c] + e.value * y[i],
        ;
    } else {
        assert(m.scatter_row(i, y, o, 0) == o);
    }
}

/// Scattering the first `n` rows over zeros gives a vector whose dot
/// product with `x` is `weighted_rows(m, x, y, n)`.
proof fn lemma_scatter_rows_dot(m: SparseMatrix<i64>, x: Seq<i64>, y: Seq<i64>, z: Seq<i64>, n: int)
    requires
        m.wf(),
        m.scatter_rows_defined(y, z, n),
        x.len() == z.len(),
        forall|j: int| 0 <= j < z.len() ==> #[trigger] z[j] == 0,
        0 <= n <= y.len(),
        n <= m.spec_rows(),
    ensures
        m.scatter_rows(y, z, n).len() == z.len(),
        int_dot(x, m.scatter_rows(y, z, n), x.len() as int) == weighted_rows(m, x, y, n),
    decreases n,
{
    if n > 0 {
        lemma_scatter_rows_dot(m, x, y, z, n - 1);
        let o = m.scatter_rows(y, z, n - 1);
        lemma_scatter_row_dot(m, n - 1, x, y, o, m.row_view(n - 1).len() as int);
    } else {
        lemma_int_dot_zero(x, z, x.len() as int);
    }
}

/// The left side: `<y, A x>` summed row by row.
proof fn lemma_rows_dot(m: SparseMatrix<i64>, x: Seq<i64>, y: Seq<i64>, ax: Seq<i64>, n: int)
    requires
        0 <= n <= ax.len(),
        ax.len() == y.len(),
        forall|i: int| 0 <= i < ax.len() ==> #[trigger] ax[i] == row_sum(m, i, x, m.row_view(i).len() as int),
    ensures
        int_dot(y, ax, n) == weighted_rows(m, x, y, n),
    decreases n,
{
    if n > 0 {
        lemma_rows_dot(m, x, y, ax, n - 1);
        assert(ax[n - 1] == row_sum(m, n - 1, x, m.row_view(n - 1).len() as int));
    }
}

/// The transpose product is the adjoint of the product: if `ax` is `A x`
/// (as `multiply_vector` states it) and `aty` is `A^T y` (as
/// `multiply_transpose_vector` states it), with every product and sum of both
/// defined, then `<y, A x> == <x, A^T y>` over the integers.
pub proof fn lemma_transpose_adjoint(m: SparseMatrix<i64>, x: Seq<i64>, y: Seq<i64>, ax: Seq<i64>, aty: Seq<i64>)
    requires
        m.wf(),
        y.len() == m.spec_rows(),
        ax.len() == m.spec_rows(),
        forall|i: int| 0 <= i < ax.len() ==> m.is_row_times(i, x, #[trigger] ax[i]),
        forall|i: int| 0 <= i < ax.len() ==> #[trigger] m.row_product_defined(i, x, 0i64, m.row_view(i).len() as int),
        m.scatter_rows_defined(y, Seq::new(x.len(), |j: int| 0i64), m.spec_rows() as int),
        exists|d: i64| #[trigger] call_ensures(i64::default, (), d) &&
            aty == m.scatter_rows(y, Seq::new(x.len(), |j: int| d), m.spec_rows() as int),
    ensures
        int_dot(y, ax, y.len() as int) == int_dot(x, aty, x.len() as int),
{
    let d = choose|d: i64| #[trigger] call_ensures(i64::default, (), d) &&
        aty == m.scatter_rows(y, Seq::new(x.len(), |j: int| d), m.spec_rows() as int);
    assert(d == 0);
    let z = Seq::new(x.len(), |j: int| 0i64);
    assert(aty == m.scatter_rows(y, z, m.spec_rows() as int));
    assert forall|i: int| 0 <= i < ax.len() implies #[trigger] ax[i] == row_sum(m, i, x, m.row_view(i).len() as int) by {
        assert(m.is_row_times(i, x, ax[i]));
        let e = choose|e: i64| #[trigger] call_ensures(i64::default, (), e) && ax[i] == m.row_product(i, x, e, m.row_view(i).len() as int);
        assert(e == 0);
        assert(m.row_product_defined(i, x, 0i64, m.row_view(i).len() as int));
        lemma_row_product_is_sum(m, i, x, m.row_view(i).len() as int);
    }
    lemma_rows_dot(m, x, y, ax, ax.len() as int);
    lemma_scatter_rows_dot(m, x, y, z, m.spec_rows() as int);
}

} // verus!
