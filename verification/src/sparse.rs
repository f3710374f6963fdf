//! Sparse matrix stored row by row.
//!
//! Each row holds a contiguous run of `(column, value)` entries; row sizes
//! are set first, then the structure is finalized and the entries filled.
use vstd::prelude::*;
use vstd::std_specs::ops::{AddSpec, MulSpec};
use std::ops::{Add, Mul};
use rayon::iter::{IndexedParallelIterator, IntoParallelRefMutIterator, ParallelIterator};

pub mod adjoint;

verus! {

/// A single entry in a sparse matrix row.
#[derive(Debug, Clone, Copy, PartialEq)]
pub struct MatrixEntry<T> {
    pub col: usize,
    pub value: T,
}

impl<T> MatrixEntry<T> {
    /// The entry `value` in column `col`.
    pub fn new(col: usize, value: T) -> (r: Self)
        ensures
            r.col == col,
            r.value == value,
    {
        MatrixEntry { col, value }
    }
}

/// Sum of the first `n` row sizes.
pub open spec fn sum_sizes(sizes: Seq<usize>, n: int) -> int
    decreases n,
{
    if n <= 0 { 0 } else { sum_sizes(sizes, n - 1) + sizes[n - 1] }
}

/// A sparse matrix whose row `i` is `entries[offsets[i]..offsets[i + 1]]`.
#[derive(Debug, Clone)]
pub struct SparseMatrix<T> {
    /// Number of rows
    pub rows: usize,
    /// Flattened entries: row i uses entries[offsets[i]..offsets[i+1]]
    entries: Vec<MatrixEntry<T>>,
    /// Offsets into entries for each row
    offsets: Vec<usize>,
    /// Per-row entry counts
    row_sizes: Vec<usize>,
}

impl<T> SparseMatrix<T> {
    /// Number of rows.
    pub closed spec fn spec_rows(&self) -> nat {
        self.rows as nat
    }

    /// All entries, row after row.
    pub closed spec fn spec_entries(&self) -> Seq<MatrixEntry<T>> {
        self.entries@
    }

    /// The requested size of each row.
    pub closed spec fn spec_sizes(&self) -> Seq<usize> {
        self.row_sizes@
    }

    /// Where each row starts among the entries, and where the last one ends.
    pub closed spec fn spec_offsets(&self) -> Seq<usize> {
        self.offsets@
    }

    /// The rows partition the entries: offsets start at 0, never decrease,
    /// and end at the number of entries.
    pub open spec fn wf(&self) -> bool {
        &&& self.spec_offsets().len() == self.spec_rows() + 1
        &&& self.spec_sizes().len() == self.spec_rows()
        &&& self.spec_offsets()[0] == 0
        &&& forall|i: int, j: int| 0 <= i <= j <= self.spec_rows() ==> #[trigger] self.spec_offsets()[i] <= #[trigger] self.spec_offsets()[j]
        &&& self.spec_offsets()[self.spec_rows() as int] == self.spec_entries().len()
    }

    /// Each row has the size requested for it.
    pub open spec fn is_finalized(&self) -> bool {
        forall|i: int| 0 <= i < self.spec_rows() ==> #[trigger] self.spec_offsets()[i + 1] == self.spec_offsets()[i] + self.spec_sizes()[i]
    }

    /// The entries of row `i`.
    pub open spec fn row_view(&self, i: int) -> Seq<MatrixEntry<T>> {
        self.spec_entries().subrange(self.spec_offsets()[i] as int, self.spec_offsets()[i + 1] as int)
    }
}

impl<T: Copy + Default> SparseMatrix<T> {
    /// A matrix of `rows` empty rows.
    pub fn new(rows: usize) -> (r: Self)
        requires
            rows < usize::MAX,
        ensures
            r.wf(),
            r.is_finalized(),
            r.spec_rows() == rows,
            r.spec_entries().len() == 0,
            forall|i: int| 0 <= i < rows ==> #[trigger] r.spec_sizes()[i] == 0,
    {
        Self::with_capacity(rows, 0)
    }

    /// A matrix of `rows` empty rows, with room reserved for `nnz` entries.
    pub fn with_capacity(rows: usize, nnz: usize) -> (r: Self)
        requires
            rows < usize::MAX,
        ensures
            r.wf(),
            r.is_finalized(),
            r.spec_rows() == rows,
            r.spec_entries().len() == 0,
            forall|i: int| 0 <= i < rows ==> #[trigger] r.spec_sizes()[i] == 0,
    {
        let mut offsets: Vec<usize> = Vec::new();
        let mut row_sizes: Vec<usize> = Vec::new();
        let mut i: usize = 0;
        while i < rows
            invariant
                i <= rows,
                offsets@.len() == i,
                row_sizes@.len() == i,
                forall|k: int| 0 <= k < i ==> #[trigger] offsets@[k] == 0,
                forall|k: int| 0 <= k < i ==> #[trigger] row_sizes@[k] == 0,
            decreases rows - i,
        {
            offsets.push(0);
            row_sizes.push(0);
            i += 1;
        }
        offsets.push(0);
        SparseMatrix { rows, entries: Vec::with_capacity(nnz), offsets, row_sizes }
    }

    /// Set the number of entries in a row; call `finalize_structure` before
    /// filling entries.
    pub fn set_row_size(&mut self, row: usize, size: usize)
        requires
            old(self).wf(),
            row < old(self).spec_rows(),
        ensures
            final(self).wf(),
            final(self).spec_rows() == old(self).spec_rows(),
            final(self).spec_sizes() == old(self).spec_sizes().update(row as int, size),
            final(self).spec_entries() == old(self).spec_entries(),
            final(self).spec_offsets() == old(self).spec_offsets(),
    {
        self.row_sizes.set(row, size);
    }

    /// Lay the rows out one after another with their requested sizes: row
    /// `i` starts after the sizes of the rows before it. Entries already
    /// present are kept as far as they fit; new ones are `(0, default)`.
    pub fn finalize_structure(&mut self)
        requires
            old(self).wf(),
            sum_sizes(old(self).spec_sizes(), old(self).spec_rows() as int) <= usize::MAX,
        ensures
            final(self).wf(),
            final(self).is_finalized(),
            final(self).spec_rows() == old(self).spec_rows(),
            final(self).spec_sizes() == old(self).spec_sizes(),
            forall|i: int| 0 <= i <= final(self).spec_rows() ==> #[trigger] final(self).spec_offsets()[i] == sum_sizes(final(self).spec_sizes(), i),
            ({
                let total = sum_sizes(old(self).spec_sizes(), old(self).spec_rows() as int);
                let old_len = old(self).spec_entries().len();
                &&& final(self).spec_entries().len() == total
                &&& forall|e: int| 0 <= e < total && e < old_len ==> #[trigger] final(self).spec_entries()[e] == old(self).spec_entries()[e]
                &&& exists|d: T| #![trigger call_ensures(T::default, (), d)] call_ensures(T::default, (), d)
                    && forall|e: int| old_len <= e < total ==> #[trigger] final(self).spec_entries()[e] == (MatrixEntry { col: 0, value: d })
            }),
    {
        let ghost sizes = self.row_sizes@;
        let mut offset: usize = 0;
        let mut i: usize = 0;
        while i < self.rows
            invariant
                self.rows == old(self).rows,
                self.row_sizes@ == sizes,
                sizes.len() == self.rows,
                self.offsets@.len() == self.rows + 1,
                self.entries@ == old(self).entries@,
                i <= self.rows,
                sum_sizes(sizes, self.rows as int) <= usize::MAX,
                offset == sum_sizes(sizes, i as int),
                forall|k: int| 0 <= k < i ==> #[trigger] self.offsets@[k] == sum_sizes(sizes, k),
            decreases self.rows - i,
        {
            proof {
                lemma_sum_sizes_monotone(sizes, i + 1, self.rows as int);
            }
            self.offsets.set(i, offset);
            offset += self.row_sizes[i];
            i += 1;
        }
        let rows = self.rows;
        self.offsets.set(rows, offset);
        assert(forall|k: int| 0 <= k <= rows ==> #[trigger] self.offsets@[k] == sum_sizes(sizes, k));
        let ghost offs = self.offsets@;
        let d = T::default();
        let ghost old_len = self.entries@.len();
        if self.entries.len() > offset {
            self.entries.truncate(offset);
        } else {
            while self.entries.len() < offset
                invariant
                    old_len <= self.entries@.len() <= offset,
                    self.entries@.subrange(0, old_len as int) == old(self).entries@,
                    call_ensures(T::default, (), d),
                    forall|e: int| old_len <= e < self.entries@.len() ==> #[trigger] self.entries@[e] == (MatrixEntry { col: 0, value: d }),
                    self.offsets@ == offs,
                    self.rows == rows,
                    self.row_sizes@ == sizes,
                decreases offset - self.entries@.len(),
            {
                let ghost before = self.entries@;
                self.entries.push(MatrixEntry::new(0, d));
                proof {
                    assert(self.entries@.subrange(0, old_len as int) =~= before.subrange(0, old_len as int));
                }
            }
        }
        proof {
            assert(self.offsets@ == offs);
            assert forall|i: int, j: int| 0 <= i <= j <= self.rows implies #[trigger] self.offsets@[i] <= #[trigger] self.offsets@[j] by {
                lemma_sum_sizes_monotone(sizes, i, j);
            }
            assert forall|e: int| 0 <= e < offset && e < old_len implies #[trigger] self.entries@[e] == old(self).entries@[e] by {
                if self.entries@.len() > old_len {
                    assert(self.entries@.subrange(0, old_len as int)[e] == self.entries@[e]);
                }
            }
        }
    }

    /// The entries of a row, to fill or change.
    pub fn row_mut(&mut self, row: usize) -> (r: &mut [MatrixEntry<T>])
        requires
            old(self).wf(),
            row < old(self).spec_rows(),
        ensures
            r@ == old(self).row_view(row as int),
            final(self).spec_rows() == old(self).spec_rows(),
            final(self).spec_sizes() == old(self).spec_sizes(),
            final(self).spec_offsets() == old(self).spec_offsets(),
            final(self).spec_entries() == old(self).spec_entries().subrange(0, old(self).spec_offsets()[row as int] as int)
                + final(r)@
                + old(self).spec_entries().subrange(old(self).spec_offsets()[row + 1] as int, old(self).spec_entries().len() as int),
            final(r)@.len() == r@.len() ==> final(self).wf(),
    {
        let start = self.offsets[row];
        let end = self.offsets[row + 1];
        proof {
            assert(self.offsets@[row as int] <= self.offsets@[row + 1]);
            assert(self.offsets@[row + 1] <= self.offsets@[self.rows as int]);
        }
        let s = self.entries.as_mut_slice();
        let (_, rest) = s.split_at_mut(start);
        let (w, _) = rest.split_at_mut(end - start);
        proof {
            assert(w@ =~= old(self).entries@.subrange(start as int, end as int));
        }
        w
    }

    /// The entries of a row.
    pub fn row(&self, row: usize) -> (r: &[MatrixEntry<T>])
        requires
            self.wf(),
            row < self.spec_rows(),
        ensures
            r@ == self.row_view(row as int),
    {
        let start = self.offsets[row];
        let end = self.offsets[row + 1];
        proof {
            assert(self.offsets@[row as int] <= self.offsets@[row + 1]);
            assert(self.offsets@[row + 1] <= self.offsets@[self.rows as int]);
        }
        &self.entries.as_slice()[start..end]
    }

    /// Number of rows.
    pub fn num_rows(&self) -> (r: usize)
        ensures
            r == self.spec_rows(),
    {
        self.rows
    }

    /// Size of a specific row.
    pub fn row_size(&self, row: usize) -> (r: usize)
        requires
            self.wf(),
            row < self.spec_rows(),
        ensures
            r == self.spec_sizes()[row as int],
    {
        self.row_sizes[row]
    }

    /// Total number of entries.
    pub fn nnz(&self) -> (r: usize)
        ensures
            r == self.spec_entries().len(),
    {
        self.entries.len()
    }
}

/// Row sizes are sizes: their running sum never decreases.
proof fn lemma_sum_sizes_monotone(sizes: Seq<usize>, a: int, b: int)
    requires
        0 <= a <= b,
    ensures
        sum_sizes(sizes, a) <= sum_sizes(sizes, b),
    decreases b - a,
{
    if a < b {
        lemma_sum_sizes_monotone(sizes, a, b - 1);
    }
}

impl<T: Default + Add<Output = T> + Mul<Output = T>> SparseMatrix<T> {
    /// `init` plus the products of row `i`'s first `k` entries with the
    /// input values in their columns, summed left to right.
    pub open spec fn row_product(&self, i: int, input: Seq<T>, init: T, k: int) -> T
        decreases k,
    {
        if k <= 0 {
            init
        } else {
            let e = self.row_view(i)[k - 1];
            self.row_product(i, input, init, k - 1).add_spec(e.value.mul_spec(input[e.col as int]))
        }
    }

    /// `v` is row `i` times `input`, summed from a default value of `T`.
    pub open spec fn is_row_times(&self, i: int, input: Seq<T>, v: T) -> bool {
        exists|d: T| #[trigger] call_ensures(T::default, (), d) && v == self.row_product(i, input, d, self.row_view(i).len() as int)
    }

    /// Every product and partial sum of `row_product(i, input, init, k)` is
    /// defined.
    pub open spec fn row_product_defined(&self, i: int, input: Seq<T>, init: T, k: int) -> bool
        decreases k,
    {
        k <= 0 || {
            let e = self.row_view(i)[k - 1];
            &&& self.row_product_defined(i, input, init, k - 1)
            &&& e.value.mul_req(input[e.col as int])
            &&& self.row_product(i, input, init, k - 1).add_req(e.value.mul_spec(input[e.col as int]))
        }
    }

    /// `out` after adding, entry by entry, `value * input[i]` at the column
    /// of each of the first `k` entries of row `i`.
    pub open spec fn scatter_row(&self, i: int, input: Seq<T>, out: Seq<T>, k: int) -> Seq<T>
        decreases k,
    {
        if k <= 0 {
            out
        } else {
            let o = self.scatter_row(i, input, out, k - 1);
            let e = self.row_view(i)[k - 1];
            o.update(e.col as int, o[e.col as int].add_spec(e.value.mul_spec(input[i])))
        }
    }

    /// Every product and sum of `scatter_row(i, input, out, k)` is defined and
    /// every column is in `out`.
    pub open spec fn scatter_row_defined(&self, i: int, input: Seq<T>, out: Seq<T>, k: int) -> bool
        decreases k,
    {
        k <= 0 || {
            let o = self.scatter_row(i, input, out, k - 1);
            let e = self.row_view(i)[k - 1];
            &&& self.scatter_row_defined(i, input, out, k - 1)
            &&& e.col < out.len()
            &&& e.value.mul_req(input[i])
            &&& o[e.col as int].add_req(e.value.mul_spec(input[i]))
        }
    }

    /// `out` after scattering the first `n` rows, in order.
    pub open spec fn scatter_rows(&self, input: Seq<T>, out: Seq<T>, n: int) -> Seq<T>
        decreases n,
    {
        if n <= 0 {
            out
        } else {
            let o = self.scatter_rows(input, out, n - 1);
            self.scatter_row(n - 1, input, o, self.row_view(n - 1).len() as int)
        }
    }

    /// Every step of `scatter_rows(input, out, n)` is defined.
    pub open spec fn scatter_rows_defined(&self, input: Seq<T>, out: Seq<T>, n: int) -> bool
        decreases n,
    {
        n <= 0 || {
            &&& self.scatter_rows_defined(input, out, n - 1)
            &&& self.scatter_row_defined(n - 1, input, self.scatter_rows(input, out, n - 1), self.row_view(n - 1).len() as int)
        }
    }
}

/// Store `f(i)` into `output[i]` for every index, the calls spread over
/// rayon's thread pool (`par_iter_mut().enumerate().for_each`).
///
/// Trusted: rayon's parallel iterator visits each element of the slice
/// exactly once, with its index, and the closure writes `f`'s result there.
#[verifier::external_body]
fn par_fill<T: Send, F: Fn(usize) -> T + Sync + Send>(output: &mut [T], f: F)
    requires
        forall|i: usize| i < old(output)@.len() ==> #[trigger] call_requires(f, (i,)),
    ensures
        final(output)@.len() == old(output)@.len(),
        forall|i: int| 0 <= i < final(output)@.len() ==> call_ensures(f, (i as usize,), #[trigger] final(output)@[i]),
{
    output.par_iter_mut().enumerate().for_each(|(i, out)| *out = f(i));
}

/// Scattering never changes the length of the output.
proof fn lemma_scatter_row_len<T: Default + Add<Output = T> + Mul<Output = T>>(m: SparseMatrix<T>, i: int, input: Seq<T>, out: Seq<T>, k: int)
    requires
        m.scatter_row_defined(i, input, out, k),
    ensures
        m.scatter_row(i, input, out, k).len() == out.len(),
    decreases k,
{
    if k > 0 {
        lemma_scatter_row_len(m, i, input, out, k - 1);
    }
}

proof fn lemma_scatter_rows_defined_prefix<T: Default + Add<Output = T> + Mul<Output = T>>(m: SparseMatrix<T>, input: Seq<T>, out: Seq<T>, a: int, b: int)
    requires
        a <= b,
        m.scatter_rows_defined(input, out, b),
    ensures
        m.scatter_rows_defined(input, out, a),
    decreases b - a,
{
    if a < b {
        lemma_scatter_rows_defined_prefix(m, input, out, a, b - 1);
    }
}

proof fn lemma_scatter_row_defined_prefix<T: Default + Add<Output = T> + Mul<Output = T>>(m: SparseMatrix<T>, i: int, input: Seq<T>, out: Seq<T>, a: int, b: int)
    requires
        a <= b,
        m.scatter_row_defined(i, input, out, b),
    ensures
        m.scatter_row_defined(i, input, out, a),
    decreases b - a,
{
    if a < b {
        lemma_scatter_row_defined_prefix(m, i, input, out, a, b - 1);
    }
}

proof fn lemma_row_product_defined_prefix<T: Default + Add<Output = T> + Mul<Output = T>>(m: SparseMatrix<T>, i: int, input: Seq<T>, init: T, a: int, b: int)
    requires
        a <= b,
        m.row_product_defined(i, input, init, b),
    ensures
        m.row_product_defined(i, input, init, a),
    decreases b - a,
{
    if a < b {
        lemma_row_product_defined_prefix(m, i, input, init, a, b - 1);
    }
}

impl<T: Copy + Default + Add<Output = T> + Mul<Output = T>> SparseMatrix<T> {
    /// Row `i` times `input`: the sum over the row's entries of
    /// `value * input[col]`, starting from `T::default()`.
    pub fn row_times(&self, i: usize, input: &[T]) -> (r: T)
        requires
            self.wf(),
            i < self.spec_rows(),
            T::obeys_add_spec(),
            T::obeys_mul_spec(),
            forall|k: int| 0 <= k < self.row_view(i as int).len() ==> (#[trigger] self.row_view(i as int)[k]).col < input@.len(),
            forall|d: T| #[trigger] call_ensures(T::default, (), d) ==> self.row_product_defined(i as int, input@, d, self.row_view(i as int).len() as int),
        ensures
            self.is_row_times(i as int, input@, r),
    {
        let row = self.row(i);
        let d = T::default();
        let mut sum = d;
        let mut k: usize = 0;
        while k < row.len()
            invariant
                T::obeys_add_spec(),
                T::obeys_mul_spec(),
                row@ == self.row_view(i as int),
                k <= row@.len(),
                forall|j: int| 0 <= j < row@.len() ==> (#[trigger] row@[j]).col < input@.len(),
                call_ensures(T::default, (), d),
                self.row_product_defined(i as int, input@, d, row@.len() as int),
                sum == self.row_product(i as int, input@, d, k as int),
            decreases row@.len() - k,
        {
            proof {
                lemma_row_product_defined_prefix(*self, i as int, input@, d, k + 1, row@.len() as int);
            }
            let entry = row[k];
            sum = sum + entry.value * input[entry.col];
            k += 1;
        }
        sum
    }

    /// Transpose times vector: `output = self^T * input`, filling `output`
    /// with `T::default()` first and then adding, row by row and entry by
    /// entry, `value * input[row]` at each entry's column.
    pub fn multiply_transpose_vector(&self, input: &[T], output: &mut [T])
        requires
            self.wf(),
            T::obeys_add_spec(),
            T::obeys_mul_spec(),
            self.spec_rows() <= input@.len(),
            forall|d: T| #[trigger] call_ensures(T::default, (), d) ==>
                self.scatter_rows_defined(input@, Seq::new(old(output)@.len(), |j: int| d), self.spec_rows() as int),
        ensures
            exists|d: T| #[trigger] call_ensures(T::default, (), d) &&
                final(output)@ == self.scatter_rows(input@, Seq::new(old(output)@.len(), |j: int| d), self.spec_rows() as int),
    {
        let d = T::default();
        let n = output.len();
        let mut j: usize = 0;
        while j < n
            invariant
                j <= n,
                output@.len() == n,
                forall|k: int| 0 <= k < j ==> #[trigger] output@[k] == d,
            decreases n - j,
        {
            output[j] = d;
            j += 1;
        }
        let ghost out0 = output@;
        proof {
            assert(out0 =~= Seq::new(old(output)@.len(), |k: int| d));
        }
        let mut i: usize = 0;
        while i < self.rows
            invariant
                self.wf(),
                T::obeys_add_spec(),
                T::obeys_mul_spec(),
                self.spec_rows() <= input@.len(),
                i <= self.spec_rows(),
                self.scatter_rows_defined(input@, out0, self.spec_rows() as int),
                output@ == self.scatter_rows(input@, out0, i as int),
            decreases self.spec_rows() - i,
        {
            proof {
                lemma_scatter_rows_defined_prefix(*self, input@, out0, i + 1, self.spec_rows() as int);
            }
            let val = input[i];
            let row = self.row(i);
            let ghost start = output@;
            let mut k: usize = 0;
            while k < row.len()
                invariant
                    T::obeys_add_spec(),
                    T::obeys_mul_spec(),
                    row@ == self.row_view(i as int),
                    i < input@.len(),
                    val == input@[i as int],
                    k <= row@.len(),
                    self.scatter_row_defined(i as int, input@, start, row@.len() as int),
                    output@ == self.scatter_row(i as int, input@, start, k as int),
                decreases row@.len() - k,
            {
                proof {
                    lemma_scatter_row_defined_prefix(*self, i as int, input@, start, k + 1, row@.len() as int);
                    lemma_scatter_row_defined_prefix(*self, i as int, input@, start, k as int, row@.len() as int);
                    lemma_scatter_row_len(*self, i as int, input@, start, k as int);
                }
                let entry = row[k];
                output[entry.col] = output[entry.col] + entry.value * val;
                k += 1;
            }
            i += 1;
        }
    }

    /// Matrix-vector multiply: `output[i]` = row `i` times `input`, each
    /// summed from `T::default()`; the rows are spread over threads.
    pub fn multiply_vector(&self, input: &[T], output: &mut [T])
        where
            T: Send + Sync,
        requires
            self.wf(),
            T::obeys_add_spec(),
            T::obeys_mul_spec(),
            old(output)@.len() <= self.spec_rows(),
            forall|i: int, k: int| 0 <= i < old(output)@.len() && 0 <= k < self.row_view(i).len() ==> (#[trigger] self.row_view(i)[k]).col < input@.len(),
            forall|i: int, d: T| 0 <= i < old(output)@.len() && call_ensures(T::default, (), d) ==> #[trigger] self.row_product_defined(i, input@, d, self.row_view(i).len() as int),
        ensures
            final(output)@.len() == old(output)@.len(),
            forall|i: int| 0 <= i < final(output)@.len() ==> self.is_row_times(i, input@, #[trigger] final(output)@[i]),
    {
        let n = output.len();
        let f = |i: usize| -> (r: T)
            requires
                i < n,
            ensures
                self.is_row_times(i as int, input@, r),
        {
            self.row_times(i, input)
        };
        par_fill(output, f);
        proof {
            assert forall|i: int| 0 <= i < output@.len() implies self.is_row_times(i, input@, #[trigger] output@[i]) by {
                assert(call_ensures(f, (i as usize,), output@[i]));
            }
        }
    }
}

impl<T: Copy + Mul<Output = T>> SparseMatrix<T> {
    /// Every entry value may be multiplied by `s`.
    pub open spec fn scale_defined(&self, s: T) -> bool {
        forall|e: int| 0 <= e < self.spec_entries().len() ==> (#[trigger] self.spec_entries()[e]).value.mul_req(s)
    }

    /// `new` is `old` with every entry value multiplied by `s`.
    pub open spec fn is_scaled(old: Self, new: Self, s: T) -> bool {
        &&& new.spec_rows() == old.spec_rows()
        &&& new.spec_sizes() == old.spec_sizes()
        &&& new.spec_offsets() == old.spec_offsets()
        &&& new.spec_entries().len() == old.spec_entries().len()
        &&& forall|e: int| 0 <= e < new.spec_entries().len() ==> (#[trigger] new.spec_entries()[e]).col == old.spec_entries()[e].col
        &&& T::obeys_mul_spec() ==> forall|e: int| 0 <= e < new.spec_entries().len()
            ==> (#[trigger] new.spec_entries()[e]).value == old.spec_entries()[e].value.mul_spec(s)
    }

    /// Scale all entries by a scalar.
    pub fn scale(&mut self, s: T)
        requires
            old(self).scale_defined(s),
        ensures
            Self::is_scaled(*old(self), *final(self), s),
    {
        let n = self.entries.len();
        let mut k: usize = 0;
        while k < n
            invariant
                k <= n,
                n == old(self).entries@.len(),
                self.rows == old(self).rows,
                self.offsets == old(self).offsets,
                self.row_sizes == old(self).row_sizes,
                self.entries@.len() == n,
                old(self).scale_defined(s),
                forall|e: int| k <= e < n ==> #[trigger] self.entries@[e] == old(self).entries@[e],
                forall|e: int| 0 <= e < k ==> (#[trigger] self.entries@[e]).col == old(self).entries@[e].col,
                T::obeys_mul_spec() ==> forall|e: int| 0 <= e < k ==> (#[trigger] self.entries@[e]).value == old(self).entries@[e].value.mul_spec(s),
            decreases n - k,
        {
            let mut entry = self.entries[k];
            proof {
                assert(old(self).spec_entries()[k as int].value.mul_req(s));
            }
            entry.value = entry.value * s;
            self.entries.set(k, entry);
            k += 1;
        }
    }
}

impl<T: Copy + Default> SparseMatrix<T> {
    /// The `dim` by `dim` identity: row `i` holds the single entry
    /// `(i, one)`.
    pub fn identity(dim: usize, one: T) -> (r: Self)
        requires
            dim < usize::MAX,
        ensures
            r.wf(),
            r.is_finalized(),
            r.spec_rows() == dim,
            r.spec_entries().len() == dim,
            forall|i: int| 0 <= i < dim ==> #[trigger] r.spec_sizes()[i] == 1,
            forall|i: int| 0 <= i < dim ==> #[trigger] r.row_view(i) == seq![MatrixEntry { col: i as usize, value: one }],
    {
        let mut m = SparseMatrix::new(dim);
        let mut i: usize = 0;
        while i < dim
            invariant
                i <= dim,
                m.wf(),
                m.spec_rows() == dim,
                m.spec_entries().len() == 0,
                forall|k: int| 0 <= k < i ==> #[trigger] m.spec_sizes()[k] == 1,
                forall|k: int| i <= k < dim ==> #[trigger] m.spec_sizes()[k] == 0,
            decreases dim - i,
        {
            m.set_row_size(i, 1);
            i += 1;
        }
        proof {
            lemma_sum_unit_sizes(m.spec_sizes(), dim as int);
        }
        m.finalize_structure();
        let mut i: usize = 0;
        while i < dim
            invariant
                i <= dim,
                m.wf(),
                m.is_finalized(),
                m.spec_rows() == dim,
                m.spec_entries().len() == dim,
                forall|k: int| 0 <= k < dim ==> #[trigger] m.spec_sizes()[k] == 1,
                forall|k: int| 0 <= k <= dim ==> #[trigger] m.spec_offsets()[k] == k,
                forall|k: int| 0 <= k < i ==> #[trigger] m.spec_entries()[k] == (MatrixEntry { col: k as usize, value: one }),
            decreases dim - i,
        {
            m.entries.set(i, MatrixEntry::new(i, one));
            i += 1;
        }
        proof {
            assert forall|k: int| 0 <= k < dim implies #[trigger] m.row_view(k) == seq![MatrixEntry { col: k as usize, value: one }] by {
                assert(m.row_view(k) =~= seq![MatrixEntry { col: k as usize, value: one }]);
            }
        }
        m
    }
}

/// Rows of size one sum to their number.
proof fn lemma_sum_unit_sizes(sizes: Seq<usize>, n: int)
    requires
        0 <= n <= sizes.len(),
        forall|k: int| 0 <= k < n ==> #[trigger] sizes[k] == 1,
    ensures
        forall|k: int| 0 <= k <= n ==> #[trigger] sum_sizes(sizes, k) == k,
    decreases n,
{
    if n > 0 {
        lemma_sum_unit_sizes(sizes, n - 1);
        assert forall|k: int| 0 <= k <= n implies #[trigger] sum_sizes(sizes, k) == k by {
            if k == n {
                assert(sum_sizes(sizes, n) == sum_sizes(sizes, n - 1) + sizes[n - 1]);
            }
        }
    }
}

/// The rows of `m` are those of the `n` by `n` identity with unit `1`.
pub open spec fn is_unit_identity(m: SparseMatrix<i64>, n: nat) -> bool {
    &&& m.spec_rows() == n
    &&& forall|k: int| 0 <= k < n ==> #[trigger] m.row_view(k) == seq![MatrixEntry { col: k as usize, value: 1i64 }]
}

/// The identity leaves a vector unchanged: row `i` of the integer identity
/// times `x` is `x[i]`.
pub proof fn lemma_identity_row_times(m: SparseMatrix<i64>, x: Seq<i64>, i: int, v: i64)
    requires
        is_unit_identity(m, x.len()),
        0 <= i < x.len(),
        m.is_row_times(i, x, v),
    ensures
        v == x[i],
{
    let d = choose|d: i64| #[trigger] call_ensures(i64::default, (), d) && v == m.row_product(i, x, d, m.row_view(i).len() as int);
    assert(m.row_view(i) == seq![MatrixEntry { col: i as usize, value: 1i64 }]);
    assert(d == 0);
    assert(m.row_product(i, x, d, 0) == d);
}

/// The transpose of the identity leaves a vector unchanged too: scattering
/// the rows of the integer identity over a zero vector gives `x` back.
pub proof fn lemma_identity_transpose_times(m: SparseMatrix<i64>, x: Seq<i64>, out: Seq<i64>)
    requires
        is_unit_identity(m, x.len()),
        exists|d: i64| #[trigger] call_ensures(i64::default, (), d) &&
            out == m.scatter_rows(x, Seq::new(x.len(), |j: int| d), x.len() as int),
    ensures
        out == x,
{
    let d = choose|d: i64| #[trigger] call_ensures(i64::default, (), d) &&
        out == m.scatter_rows(x, Seq::new(x.len(), |j: int| d), x.len() as int);
    assert(d == 0);
    let z = Seq::new(x.len(), |j: int| d);
    lemma_identity_scatter_prefix(m, x, z, x.len() as int);
    assert(out =~= x);
}

/// After scattering the first `n` identity rows over zeros, the vector holds
/// `x` below `n` and zeros from `n` on.
proof fn lemma_identity_scatter_prefix(m: SparseMatrix<i64>, x: Seq<i64>, z: Seq<i64>, n: int)
    requires
        is_unit_identity(m, x.len()),
        z.len() == x.len(),
        forall|j: int| 0 <= j < z.len() ==> #[trigger] z[j] == 0,
        0 <= n <= x.len(),
    ensures
        m.scatter_rows(x, z, n).len() == x.len(),
        forall|j: int| 0 <= j < n ==> #[trigger] m.scatter_rows(x, z, n)[j] == x[j],
        forall|j: int| n <= j < x.len() ==> #[trigger] m.scatter_rows(x, z, n)[j] == 0,
    decreases n,
{
    if n > 0 {
        lemma_identity_scatter_prefix(m, x, z, n - 1);
        let o = m.scatter_rows(x, z, n - 1);
        assert(m.row_view(n - 1) == seq![MatrixEntry { col: (n - 1) as usize, value: 1i64 }]);
        assert(m.scatter_row(n - 1, x, o, 0) == o);
        let e = MatrixEntry { col: (n - 1) as usize, value: 1i64 };
        assert(m.scatter_row(n - 1, x, o, 1) == o.update(n - 1, o[n - 1].add_spec(e.value.mul_spec(x[n - 1]))));
        assert(o[n - 1].add_spec(e.value.mul_spec(x[n - 1])) == x[n - 1]);
        assert(m.scatter_rows(x, z, n) == m.scatter_row(n - 1, x, o, 1));
    }
}

/// `matrix * s` scales every entry of the matrix by `s`.
impl<T: Copy + Mul<Output = T>> Mul<T> for SparseMatrix<T> {
    type Output = SparseMatrix<T>;

    fn mul(self, s: T) -> (r: SparseMatrix<T>)
        ensures
            SparseMatrix::<T>::is_scaled(self, r, s),
    {
        let mut result = self;
        result.scale(s);
        result
    }
}

/// Scaling needs every product `value * s` to be defined. The result is
/// described by `mul`'s own `ensures` (`is_scaled`), not by a spec value:
/// two matrices with equal entries need not be equal values.
impl<T: Copy + Mul<Output = T>> vstd::std_specs::ops::MulSpecImpl<T> for SparseMatrix<T> {
    open spec fn obeys_mul_spec() -> bool {
        false
    }

    open spec fn mul_req(self, s: T) -> bool {
        self.scale_defined(s)
    }

    open spec fn mul_spec(self, s: T) -> SparseMatrix<T> {
        self
    }
}

/// Holds of the `(column, value)` pairs in column `c`.
pub open spec fn in_col<T>(c: usize) -> spec_fn((usize, T)) -> bool {
    |e: (usize, T)| e.0 == c
}

/// `init` plus the values of `s`, summed left to right.
pub open spec fn sum_values<T: Add<Output = T>>(init: T, s: Seq<(usize, T)>) -> T
    decreases s.len(),
{
    if s.len() == 0 {
        init
    } else {
        sum_values(init, s.drop_last()).add_spec(s.last().1)
    }
}

/// Every partial sum of `sum_values(init, s)` is defined.
pub open spec fn sum_defined<T: Add<Output = T>>(init: T, s: Seq<(usize, T)>) -> bool
    decreases s.len(),
{
    s.len() == 0 || (sum_defined(init, s.drop_last()) && sum_values(init, s.drop_last()).add_req(s.last().1))
}

/// Some of the first `j` pairs of `row` is in column `c`.
pub open spec fn col_among<T>(row: Seq<(usize, T)>, j: int, c: usize) -> bool {
    exists|i: int| 0 <= i < j && #[trigger] row[i].0 == c
}

/// Some entry of `out` is in column `c`.
pub open spec fn col_in_entries<T>(out: Seq<MatrixEntry<T>>, c: usize) -> bool {
    exists|k: int| 0 <= k < out.len() && #[trigger] out[k].col == c
}

/// `out` is `row` with the pairs of each column merged into one entry: the
/// columns of `row`, each once, in increasing order, each with `init` plus
/// the values in that column in their order in `row`.
pub open spec fn is_merged_row<T: Add<Output = T>>(row: Seq<(usize, T)>, out: Seq<MatrixEntry<T>>, init: T) -> bool {
    &&& forall|a: int, b: int| 0 <= a < b < out.len() ==> #[trigger] out[a].col < #[trigger] out[b].col
    &&& forall|k: int| 0 <= k < out.len() ==> #[trigger] col_among(row, row.len() as int, out[k].col)
    &&& forall|j: int| 0 <= j < row.len() ==> #[trigger] col_in_entries(out, row[j].0)
    &&& forall|k: int| 0 <= k < out.len() ==> (#[trigger] out[k]).value == sum_values(init, row.filter(in_col(out[k].col)))
}

/// Sort `row` by column with std's `sort_by_key`.
///
/// Trusted: std documents `slice::sort_by_key` as a stable sort, so the
/// result is ordered by column, is a permutation of the input, and keeps the
/// pairs of each column in their input order; that is all this states.
#[verifier::external_body]
fn sort_by_column<T>(row: &mut Vec<(usize, T)>)
    ensures
        final(row)@.len() == old(row)@.len(),
        sorted_by_col(final(row)@),
        forall|c: usize| #[trigger] final(row)@.filter(in_col(c)) == old(row)@.filter(in_col(c)),
{
    row.sort_by_key(|e| e.0);
}

proof fn lemma_filter_keeps_all<T>(s: Seq<(usize, T)>, p: spec_fn((usize, T)) -> bool)
    requires
        forall|i: int| 0 <= i < s.len() ==> p(#[trigger] s[i]),
    ensures
        s.filter(p) == s,
    decreases s.len(),
{
    reveal(Seq::filter);
    if s.len() > 0 {
        lemma_filter_keeps_all(s.drop_last(), p);
        assert(s.drop_last().push(s.last()) =~= s);
    }
}

proof fn lemma_filter_keeps_none<T>(s: Seq<(usize, T)>, p: spec_fn((usize, T)) -> bool)
    requires
        forall|i: int| 0 <= i < s.len() ==> !p(#[trigger] s[i]),
    ensures
        s.filter(p) == Seq::<(usize, T)>::empty(),
    decreases s.len(),
{
    reveal(Seq::filter);
    if s.len() > 0 {
        lemma_filter_keeps_none(s.drop_last(), p);
    }
}

proof fn lemma_sum_defined_prefix<T: Add<Output = T>>(init: T, s: Seq<(usize, T)>, n: int)
    requires
        0 <= n <= s.len(),
        sum_defined(init, s),
    ensures
        sum_defined(init, s.subrange(0, n)),
    decreases s.len() - n,
{
    if n < s.len() {
        assert(s.drop_last() =~= s.subrange(0, s.len() - 1));
        lemma_sum_defined_prefix(init, s.drop_last(), n);
        assert(s.drop_last().subrange(0, n) =~= s.subrange(0, n));
    } else {
        assert(s.subrange(0, n) =~= s);
    }
}

/// The row is ordered by column.
#[verifier::opaque]
pub open spec fn sorted_by_col<T>(row: Seq<(usize, T)>) -> bool {
    forall|a: int, b: int| 0 <= a <= b < row.len() ==> (#[trigger] row[a]).0 <= (#[trigger] row[b]).0
}

proof fn lemma_sorted_at<T>(row: Seq<(usize, T)>, a: int, b: int)
    requires
        sorted_by_col(row),
        0 <= a <= b < row.len(),
    ensures
        row[a].0 <= row[b].0,
{
    reveal(sorted_by_col);
}

/// In a row ordered by column, a run of pairs in column `c` that starts
/// where the column starts is a prefix of the row's pairs in column `c`;
/// if the column also ends with the run, it is all of them.
#[verifier::spinoff_prover]
proof fn lemma_column_run<T>(row: Seq<(usize, T)>, j0: int, k: int, c: usize)
    requires
        sorted_by_col(row),
        0 <= j0 <= k <= row.len(),
        forall|i: int| j0 <= i < k ==> (#[trigger] row[i]).0 == c,
        j0 > 0 ==> row[j0 - 1].0 < c,
    ensures
        row.filter(in_col::<T>(c)).len() >= k - j0,
        row.filter(in_col::<T>(c)).subrange(0, k - j0) == row.subrange(j0, k),
        j0 < k && (k == row.len() || row[k].0 != c) ==> row.filter(in_col::<T>(c)) == row.subrange(j0, k),
{
    let p = in_col::<T>(c);
    let pre = row.subrange(0, j0);
    let mid = row.subrange(j0, k);
    let post = row.subrange(k, row.len() as int);
    assert(row =~= pre + mid + post);
    Seq::filter_distributes_over_add(pre + mid, post, p);
    Seq::filter_distributes_over_add(pre, mid, p);
    assert forall|i: int| 0 <= i < pre.len() implies !p(#[trigger] pre[i]) by {
        assert(pre[i] == row[i]);
        lemma_sorted_at(row, i, j0 - 1);
    }
    lemma_filter_keeps_none(pre, p);
    lemma_filter_keeps_all(mid, p);
    assert(pre.filter(p) + mid.filter(p) =~= mid);
    let f = row.filter(p);
    assert(f == mid + post.filter(p));
    assert(f.len() == mid.len() + post.filter(p).len());
    assert(f.subrange(0, k - j0) =~= mid);
    if j0 < k && (k == row.len() || row[k].0 != c) {
        assert forall|i: int| 0 <= i < post.len() implies !p(#[trigger] post[i]) by {
            assert(post[i] == row[k + i]);
            lemma_sorted_at(row, k, k + i);
            assert(row[k - 1].0 == c);
            lemma_sorted_at(row, k - 1, k);
        }
        lemma_filter_keeps_none(post, p);
        assert(f =~= mid);
    }
}

/// `out` merges the first `j` pairs of `row`, which end a column: its
/// columns are increasing and are those of the first `j` pairs, and each
/// value sums all of the row's pairs in its column.
#[verifier::opaque]
pub open spec fn merged_prefix<T: Add<Output = T>>(row: Seq<(usize, T)>, out: Seq<MatrixEntry<T>>, init: T, j: int) -> bool {
    &&& forall|a: int, b: int| 0 <= a < b < out.len() ==> #[trigger] out[a].col < #[trigger] out[b].col
    &&& forall|k: int| 0 <= k < out.len() ==> #[trigger] col_among(row, j, out[k].col)
    &&& forall|i: int| 0 <= i < j ==> #[trigger] col_in_entries(out, row[i].0)
    &&& forall|k: int| 0 <= k < out.len() ==> (#[trigger] out[k]).value == sum_values(init, row.filter(in_col(out[k].col)))
    &&& j > 0 ==> out.len() > 0 && out[out.len() - 1].col == row[j - 1].0
}

/// Appending the merged entry of the column run `[j0, j)` extends a merged
/// prefix up to `j0` to one up to `j`.
proof fn lemma_merged_prefix_step<T: Add<Output = T>>(row: Seq<(usize, T)>, out: Seq<MatrixEntry<T>>, init: T, j0: int, j: int)
    requires
        sorted_by_col(row),
        0 <= j0 < j <= row.len(),
        merged_prefix(row, out, init, j0),
        j0 > 0 ==> row[j0 - 1].0 < row[j0].0,
        forall|i: int| j0 <= i < j ==> (#[trigger] row[i]).0 == row[j0].0,
        j < row.len() ==> row[j].0 != row[j0].0,
    ensures
        merged_prefix(row, out.push(MatrixEntry { col: row[j0].0, value: sum_values(init, row.subrange(j0, j)) }), init, j),
        j < row.len() ==> row[j - 1].0 < row[j].0,
{
    reveal(merged_prefix);
    let col = row[j0].0;
    let e = MatrixEntry { col: col, value: sum_values(init, row.subrange(j0, j)) };
    let new = out.push(e);
    lemma_column_run(row, j0, j, col);
    if j < row.len() {
        assert(row[j - 1].0 == col);
        lemma_sorted_at(row, j - 1, j);
    }
    assert forall|k: int| 0 <= k < new.len() implies #[trigger] col_among(row, j, new[k].col) by {
        if k < out.len() {
            assert(new[k] == out[k]);
            assert(col_among(row, j0, out[k].col));
            let i = choose|i: int| 0 <= i < j0 && #[trigger] row[i].0 == out[k].col;
            assert(row[i].0 == new[k].col);
        } else {
            assert(row[j0].0 == new[k].col);
        }
    }
    assert forall|i: int| 0 <= i < j implies #[trigger] col_in_entries(new, row[i].0) by {
        if i < j0 {
            assert(col_in_entries(out, row[i].0));
            let k = choose|k: int| 0 <= k < out.len() && #[trigger] out[k].col == row[i].0;
            assert(new[k] == out[k]);
        } else {
            assert(new[out.len() as int].col == row[i].0);
        }
    }
    assert forall|a: int, b: int| 0 <= a < b < new.len() implies #[trigger] new[a].col < #[trigger] new[b].col by {
        if b == out.len() {
            assert(col_among(row, j0, out[0].col));
            assert(j0 > 0);
            assert(out[out.len() - 1].col == row[j0 - 1].0);
            if a < out.len() - 1 {
                assert(out[a].col < out[out.len() - 1].col);
            }
        } else {
            assert(new[a] == out[a] && new[b] == out[b]);
        }
    }
    assert forall|k: int| 0 <= k < new.len() implies (#[trigger] new[k]).value == sum_values(init, row.filter(in_col(new[k].col))) by {
        if k < out.len() {
            assert(new[k] == out[k]);
        }
    }
}

/// Merge the pairs of a row sorted by column: one entry per column, its
/// value summed from `T::default()` in the order of the row.
fn merge_sorted_row<T: Copy + Default + Add<Output = T>>(row: &Vec<(usize, T)>) -> (out: Vec<MatrixEntry<T>>)
    requires
        T::obeys_add_spec(),
        sorted_by_col(row@),
        forall|c: usize, d: T| call_ensures(T::default, (), d) ==> #[trigger] sum_defined(d, row@.filter(in_col::<T>(c))),
    ensures
        out@.len() <= row@.len(),
        exists|d: T| #[trigger] call_ensures(T::default, (), d) && is_merged_row(row@, out@, d),
{
    let d = T::default();
    let mut out: Vec<MatrixEntry<T>> = Vec::new();
    let mut j: usize = 0;
    let n = row.len();
    proof {
        reveal(merged_prefix);
    }
    while j < n
        invariant
            T::obeys_add_spec(),
            n == row@.len(),
            j <= n,
            out@.len() <= j,
            call_ensures(T::default, (), d),
            sorted_by_col(row@),
            forall|c: usize| #[trigger] sum_defined(d, row@.filter(in_col::<T>(c))),
            j > 0 && j < n ==> row@[j - 1].0 < row@[j as int].0,
            merged_prefix(row@, out@, d, j as int),
        decreases n - j,
    {
        let col = row[j].0;
        let j0 = j;
        let mut s = d;
        proof {
            assert(row@.subrange(j0 as int, j0 as int) =~= Seq::<(usize, T)>::empty());
        }
        while j < n && row[j].0 == col
            invariant
                T::obeys_add_spec(),
                n == row@.len(),
                j0 < n,
                j0 <= j <= n,
                col == row@[j0 as int].0,
                sorted_by_col(row@),
                j0 > 0 ==> row@[j0 - 1].0 < col,
                forall|i: int| j0 <= i < j ==> (#[trigger] row@[i]).0 == col,
                sum_defined(d, row@.filter(in_col::<T>(col))),
                s == sum_values(d, row@.subrange(j0 as int, j as int)),
            decreases n - j,
        {
            proof {
                lemma_column_run(row@, j0 as int, j + 1, col);
                lemma_sum_defined_prefix(d, row@.filter(in_col::<T>(col)), (j + 1 - j0) as int);
                assert(row@.subrange(j0 as int, j + 1).drop_last() =~= row@.subrange(j0 as int, j as int));
            }
            s = s + row[j].1;
            j += 1;
        }
        proof {
            lemma_merged_prefix_step(row@, out@, d, j0 as int, j as int);
        }
        out.push(MatrixEntry::new(col, s));
    }
    proof {
        reveal(merged_prefix);
        assert(is_merged_row(row@, out@, d));
    }
    out
}

/// A column occurs among the pairs of a row exactly when the row has pairs
/// in it.
proof fn lemma_col_among_filter<T>(row: Seq<(usize, T)>, c: usize)
    ensures
        col_among(row, row.len() as int, c) <==> row.filter(in_col::<T>(c)).len() > 0,
    decreases row.len(),
{
    reveal(Seq::filter);
    if row.len() > 0 {
        let init = row.drop_last();
        lemma_col_among_filter(init, c);
        if col_among(init, init.len() as int, c) {
            let i = choose|i: int| 0 <= i < init.len() && #[trigger] init[i].0 == c;
            assert(row[i].0 == c);
        }
        if col_among(row, row.len() as int, c) && row.last().0 != c {
            let i = choose|i: int| 0 <= i < row.len() && #[trigger] row[i].0 == c;
            assert(init[i].0 == c);
        }
        init.lemma_filter_len(in_col::<T>(c));
    }
}

/// Merging depends on a row only through its pairs in each column, in order.
proof fn lemma_merged_same_columns<T: Add<Output = T>>(a: Seq<(usize, T)>, b: Seq<(usize, T)>, out: Seq<MatrixEntry<T>>, init: T)
    requires
        is_merged_row(a, out, init),
        forall|c: usize| #[trigger] a.filter(in_col::<T>(c)) == b.filter(in_col::<T>(c)),
    ensures
        is_merged_row(b, out, init),
{
    assert forall|k: int| 0 <= k < out.len() implies #[trigger] col_among(b, b.len() as int, out[k].col) by {
        lemma_col_among_filter(a, out[k].col);
        lemma_col_among_filter(b, out[k].col);
        assert(a.filter(in_col::<T>(out[k].col)) == b.filter(in_col::<T>(out[k].col)));
    }
    assert forall|j: int| 0 <= j < b.len() implies #[trigger] col_in_entries(out, b[j].0) by {
        lemma_col_among_filter(a, b[j].0);
        lemma_col_among_filter(b, b[j].0);
        assert(a.filter(in_col::<T>(b[j].0)) == b.filter(in_col::<T>(b[j].0)));
        assert(col_among(b, b.len() as int, b[j].0));
        let i = choose|i: int| 0 <= i < a.len() && #[trigger] a[i].0 == b[j].0;
        assert(col_in_entries(out, a[i].0));
    }
}

/// `out` merges `list` from a default value of `T`.
pub open spec fn merges_into<T: Default + Add<Output = T>>(list: Seq<(usize, T)>, out: Seq<MatrixEntry<T>>) -> bool {
    exists|d: T| #[trigger] call_ensures(T::default, (), d) && is_merged_row(list, out, d)
}

/// Sum of the lengths of the first `n` lists.
pub open spec fn total_len<A>(rows: Seq<Vec<A>>, n: int) -> int
    decreases n,
{
    if n <= 0 { 0 } else { total_len(rows, n - 1) + rows[n - 1]@.len() }
}

impl<T: Copy + Default + Add<Output = T>> SparseMatrix<T> {
    /// Assemble a matrix from unordered `(column, value)` lists, one per
    /// row: each row gets one entry per column that occurs in its list, in
    /// increasing column order, its value summed from `T::default()` over the
    /// list's values in that column in list order.
    pub fn from_row_lists(rows: Vec<Vec<(usize, T)>>) -> (r: Self)
        requires
            T::obeys_add_spec(),
            rows@.len() < usize::MAX,
            total_len(rows@, rows@.len() as int) <= usize::MAX,
            forall|i: int, c: usize, d: T| 0 <= i < rows@.len() && call_ensures(T::default, (), d)
                ==> #[trigger] sum_defined(d, rows@[i]@.filter(in_col::<T>(c))),
        ensures
            r.wf(),
            r.is_finalized(),
            r.spec_rows() == rows@.len(),
            forall|i: int| 0 <= i < rows@.len() ==> #[trigger] r.spec_sizes()[i] == r.row_view(i).len(),
            forall|i: int| 0 <= i < rows@.len() ==> #[trigger] merges_into(rows@[i]@, r.row_view(i)),
    {
        let n = rows.len();
        let ghost rows_in = rows@;
        let mut rows = rows;
        let mut merged: Vec<Vec<MatrixEntry<T>>> = Vec::new();
        let mut nnz: usize = 0;
        let mut i: usize = 0;
        while i < n
            invariant
                T::obeys_add_spec(),
                n == rows_in.len(),
                rows@.len() == n,
                i <= n,
                merged@.len() == i,
                total_len(rows_in, n as int) <= usize::MAX,
                nnz == total_len(merged@, i as int),
                nnz <= total_len(rows_in, i as int),
                forall|k: int| i <= k < n ==> #[trigger] rows@[k] == rows_in[k],
                forall|k: int| 0 <= k < i ==> (#[trigger] merged@[k])@.len() <= rows_in[k]@.len(),
                forall|k: int, c: usize, d: T| 0 <= k < n && call_ensures(T::default, (), d)
                    ==> #[trigger] sum_defined(d, rows_in[k]@.filter(in_col::<T>(c))),
                forall|k: int| 0 <= k < i ==> #[trigger] merges_into(rows_in[k]@, merged@[k]@),
            decreases n - i,
        {
            proof {
                lemma_total_len_monotone(rows_in, i + 1, n as int);
            }
            sort_by_column(&mut rows[i]);
            let row_out = merge_sorted_row(&rows[i]);
            proof {
                let d = choose|d: T| #[trigger] call_ensures(T::default, (), d) && is_merged_row(rows@[i as int]@, row_out@, d);
                lemma_merged_same_columns(rows@[i as int]@, rows_in[i as int]@, row_out@, d);
            }
            nnz = nnz + row_out.len();
            let ghost old_merged = merged@;
            merged.push(row_out);
            proof {
                assert forall|k: int| 0 <= k < i + 1 implies #[trigger] merges_into(rows_in[k]@, merged@[k]@) by {
                    if k == i {
                        let d = choose|d: T| #[trigger] call_ensures(T::default, (), d) && is_merged_row(rows@[i as int]@, merged@[k]@, d);
                        lemma_merged_same_columns(rows@[i as int]@, rows_in[i as int]@, merged@[k]@, d);
                    }
                }
                assert(total_len(merged@, i + 1) == total_len(merged@, i as int) + merged@[i as int]@.len());
                assert(merged@.drop_last() =~= old_merged);
                lemma_total_len_prefix(merged@, i as int);
            }
            i += 1;
        }
        let mut mat = SparseMatrix::with_capacity(n, nnz);
        let mut i: usize = 0;
        while i < n
            invariant
                i <= n,
                n == merged@.len(),
                mat.wf(),
                mat.spec_rows() == n,
                mat.spec_entries().len() == 0,
                forall|k: int| 0 <= k < i ==> #[trigger] mat.spec_sizes()[k] == merged@[k]@.len(),
                forall|k: int| i <= k < n ==> #[trigger] mat.spec_sizes()[k] == 0,
            decreases n - i,
        {
            mat.set_row_size(i, merged[i].len());
            i += 1;
        }
        proof {
            lemma_sizes_match(mat.spec_sizes(), merged@, n as int);
        }
        mat.finalize_structure();
        let mut i: usize = 0;
        while i < n
            invariant
                i <= n,
                n == merged@.len(),
                mat.wf(),
                mat.is_finalized(),
                mat.spec_rows() == n,
                forall|k: int| 0 <= k < n ==> #[trigger] mat.spec_sizes()[k] == merged@[k]@.len(),
                forall|k: int| 0 <= k < i ==> #[trigger] mat.row_view(k) == merged@[k]@,
                forall|k: int| 0 <= k < n ==> #[trigger] merges_into(rows_in[k]@, merged@[k]@),
                rows_in.len() == n,
            decreases n - i,
        {
            let start = mat.offsets[i];
            let row = &merged[i];
            let mut k: usize = 0;
            let ghost before = mat.entries@;
            let ghost before_mat = mat;
            let ghost offs = mat.offsets@;
            let ghost sizes = mat.row_sizes@;
            proof {
                assert(offs[i as int] <= offs[i + 1]);
                assert(offs[i + 1] <= offs[n as int]);
                assert(offs[i + 1] == offs[i as int] + sizes[i as int]);
            }
            while k < row.len()
                invariant
                    i < n,
                    n == merged@.len(),
                    row@ == merged@[i as int]@,
                    k <= row@.len(),
                    offs.len() == n + 1,
                    start == offs[i as int],
                    offs[i + 1] == start + row@.len(),
                    offs[i + 1] <= before.len(),
                    mat.rows == n,
                    mat.offsets@ == offs,
                    mat.row_sizes@ == sizes,
                    mat.entries@.len() == before.len(),
                    forall|e: int| 0 <= e < before.len() && !(start <= e < start + k) ==> #[trigger] mat.entries@[e] == before[e],
                    forall|e: int| 0 <= e < k ==> #[trigger] mat.entries@[start + e] == row@[e],
                decreases row@.len() - k,
            {
                mat.entries.set(start + k, row[k]);
                k += 1;
            }
            proof {
                assert(k == row@.len());
                assert(mat.spec_entries() == mat.entries@);
                assert(mat.spec_offsets() == offs);
                assert forall|e: int| 0 <= e < row@.len() implies #[trigger] mat.row_view(i as int)[e] == row@[e] by {
                    assert(mat.row_view(i as int)[e] == mat.entries@[start + e]);
                }
                assert(mat.row_view(i as int) =~= merged@[i as int]@);
                assert forall|k: int| 0 <= k < i implies #[trigger] mat.row_view(k) == merged@[k]@ by {
                    assert(offs[k + 1] <= offs[i as int]);
                    assert(offs[k] <= offs[k + 1]);
                    assert(mat.row_view(k) =~= before.subrange(offs[k] as int, offs[k + 1] as int));
                    assert(before_mat.row_view(k) == merged@[k]@);
                    assert(before_mat.row_view(k) == before.subrange(offs[k] as int, offs[k + 1] as int));
                }
            }
            i += 1;
        }
        mat
    }
}

proof fn lemma_total_len_monotone<A>(rows: Seq<Vec<A>>, a: int, b: int)
    requires
        a <= b,
    ensures
        total_len(rows, a) <= total_len(rows, b),
    decreases b - a,
{
    if a < b {
        lemma_total_len_monotone(rows, a, b - 1);
    }
}

proof fn lemma_total_len_prefix<A>(rows: Seq<Vec<A>>, n: int)
    requires
        0 <= n < rows.len(),
    ensures
        total_len(rows.drop_last(), n) == total_len(rows, n),
    decreases n,
{
    if n > 0 {
        lemma_total_len_prefix(rows, n - 1);
    }
}

proof fn lemma_sizes_match<A>(sizes: Seq<usize>, rows: Seq<Vec<A>>, n: int)
    requires
        0 <= n <= sizes.len(),
        n <= rows.len(),
        forall|k: int| 0 <= k < n ==> #[trigger] sizes[k] == rows[k]@.len(),
    ensures
        sum_sizes(sizes, n) == total_len(rows, n),
    decreases n,
{
    if n > 0 {
        lemma_sizes_match(sizes, rows, n - 1);
    }
}

} // verus!
