use rayon::prelude::{
    IndexedParallelIterator, IntoParallelRefIterator, IntoParallelRefMutIterator, ParallelIterator,
};
use vstd::prelude::*;

use crate::dataset::{codes_of, Bin};
use crate::number::{constant, whole, Wide};

verus! {

/// One histogram bin: gradient sum, hessian sum, row count. The sums are kept
/// in the wide number type, because a sum over a leaf cancels large terms of
/// opposite sign.
#[derive(Debug, Clone, Copy)]
pub struct HistBin<W> {
    pub grad: W,
    pub hess: W,
    pub count: u32,
}

/// Per-feature gradient/hessian histogram, with bin 0 for missing values.
#[derive(Debug, Clone)]
pub struct FeatureHistogram<W> {
    pub bins: Vec<HistBin<W>>,
}

pub open spec fn zero_bin<W: Wide>() -> HistBin<W> {
    HistBin { grad: whole(0), hess: whole(0), count: 0 }
}

pub open spec fn zero_bins<W: Wide>(n: nat) -> Seq<HistBin<W>> {
    Seq::new(n, |b: int| zero_bin::<W>())
}

/// One row's gradient and hessian added to bin `b`.
pub open spec fn accumulated<W: Wide>(
    bins: Seq<HistBin<W>>,
    b: int,
    gradhess: [W::Narrow; 2],
) -> Seq<HistBin<W>> {
    bins.update(
        b,
        HistBin {
            grad: bins[b].grad.sum_of(W::widened(gradhess@[0])),
            hess: bins[b].hess.sum_of(W::widened(gradhess@[1])),
            count: (bins[b].count + 1) as u32,
        },
    )
}

/// The histogram of `rows` over `n` bins: the rows are added one after the
/// other, each to the bin that its code names.
pub open spec fn hist_of<W: Wide>(
    codes: Seq<u16>,
    rows: Seq<u32>,
    gradhess: Seq<[W::Narrow; 2]>,
    n: nat,
) -> Seq<HistBin<W>>
    decreases rows.len(),
{
    if rows.len() == 0 {
        zero_bins(n)
    } else {
        let row = rows.last() as int;
        accumulated(hist_of::<W>(codes, rows.drop_last(), gradhess, n), codes[row] as int, gradhess[row])
    }
}

/// The number of `rows` whose code is `b`.
pub open spec fn rows_in_bin(codes: Seq<u16>, rows: Seq<u32>, b: int) -> nat
    decreases rows.len(),
{
    if rows.len() == 0 {
        0
    } else {
        rows_in_bin(codes, rows.drop_last(), b) + if codes[rows.last() as int] == b {
            1nat
        } else {
            0nat
        }
    }
}

/// Parent minus sibling, bin by bin.
pub open spec fn difference<W: Wide>(
    parent: Seq<HistBin<W>>,
    sibling: Seq<HistBin<W>>,
) -> Seq<HistBin<W>> {
    Seq::new(
        parent.len(),
        |b: int|
            HistBin {
                grad: parent[b].grad.difference_of(sibling[b].grad),
                hess: parent[b].hess.difference_of(sibling[b].hess),
                count: (parent[b].count - sibling[b].count) as u32,
            },
    )
}

/// The rows `0..n` in order.
pub open spec fn every_row(n: nat) -> Seq<u32> {
    Seq::new(n, |i: int| i as u32)
}

/// The code of every row is one of `n` bins.
pub open spec fn codes_below(codes: Seq<u16>, rows: Seq<u32>, n: nat) -> bool {
    forall|k: int| 0 <= k < rows.len() ==> codes[(#[trigger] rows[k]) as int] < n
}

/// The counts of a histogram are the numbers of rows in its bins.
pub open spec fn counts_rows<W: Wide>(
    bins: Seq<HistBin<W>>,
    codes: Seq<u16>,
    rows: Seq<u32>,
) -> bool {
    forall|b: int|
        0 <= b < bins.len() ==> (#[trigger] bins[b]).count == rows_in_bin(codes, rows, b)
}

pub proof fn lemma_rows_in_bin_bound(codes: Seq<u16>, rows: Seq<u32>, b: int)
    ensures
        rows_in_bin(codes, rows, b) <= rows.len(),
    decreases rows.len(),
{
    if rows.len() > 0 {
        lemma_rows_in_bin_bound(codes, rows.drop_last(), b);
    }
}

/// A histogram has the bins it was asked for, and counts the rows in each.
pub proof fn lemma_hist_counts<W: Wide>(
    codes: Seq<u16>,
    rows: Seq<u32>,
    gradhess: Seq<[W::Narrow; 2]>,
    n: nat,
)
    requires
        rows.len() <= u32::MAX,
        codes_below(codes, rows, n),
    ensures
        hist_of::<W>(codes, rows, gradhess, n).len() == n,
        counts_rows(hist_of::<W>(codes, rows, gradhess, n), codes, rows),
    decreases rows.len(),
{
    if rows.len() > 0 {
        lemma_hist_counts::<W>(codes, rows.drop_last(), gradhess, n);
        let before = hist_of::<W>(codes, rows.drop_last(), gradhess, n);
        let now = hist_of::<W>(codes, rows, gradhess, n);
        assert forall|b: int| 0 <= b < now.len() implies (#[trigger] now[b]).count == rows_in_bin(
            codes,
            rows,
            b,
        ) by {
            lemma_rows_in_bin_bound(codes, rows.drop_last(), b);
            assert(before[b].count == rows_in_bin(codes, rows.drop_last(), b));
        }
    }
}

/// Splitting rows by a predicate splits the count of every bin.
pub proof fn lemma_rows_in_bin_split(
    codes: Seq<u16>,
    rows: Seq<u32>,
    b: int,
    left: spec_fn(u32) -> bool,
)
    ensures
        rows_in_bin(codes, rows, b) == rows_in_bin(codes, rows.filter(left), b) + rows_in_bin(
            codes,
            rows.filter(|r: u32| !left(r)),
            b,
        ),
    decreases rows.len(),
{
    let right = |r: u32| !left(r);
    reveal(Seq::filter);
    if rows.len() > 0 {
        let init = rows.drop_last();
        let last = rows.last();
        lemma_rows_in_bin_split(codes, init, b, left);
        if left(last) {
            assert(rows.filter(left) =~= init.filter(left).push(last));
            assert(rows.filter(left).drop_last() =~= init.filter(left));
            assert(rows.filter(right) =~= init.filter(right));
        } else {
            assert(rows.filter(right) =~= init.filter(right).push(last));
            assert(rows.filter(right).drop_last() =~= init.filter(right));
            assert(rows.filter(left) =~= init.filter(left));
        }
    }
}

impl<W: Wide> FeatureHistogram<W> {
    pub fn zeros(num_bins: usize) -> (h: Self)
        ensures
            h.bins@ == zero_bins::<W>(num_bins as nat),
    {
        let mut bins: Vec<HistBin<W>> = Vec::with_capacity(num_bins);
        let mut b: usize = 0;
        while b < num_bins
            invariant
                b <= num_bins,
                bins@ =~= zero_bins::<W>(b as nat),
            decreases num_bins - b,
        {
            bins.push(HistBin { grad: constant(0), hess: constant(0), count: 0 });
            b = b + 1;
        }
        FeatureHistogram { bins }
    }

    pub fn num_bins(&self) -> (n: usize)
        ensures
            n == self.bins@.len(),
    {
        self.bins.len()
    }

    pub fn clear(&mut self)
        ensures
            final(self).bins@ == zero_bins::<W>(old(self).bins@.len()),
    {
        let n: usize = self.bins.len();
        let mut b: usize = 0;
        while b < n
            invariant
                b <= n == self.bins@.len(),
                forall|i: int| 0 <= i < b ==> self.bins@[i] == zero_bin::<W>(),
            decreases n - b,
        {
            self.bins.set(b, HistBin { grad: constant(0), hess: constant(0), count: 0 });
            b = b + 1;
        }
        assert(self.bins@ =~= zero_bins::<W>(n as nat));
    }

    /// Add one row to the bin that its code names.
    fn add_row(&mut self, bin: usize, gradhess: [W::Narrow; 2])
        requires
            bin < old(self).bins@.len(),
            old(self).bins@[bin as int].count < u32::MAX,
        ensures
            final(self).bins@ == accumulated(old(self).bins@, bin as int, gradhess),
    {
        let b: HistBin<W> = self.bins[bin];
        let grad = b.grad.plus(W::widen(gradhess[0]));
        let hess = b.hess.plus(W::widen(gradhess[1]));
        self.bins.set(bin, HistBin { grad, hess, count: b.count + 1 });
    }

    /// Histogram of the rows in `indices` on a single feature column.
    /// `gradhess[row]` holds the gradient and the hessian of a row.
    pub fn build<B: Bin>(&mut self, column: &[B], indices: &[u32], gradhess: &[[W::Narrow; 2]])
        requires
            rows_fit(column@, indices@, gradhess@.len(), old(self).bins@.len()),
        ensures
            final(self).bins@ == hist_of::<W>(
                codes_of(column@),
                indices@,
                gradhess@,
                old(self).bins@.len(),
            ),
    {
        self.clear();
        let ghost n = old(self).bins@.len();
        let ghost codes = codes_of(column@);
        let mut k: usize = 0;
        assert(indices@.take(0) =~= Seq::<u32>::empty());
        while k < indices.len()
            invariant
                rows_fit(column@, indices@, gradhess@.len(), n),
                codes == codes_of(column@),
                k <= indices@.len(),
                self.bins@ == hist_of::<W>(codes, indices@.take(k as int), gradhess@, n),
            decreases indices@.len() - k,
        {
            let row: usize = indices[k] as usize;
            proof {
                let done = indices@.take(k as int);
                assert(indices@[k as int] < column@.len());
                assert(indices@.take(k + 1).drop_last() =~= done);
                assert(codes_below(codes, done, n)) by {
                    assert forall|j: int| 0 <= j < done.len() implies codes[(
                    #[trigger] done[j]) as int] < n by {
                        assert(indices@[j] < column@.len());
                    }
                }
                lemma_hist_counts::<W>(codes, done, gradhess@, n);
                lemma_rows_in_bin_bound(codes, done, codes[row as int] as int);
                assert(self.bins@[codes[row as int] as int].count <= done.len());
            }
            self.add_row(column[row].as_usize(), gradhess[row]);
            k = k + 1;
        }
        assert(indices@.take(indices@.len() as int) =~= indices@);
    }

    /// Histogram of all rows in column order.
    pub fn build_full<B: Bin>(&mut self, column: &[B], gradhess: &[[W::Narrow; 2]])
        requires
            column@.len() == gradhess@.len(),
            column@.len() <= u32::MAX,
            forall|r: int|
                0 <= r < column@.len() ==> (#[trigger] column@[r]).code() < old(self).bins@.len(),
        ensures
            final(self).bins@ == hist_of::<W>(
                codes_of(column@),
                every_row(column@.len()),
                gradhess@,
                old(self).bins@.len(),
            ),
    {
        self.clear();
        let ghost n = old(self).bins@.len();
        let ghost codes = codes_of(column@);
        let mut row: usize = 0;
        while row < column.len()
            invariant
                column@.len() == gradhess@.len(),
                column@.len() <= u32::MAX,
                forall|r: int|
                    0 <= r < column@.len() ==> (#[trigger] column@[r]).code() < n,
                codes == codes_of(column@),
                row <= column@.len(),
                self.bins@ == hist_of::<W>(codes, every_row(row as nat), gradhess@, n),
            decreases column@.len() - row,
        {
            proof {
                let done = every_row(row as nat);
                assert(every_row((row + 1) as nat).drop_last() =~= done);
                assert(codes_below(codes, done, n)) by {
                    assert forall|j: int| 0 <= j < done.len() implies codes[(
                    #[trigger] done[j]) as int] < n by {
                        assert(column@[j].code() < n);
                    }
                }
                assert(column@[row as int].code() < n);
                lemma_hist_counts::<W>(codes, done, gradhess@, n);
                lemma_rows_in_bin_bound(codes, done, codes[row as int] as int);
                assert(self.bins@[codes[row as int] as int].count <= done.len());
            }
            self.add_row(column[row].as_usize(), gradhess[row]);
            row = row + 1;
        }
    }

    /// Compute `out = parent - sibling` bin by bin.
    pub fn subtract_into(
        parent: &FeatureHistogram<W>,
        sibling: &FeatureHistogram<W>,
        out: &mut FeatureHistogram<W>,
    )
        requires
            parent.bins@.len() == sibling.bins@.len() == old(out).bins@.len(),
            forall|b: int|
                0 <= b < parent.bins@.len() ==> (#[trigger] sibling.bins@[b]).count
                    <= parent.bins@[b].count,
        ensures
            final(out).bins@ == difference(parent.bins@, sibling.bins@),
    {
        let n: usize = parent.bins.len();
        let mut b: usize = 0;
        while b < n
            invariant
                b <= n == parent.bins@.len() == sibling.bins@.len() == out.bins@.len(),
                forall|b: int|
                    0 <= b < parent.bins@.len() ==> (#[trigger] sibling.bins@[b]).count
                        <= parent.bins@[b].count,
                forall|i: int|
                    0 <= i < b ==> out.bins@[i] == difference(parent.bins@, sibling.bins@)[i],
            decreases n - b,
        {
            let p: HistBin<W> = parent.bins[b];
            let s: HistBin<W> = sibling.bins[b];
            out.bins.set(
                b,
                HistBin {
                    grad: p.grad.minus(s.grad),
                    hess: p.hess.minus(s.hess),
                    count: p.count - s.count,
                },
            );
            b = b + 1;
        }
        assert(out.bins@ =~= difference(parent.bins@, sibling.bins@));
    }
}

/// Every row index lies in the column and in the gradients, every code lies in
/// the histogram, and the rows can be counted in a `u32`.
pub open spec fn rows_fit<B: Bin>(column: Seq<B>, rows: Seq<u32>, gradients: nat, bins: nat) -> bool {
    &&& rows.len() <= u32::MAX
    &&& forall|k: int|
        0 <= k < rows.len() ==> {
            &&& (#[trigger] rows[k]) < column.len()
            &&& rows[k] < gradients
            &&& column[rows[k] as int].code() < bins
        }
}

/// The listed rows, or all `n` rows when none are listed.
pub open spec fn chosen_rows(indices: Option<&[u32]>, n: nat) -> Seq<u32> {
    match indices {
        Some(rows) => rows@,
        None => every_row(n),
    }
}

/// A histogram of `bins` bins can be built from the chosen rows of a column.
pub open spec fn buildable<B: Bin>(
    column: Seq<B>,
    indices: Option<&[u32]>,
    gradients: nat,
    bins: nat,
) -> bool {
    &&& rows_fit(column, chosen_rows(indices, column.len()), gradients, bins)
    &&& indices is None ==> column.len() == gradients
}

impl<W: Wide> FeatureHistogram<W> {
    fn fill<B: Bin>(
        &mut self,
        column: &[B],
        indices: Option<&[u32]>,
        gradhess: &[[W::Narrow; 2]],
    )
        requires
            buildable(column@, indices, gradhess@.len(), old(self).bins@.len()),
        ensures
            final(self).bins@ == hist_of::<W>(
                codes_of(column@),
                chosen_rows(indices, column@.len()),
                gradhess@,
                old(self).bins@.len(),
            ),
    {
        match indices {
            Some(rows) => self.build(column, rows, gradhess),
            None => {
                proof {
                    assert forall|r: int| 0 <= r < column@.len() implies (
                    #[trigger] column@[r]).code() < old(self).bins@.len() by {
                        assert(every_row(column@.len())[r] == r);
                    }
                }
                self.build_full(column, gradhess)
            },
        }
    }
}

/// The parallel `for_each` of rayon over the zip of `histograms` and `columns`:
/// every histogram is filled once, from the column at its own position. The
/// claim is that the pairs are those of the two lists position by position and
/// that no histogram is touched by another pair's call.
#[verifier::external_body]
fn fill_each<W: Wide, B: Bin>(
    columns: &[&[B]],
    indices: Option<&[u32]>,
    gradhess: &[[W::Narrow; 2]],
    histograms: &mut [FeatureHistogram<W>],
)
    requires
        columns@.len() == old(histograms)@.len(),
        forall|i: int|
            #![trigger columns@[i]]
            0 <= i < columns@.len() ==> buildable(
                columns@[i]@,
                indices,
                gradhess@.len(),
                old(histograms)@[i].bins@.len(),
            ),
    ensures
        final(histograms)@.len() == old(histograms)@.len(),
        forall|i: int|
            #![trigger final(histograms)@[i]]
            0 <= i < old(histograms)@.len() ==> final(histograms)@[i].bins@ == hist_of::<W>(
                codes_of(columns@[i]@),
                chosen_rows(indices, columns@[i]@.len()),
                gradhess@,
                old(histograms)@[i].bins@.len(),
            ),
{
    histograms.par_iter_mut().zip(columns.par_iter()).for_each(
        |(hist, col)| hist.fill(col, indices, gradhess),
    );
}

/// Batched histogram build over `indices`, one histogram per column. Within a
/// feature the rows are summed in the order of `indices`, exactly as
/// [`FeatureHistogram::build`] does.
pub fn build_histograms_batched<W: Wide, B: Bin>(
    columns: &[&[B]],
    indices: &[u32],
    gradhess: &[[W::Narrow; 2]],
    histograms: &mut [FeatureHistogram<W>],
)
    requires
        columns@.len() == old(histograms)@.len(),
        forall|i: int|
            #![trigger columns@[i]]
            0 <= i < columns@.len() ==> rows_fit(
                columns@[i]@,
                indices@,
                gradhess@.len(),
                old(histograms)@[i].bins@.len(),
            ),
    ensures
        final(histograms)@.len() == old(histograms)@.len(),
        forall|i: int|
            #![trigger final(histograms)@[i]]
            0 <= i < old(histograms)@.len() ==> final(histograms)@[i].bins@ == hist_of::<W>(
                codes_of(columns@[i]@),
                indices@,
                gradhess@,
                old(histograms)@[i].bins@.len(),
            ),
{
    fill_each(columns, Some(indices), gradhess, histograms);
}

/// Batched histogram build over all rows in column order.
pub fn build_histograms_batched_full<W: Wide, B: Bin>(
    columns: &[&[B]],
    gradhess: &[[W::Narrow; 2]],
    histograms: &mut [FeatureHistogram<W>],
)
    requires
        columns@.len() == old(histograms)@.len(),
        gradhess@.len() <= u32::MAX,
        forall|i: int|
            #![trigger columns@[i]]
            0 <= i < columns@.len() ==> {
                &&& columns@[i]@.len() == gradhess@.len()
                &&& forall|r: int|
                    0 <= r < columns@[i]@.len() ==> (#[trigger] columns@[i]@[r]).code()
                        < old(histograms)@[i].bins@.len()
            },
    ensures
        final(histograms)@.len() == old(histograms)@.len(),
        forall|i: int|
            #![trigger final(histograms)@[i]]
            0 <= i < old(histograms)@.len() ==> final(histograms)@[i].bins@ == hist_of::<W>(
                codes_of(columns@[i]@),
                every_row(gradhess@.len()),
                gradhess@,
                old(histograms)@[i].bins@.len(),
            ),
{
    fill_each(columns, None, gradhess, histograms);
}

} // verus!
